use path_guard::listing::list_files;
use path_guard::listing::Entry;

fn file(name: &str) -> Result<Entry, String> {
    Ok(Entry { name: Some(String::from(name)), is_file: true })
}

fn dir(name: &str) -> Result<Entry, String> {
    Ok(Entry { name: Some(String::from(name)), is_file: false })
}

#[test]
fn listing_keeps_files_in_the_order_read() {
    let reads = vec![file("b.json"), dir("sub"), file("a.json"), file("c.json")];
    assert_eq!(
        list_files(&reads),
        Ok(vec![String::from("b.json"), String::from("a.json"), String::from("c.json")])
    );
}

#[test]
fn listing_of_empty_directory_is_empty() {
    assert_eq!(list_files(&Vec::new()), Ok(Vec::new()));
}

#[test]
fn listing_leaves_out_entries_without_a_text_name() {
    let reads = vec![Ok(Entry { name: None, is_file: true }), file("a.json")];
    assert_eq!(list_files(&reads), Ok(vec![String::from("a.json")]));
}

#[test]
fn listing_fails_with_the_first_error() {
    let reads = vec![
        file("a.json"),
        Err(String::from("first")),
        file("b.json"),
        Err(String::from("second")),
    ];
    assert_eq!(list_files(&reads), Err(String::from("first")));
}

#[test]
fn listing_of_directories_only_is_empty() {
    assert_eq!(list_files(&vec![dir("x"), dir("y")]), Ok(Vec::new()));
}
