//! The guard, driven against a disk held in memory.

use path_guard::guard::Rejection;
use path_guard::guard::Root;
use path_guard::guard::Step;
use path_guard::guard::Walk;
use path_guard::path::join_path;

/// A disk in memory: directories and files by their canonical paths, symbolic
/// links by where they stand and where they lead, and paths whose canonical
/// form the disk refuses to give.
struct FakeDisk {
    dirs: Vec<&'static str>,
    files: Vec<&'static str>,
    links: Vec<(&'static str, &'static str)>,
    denied: Vec<&'static str>,
}

impl FakeDisk {
    fn new(dirs: &[&'static str], files: &[&'static str]) -> FakeDisk {
        FakeDisk { dirs: dirs.to_vec(), files: files.to_vec(), links: Vec::new(), denied: Vec::new() }
    }

    /// Resolves a path as a POSIX system does: name by name, each name looked
    /// up in the directory reached so far.
    fn resolve(&self, path: &[u8]) -> Option<String> {
        let text = std::str::from_utf8(path).unwrap();
        if !text.starts_with('/') {
            return None;
        }
        let mut at = String::from("/");
        for name in text[1..].split('/') {
            if !self.dirs.contains(&at.as_str()) {
                return None;
            }
            if name.is_empty() || name == "." {
                continue;
            }
            if name == ".." {
                let cut = at.rfind('/').unwrap();
                at.truncate(if cut == 0 { 1 } else { cut });
                continue;
            }
            if at != "/" {
                at.push('/');
            }
            at.push_str(name);
            if let Some((_, target)) = self.links.iter().find(|(link, _)| *link == at) {
                at = target.to_string();
            }
            if !self.dirs.contains(&at.as_str()) && !self.files.contains(&at.as_str()) {
                return None;
            }
        }
        Some(at)
    }

    fn canonicalize(&self, path: &[u8]) -> Result<Vec<u8>, String> {
        if self.denied.iter().any(|d| d.as_bytes() == path) {
            return Err(String::from("Permission denied (os error 13)"));
        }
        match self.resolve(path) {
            Some(c) => Ok(c.into_bytes()),
            None => Err(String::from("No such file or directory (os error 2)")),
        }
    }
}

/// Drives the guard: answers each of its questions from the disk, and notes
/// the paths it asked about.
fn validate_noting(
    disk: &FakeDisk,
    root: &str,
    candidate: &str,
    asked: &mut Vec<String>,
) -> Result<Vec<u8>, Rejection> {
    let root = Root::new(root.as_bytes().to_vec()).expect("the root is canonical");
    let mut walk = Walk::begin(&root, candidate.as_bytes());
    let anchor = loop {
        asked.push(String::from_utf8(walk.path().to_vec()).unwrap());
        let present = disk.resolve(walk.path()).is_some();
        match walk.answer(present) {
            Step::Probe(next) => walk = next,
            Step::Canonicalize(anchor) => break anchor,
            Step::Reject(rejection) => return Err(rejection),
        }
    };
    let canonical = disk.canonicalize(anchor.path());
    anchor.answer(canonical)
}

fn validate(disk: &FakeDisk, root: &str, candidate: &str) -> Result<Vec<u8>, Rejection> {
    validate_noting(disk, root, candidate, &mut Vec::new())
}

fn approved(path: &str) -> Result<Vec<u8>, Rejection> {
    Ok(path.as_bytes().to_vec())
}

fn work_disk() -> FakeDisk {
    FakeDisk::new(&["/", "/work", "/work/logs", "/etc"], &["/etc/passwd", "/work/notes.txt"])
}

#[test]
fn new_file_in_new_directory_is_approved() {
    let disk = FakeDisk::new(&["/", "/work"], &[]);
    assert_eq!(validate(&disk, "/work", "logs/app.log"), approved("/work/logs/app.log"));
}

#[test]
fn parent_of_root_is_a_boundary_violation() {
    assert_eq!(validate(&work_disk(), "/work", "../etc/passwd"), Err(Rejection::BoundaryViolation));
    let bare = FakeDisk::new(&["/", "/work"], &[]);
    assert_eq!(validate(&bare, "/work", "../etc/passwd"), Err(Rejection::BoundaryViolation));
}

#[test]
fn absolute_path_outside_root_is_a_boundary_violation() {
    assert_eq!(validate(&work_disk(), "/work", "/etc/passwd"), Err(Rejection::BoundaryViolation));
}

#[test]
fn absolute_path_outside_root_that_does_not_exist_is_a_boundary_violation() {
    assert_eq!(validate(&work_disk(), "/work", "/etc/shadow"), Err(Rejection::BoundaryViolation));
    assert_eq!(validate(&work_disk(), "/work", "/nowhere/at/all"), Err(Rejection::BoundaryViolation));
}

#[test]
fn parent_dir_inside_existing_prefix_is_approved() {
    let mut asked = Vec::new();
    assert_eq!(
        validate_noting(&work_disk(), "/work", "logs/../logs/app.log", &mut asked),
        approved("/work/logs/../logs/app.log")
    );
    assert_eq!(asked, vec!["/work/logs/../logs/app.log", "/work/logs/../logs"]);
}

#[test]
fn parent_dir_in_missing_suffix_is_a_traversal() {
    let mut asked = Vec::new();
    assert_eq!(
        validate_noting(&work_disk(), "/work", "newdir/../../escape.txt", &mut asked),
        Err(Rejection::TraversalInSuffix)
    );
    assert_eq!(
        asked,
        vec![
            "/work/newdir/../../escape.txt",
            "/work/newdir/../..",
            "/work/newdir/..",
            "/work/newdir",
            "/work",
        ]
    );
}

#[test]
fn parent_dir_in_missing_suffix_is_a_traversal_even_where_it_stays_inside() {
    assert_eq!(validate(&work_disk(), "/work", "newdir/../file.txt"), Err(Rejection::TraversalInSuffix));
    assert_eq!(validate(&work_disk(), "/work", "logs/new/.."), Err(Rejection::TraversalInSuffix));
}

#[test]
fn empty_candidate_and_dot_resolve_to_root() {
    let disk = work_disk();
    assert_eq!(validate(&disk, "/work", ""), approved("/work/"));
    assert_eq!(validate(&disk, "/work", "."), approved("/work/."));
    assert_eq!(std::path::Path::new("/work/"), std::path::Path::new("/work"));
    assert_eq!(std::path::Path::new("/work/."), std::path::Path::new("/work"));
}

#[test]
fn joined_names_resolve_below_root() {
    let parts = vec![b"a".to_vec(), b"b".to_vec(), b"c".to_vec()];
    let joined = join_path(&parts);
    assert_eq!(joined, b"a/b/c".to_vec());
    let candidate = String::from_utf8(joined).unwrap();
    assert_eq!(validate(&work_disk(), "/work", &candidate), approved("/work/a/b/c"));
}

#[test]
fn existing_file_inside_root_is_approved() {
    let disk = work_disk();
    assert_eq!(validate(&disk, "/work", "notes.txt"), approved("/work/notes.txt"));
    assert_eq!(validate(&disk, "/work", "/work/notes.txt"), approved("/work/notes.txt"));
    assert_eq!(validate(&disk, "/work", "logs"), approved("/work/logs"));
    assert_eq!(validate(&disk, "/work", "./logs/./"), approved("/work/./logs/./"));
}

#[test]
fn sibling_with_root_as_string_prefix_is_outside() {
    let disk = FakeDisk::new(&["/", "/work", "/work2"], &["/work2/file"]);
    assert_eq!(validate(&disk, "/work", "/work2/file"), Err(Rejection::BoundaryViolation));
    assert_eq!(validate(&disk, "/work", "../work2/new"), Err(Rejection::BoundaryViolation));
    assert_eq!(validate(&disk, "/work", "/work2"), Err(Rejection::BoundaryViolation));
}

#[test]
fn link_that_leads_outside_root_is_a_boundary_violation() {
    let mut disk = work_disk();
    disk.links.push(("/work/out", "/etc"));
    assert_eq!(validate(&disk, "/work", "out/passwd"), Err(Rejection::BoundaryViolation));
    assert_eq!(validate(&disk, "/work", "out/new.txt"), Err(Rejection::BoundaryViolation));
}

#[test]
fn link_that_leads_inside_root_is_approved_as_written() {
    let mut disk = work_disk();
    disk.dirs.push("/tmp");
    disk.links.push(("/tmp/in", "/work/logs"));
    assert_eq!(validate(&disk, "/work", "/tmp/in/app.log"), approved("/tmp/in/app.log"));
}

#[test]
fn failure_to_canonicalize_is_an_io_failure() {
    let mut disk = work_disk();
    disk.denied.push("/work/logs");
    let verdict = validate(&disk, "/work", "logs/app.log");
    assert_eq!(
        verdict,
        Err(Rejection::IoFailure { detail: String::from("Permission denied (os error 13)") })
    );
    assert_eq!(verdict.unwrap_err().message(), "Invalid path: Permission denied (os error 13)");
}

#[test]
fn path_without_any_existing_ancestor_is_rejected() {
    let nothing = FakeDisk::new(&[], &[]);
    let mut asked = Vec::new();
    assert_eq!(
        validate_noting(&nothing, "/work", "a/b", &mut asked),
        Err(Rejection::IoFailure { detail: String::from("no part of the path exists") })
    );
    assert_eq!(asked, vec!["/work/a/b", "/work/a", "/work", "/"]);
}

#[test]
fn root_of_the_file_system_as_root() {
    let disk = work_disk();
    assert_eq!(validate(&disk, "/", "etc/passwd"), approved("/etc/passwd"));
    assert_eq!(validate(&disk, "/", ""), approved("/"));
    assert_eq!(validate(&disk, "/", "new/../x"), Err(Rejection::TraversalInSuffix));
}

#[test]
fn file_taken_as_directory_is_judged_by_its_directory() {
    let disk = work_disk();
    assert_eq!(validate(&disk, "/work", "notes.txt/"), approved("/work/notes.txt/"));
    assert_eq!(validate(&disk, "/work", "notes.txt/x"), approved("/work/notes.txt/x"));
}

#[test]
fn rejection_messages() {
    assert_eq!(
        Rejection::BoundaryViolation.message(),
        "Access denied: Path is outside working directory"
    );
    assert_eq!(
        Rejection::TraversalInSuffix.message(),
        "Access denied: Path contains '..' in non-existing portion"
    );
    assert_eq!(
        Rejection::IoFailure { detail: String::from("broken") }.message(),
        "Invalid path: broken"
    );
}

#[test]
fn root_must_be_canonical() {
    for good in ["/", "/work", "/work/sub dir", "/.hidden/..x", "/a/b/c"] {
        let root = Root::new(good.as_bytes().to_vec()).expect(good);
        assert_eq!(root.as_bytes(), good.as_bytes());
    }
    for bad in ["", "work", "./work", "/work/", "//work", "/work//sub", "/work/.", "/work/..", "/./work", "/../work", "//"] {
        assert!(Root::new(bad.as_bytes().to_vec()).is_none(), "{:?}", bad);
    }
}

#[test]
fn walk_begins_at_the_resolved_candidate() {
    let root = Root::new(b"/work".to_vec()).unwrap();
    assert_eq!(Walk::begin(&root, b"logs/app.log").path(), b"/work/logs/app.log");
    assert_eq!(Walk::begin(&root, b"/etc/passwd").path(), b"/etc/passwd");
    assert_eq!(Walk::begin(&root, b"").path(), b"/work/");
}

#[test]
fn walk_that_finds_its_path_asks_for_its_canonical_form() {
    let root = Root::new(b"/work".to_vec()).unwrap();
    match Walk::begin(&root, b"logs").answer(true) {
        Step::Canonicalize(anchor) => assert_eq!(anchor.path(), b"/work/logs"),
        _ => panic!("the walk should have ended at the path that exists"),
    }
}

#[test]
fn walk_that_misses_its_path_goes_to_the_parent() {
    let root = Root::new(b"/work".to_vec()).unwrap();
    match Walk::begin(&root, b"logs/app.log").answer(false) {
        Step::Probe(next) => assert_eq!(next.path(), b"/work/logs"),
        _ => panic!("the walk should have gone on"),
    }
}

#[test]
fn walk_that_misses_the_last_ancestor_is_rejected() {
    let root = Root::new(b"/".to_vec()).unwrap();
    match Walk::begin(&root, b"").answer(false) {
        Step::Reject(rejection) => assert_eq!(
            rejection,
            Rejection::IoFailure { detail: String::from("no part of the path exists") }
        ),
        _ => panic!("the walk should have ended"),
    }
}

#[test]
fn boundary_is_judged_before_traversal() {
    assert_eq!(validate(&work_disk(), "/work", "/etc/new/../x"), Err(Rejection::BoundaryViolation));
}

#[test]
fn climbing_out_through_a_missing_directory_is_a_traversal() {
    assert_eq!(validate(&work_disk(), "/work", "/work/new/../../etc"), Err(Rejection::TraversalInSuffix));
    assert_eq!(validate(&work_disk(), "/work", "new/../../etc/passwd"), Err(Rejection::TraversalInSuffix));
}

#[test]
fn failure_to_canonicalize_outside_root_is_an_io_failure() {
    let mut disk = work_disk();
    disk.denied.push("/etc");
    assert_eq!(
        validate(&disk, "/work", "/etc/shadow"),
        Err(Rejection::IoFailure { detail: String::from("Permission denied (os error 13)") })
    );
}
