//! The listing of a directory: which of its entries it names.

use vstd::prelude::*;

verus! {

/// An entry of a directory, as the file system gave it: its name, where it
/// has one that is text, and whether it is a regular file.
#[derive(Debug, PartialEq, Eq)]
pub struct Entry {
    pub name: Option<String>,
    pub is_file: bool,
}

/// An entry, as a mathematical value.
pub struct EntryView {
    pub name: Option<Seq<char>>,
    pub is_file: bool,
}

impl View for Entry {
    type V = EntryView;

    open spec fn view(&self) -> EntryView {
        EntryView {
            name: match self.name {
                Some(n) => Some(n@),
                None => None,
            },
            is_file: self.is_file,
        }
    }
}

/// What reading one entry gave, as a mathematical value: the entry, or the
/// words of the error.
pub open spec fn read_view(r: Result<Entry, String>) -> Result<EntryView, Seq<char>> {
    match r {
        Ok(e) => Ok(e@),
        Err(e) => Err(e@),
    }
}

/// The views of what reading the entries gave.
pub open spec fn read_views(v: Seq<Result<Entry, String>>) -> Seq<Result<EntryView, Seq<char>>> {
    Seq::new(v.len(), |i: int| read_view(v[i]))
}

/// The views of a sequence of strings.
pub open spec fn string_views(v: Seq<String>) -> Seq<Seq<char>> {
    Seq::new(v.len(), |i: int| v[i]@)
}

/// The view of a listing.
pub open spec fn listing_view(r: Result<Vec<String>, String>) -> Result<Seq<Seq<char>>, Seq<char>> {
    match r {
        Ok(names) => Ok(string_views(names@)),
        Err(e) => Err(e@),
    }
}

/// The listing that the entries read so far make: the names of the regular
/// files among them, in the order read, or the first error met.
pub open spec fn names_of_files(reads: Seq<Result<EntryView, Seq<char>>>) -> Result<
    Seq<Seq<char>>,
    Seq<char>,
>
    decreases reads.len(),
{
    if reads.len() == 0 {
        Ok(Seq::empty())
    } else {
        match names_of_files(reads.drop_last()) {
            Err(e) => Err(e),
            Ok(names) => match reads.last() {
                Err(e) => Err(e),
                Ok(entry) => if entry.is_file && entry.name is Some {
                    Ok(names.push(entry.name.unwrap()))
                } else {
                    Ok(names)
                },
            },
        }
    }
}

/// The names of the regular files among the entries of a directory, in the
/// order in which the entries were read. Directories and entries without a
/// name that is text are left out. Where reading an entry failed, the
/// listing fails with the words of the first such error.
pub fn list_files(reads: &Vec<Result<Entry, String>>) -> (r: Result<Vec<String>, String>)
    ensures
        listing_view(r) == names_of_files(read_views(reads@)),
{
    let mut files: Vec<String> = Vec::new();
    let ghost all = read_views(reads@);
    let mut i: usize = 0;
    proof {
        assert(string_views(files@) =~= Seq::<Seq<char>>::empty());
    }
    while i < reads.len()
        invariant
            i <= reads.len(),
            all == read_views(reads@),
            names_of_files(all.take(i as int)) == Ok::<Seq<Seq<char>>, Seq<char>>(
                string_views(files@),
            ),
        decreases reads.len() - i,
    {
        let ghost before = string_views(files@);
        proof {
            let upto = all.take(i + 1);
            assert(upto.drop_last() =~= all.take(i as int));
        }
        match &reads[i] {
            Err(e) => {
                proof {
                    lemma_error_stays(all, i + 1);
                }
                return Err(e.clone());
            },
            Ok(entry) => {
                if entry.is_file {
                    match &entry.name {
                        Some(name) => {
                            files.push(name.clone());
                            assert(string_views(files@) =~= before.push(name@));
                        },
                        None => {},
                    }
                }
            },
        }
        i += 1;
    }
    assert(all.take(reads.len() as int) =~= all);
    Ok(files)
}

/// Once the entries read so far have met an error, reading on changes
/// nothing.
proof fn lemma_error_stays(reads: Seq<Result<EntryView, Seq<char>>>, n: int)
    requires
        0 <= n <= reads.len(),
        names_of_files(reads.take(n)) is Err,
    ensures
        names_of_files(reads) == names_of_files(reads.take(n)),
    decreases reads.len(),
{
    if n < reads.len() {
        let front = reads.drop_last();
        assert(front.take(n) =~= reads.take(n));
        lemma_error_stays(front, n);
    } else {
        assert(reads.take(n) =~= reads);
    }
}

} // verus!
