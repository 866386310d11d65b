//! What holds of the guard, on every disk.

use crate::guard::existing_ancestor;
use crate::guard::judge;
use crate::guard::location;
use crate::guard::no_ancestor_detail;
use crate::guard::run;
use crate::guard::start;
use crate::guard::verdict;
use crate::guard::Disk;
use crate::guard::Position;
use crate::guard::RejectionView;
use crate::syntax;
use crate::syntax::ComponentView;
use crate::syntax::DOT;
use vstd::prelude::*;

verus! {

/// The existing ancestor is an ancestor that exists, and the longest one:
/// no ancestor with a longer text exists.
pub proof fn lemma_existing_ancestor(p: Seq<u8>, disk: Disk)
    ensures
        match existing_ancestor(p, disk) {
            Some(a) => {
                &&& syntax::is_ancestor(a, p)
                &&& disk.is_present(a)
                &&& forall|b: Seq<u8>|
                    #[trigger] syntax::is_ancestor(b, p) && b.len() > a.len() ==> !disk.is_present(
                        b,
                    )
            },
            None => forall|b: Seq<u8>| #[trigger] syntax::is_ancestor(b, p) ==> !disk.is_present(b),
        },
    decreases p.len(),
{
    if !disk.is_present(p) {
        syntax::lemma_parent(p);
        match syntax::parent(p) {
            Some(q) => {
                lemma_existing_ancestor(q, disk);
                match existing_ancestor(q, disk) {
                    Some(a) => {
                        assert forall|b: Seq<u8>| #[trigger]
                            syntax::is_ancestor(b, p) && b.len() > a.len() implies !disk.is_present(
                            b,
                        ) by {
                            if b != p {
                                assert(syntax::is_ancestor(b, q));
                            }
                        }
                    },
                    None => {
                        assert forall|b: Seq<u8>| #[trigger]
                            syntax::is_ancestor(b, p) implies !disk.is_present(b) by {
                            if b != p {
                                assert(syntax::is_ancestor(b, q));
                            }
                        }
                    },
                }
            },
            None => {},
        }
    } else {
        assert forall|b: Seq<u8>| #[trigger]
            syntax::is_ancestor(b, p) && b.len() > p.len() implies !disk.is_present(b) by {
            syntax::lemma_ancestor_is_prefix(b, p);
        }
    }
}

/// From any position, the steps answered from a disk come to the judgement
/// on the existing ancestor of the path asked about.
proof fn lemma_run_from(at: Position, disk: Disk)
    ensures
        run(at, disk) == match existing_ancestor(at.current, disk) {
            None => Err(RejectionView::IoFailure { detail: no_ancestor_detail() }),
            Some(a) => judge(at.root, at.target, a, disk.canonicalize(a)),
        },
    decreases at.current.len(),
{
    if !disk.is_present(at.current) {
        match syntax::parent(at.current) {
            Some(q) => {
                syntax::lemma_parent(at.current);
                lemma_run_from(Position { current: q, ..at }, disk);
            },
            None => {},
        }
    }
}

/// The steps of the guard, with every question answered from a disk, come
/// to the verdict on that disk.
pub proof fn lemma_run_is_verdict(root: Seq<u8>, candidate: Seq<u8>, disk: Disk)
    ensures
        run(start(root, candidate), disk) == verdict(root, candidate, disk),
{
    lemma_run_from(start(root, candidate), disk);
}

/// An approved path is the candidate resolved against the root, as written.
/// It is absolute, and it lies within the root: its longest ancestor that
/// exists has a canonical form that starts with the root, and what the path
/// adds to that ancestor names no `..`. On a disk whose answers agree, the
/// place where it lies is the root directory followed by normal names only,
/// and begins with the components of the root.
pub proof fn lemma_approved_lies_within_root(root: Seq<u8>, candidate: Seq<u8>, disk: Disk)
    requires
        syntax::is_canonical(root),
        verdict(root, candidate, disk) is Ok,
    ensures
        verdict(root, candidate, disk) == Ok::<Seq<u8>, RejectionView>(
            syntax::join(root, candidate),
        ),
        syntax::is_absolute(syntax::join(root, candidate)),
        existing_ancestor(syntax::join(root, candidate), disk) matches Some(a) && {
            &&& disk.canonicalize(a) matches Ok(c) && syntax::starts_with(c, root)
            &&& !syntax::suffix(syntax::join(root, candidate), a).contains(ComponentView::ParentDir)
        },
        location(syntax::join(root, candidate), disk) matches Some(place) && {
            &&& syntax::components(root).is_prefix_of(place)
            &&& disk.wf() ==> {
                &&& place[0] == ComponentView::RootDir
                &&& forall|i: int| 1 <= i < place.len() ==> #[trigger] place[i] is Normal
            }
        },
{
    let target = syntax::join(root, candidate);
    let a = existing_ancestor(target, disk).unwrap();
    let c = disk.canonicalize(a)->Ok_0;
    let place = syntax::components(c) + syntax::suffix(target, a);
    assert(syntax::is_absolute(target));
    assert(syntax::components(root).is_prefix_of(place));
    if disk.wf() {
        // the ancestor is absolute, so what the path adds to it are names of
        // its body; none of them is `..`, and the canonical form has none
        lemma_existing_ancestor(target, disk);
        syntax::lemma_ancestor_is_prefix(a, target);
        syntax::lemma_canonical(c);
        syntax::lemma_body_components_are_names(syntax::body(target));
        let n = syntax::components(a).len() as int;
        let m = syntax::components(c).len() as int;
        assert forall|i: int| 1 <= i < place.len() implies #[trigger] place[i] is Normal by {
            if i >= m {
                assert(syntax::components(target)[n + i - m] == syntax::body_components(
                    syntax::body(target),
                )[n + i - m - 1]);
            }
        }
    }
}

/// A candidate whose resolved path has a canonical form within the root is
/// approved, as it was written.
pub proof fn lemma_inside_root_is_approved(root: Seq<u8>, candidate: Seq<u8>, disk: Disk)
    requires
        disk.wf(),
        disk.canonicalize(syntax::join(root, candidate)) matches Ok(c) && syntax::starts_with(
            c,
            root,
        ),
    ensures
        verdict(root, candidate, disk) == Ok::<Seq<u8>, RejectionView>(
            syntax::join(root, candidate),
        ),
{
}

/// An absolute candidate is judged as it stands, whatever the root. Where it
/// lies outside the root, it is rejected as a boundary violation, whether it
/// exists or not.
pub proof fn lemma_outside_root_is_rejected(root: Seq<u8>, candidate: Seq<u8>, disk: Disk)
    requires
        syntax::is_absolute(candidate),
        location(candidate, disk) matches Some(place) && !syntax::components(root).is_prefix_of(
            place,
        ),
    ensures
        syntax::join(root, candidate) == candidate,
        verdict(root, candidate, disk) == Err::<Seq<u8>, RejectionView>(
            RejectionView::BoundaryViolation,
        ),
{
}

/// A candidate that names `..` in what it adds to its existing ancestor is
/// never approved. Where that ancestor lies within the root, the rejection
/// is for the traversal.
pub proof fn lemma_parent_dir_in_suffix_is_rejected(
    root: Seq<u8>,
    candidate: Seq<u8>,
    disk: Disk,
)
    requires
        existing_ancestor(syntax::join(root, candidate), disk) matches Some(a) && syntax::suffix(
            syntax::join(root, candidate),
            a,
        ).contains(ComponentView::ParentDir),
    ensures
        verdict(root, candidate, disk) is Err,
        existing_ancestor(syntax::join(root, candidate), disk) matches Some(a) && (
        disk.canonicalize(a) matches Ok(c) && syntax::starts_with(c, root)) ==> verdict(
            root,
            candidate,
            disk,
        ) == Err::<Seq<u8>, RejectionView>(RejectionView::TraversalInSuffix),
{
}

/// The empty candidate and the candidate `.` resolve to the root and are
/// approved, on a disk that has the root.
pub proof fn lemma_root_itself_is_approved(root: Seq<u8>, disk: Disk)
    requires
        syntax::is_canonical(root),
        disk.has_directory(root),
    ensures
        verdict(root, Seq::empty(), disk) == Ok::<Seq<u8>, RejectionView>(
            syntax::join(root, Seq::empty()),
        ),
        syntax::components(syntax::join(root, Seq::empty())) == syntax::components(root),
        verdict(root, seq![DOT], disk) == Ok::<Seq<u8>, RejectionView>(
            syntax::join(root, seq![DOT]),
        ),
        syntax::components(syntax::join(root, seq![DOT])) == syntax::components(root),
{
    let dot = seq![DOT];
    syntax::lemma_join_components(root, Seq::empty());
    syntax::lemma_join_components(root, dot);
    assert(syntax::body_components(dot) =~= Seq::<ComponentView>::empty()) by {
        syntax::lemma_body_components_of_name(dot);
    }
    assert(syntax::components(root).is_prefix_of(syntax::components(root)));
}

/// Plain names, joined and taken as the candidate, resolve to the root
/// followed by those names, and name no `..`: the candidate is approved
/// wherever its longest existing ancestor lies within the root.
pub proof fn lemma_joined_names_are_approved(root: Seq<u8>, names: Seq<Seq<u8>>, disk: Disk)
    requires
        syntax::is_canonical(root),
        forall|i: int| 0 <= i < names.len() ==> syntax::is_plain_name(#[trigger] names[i]),
        existing_ancestor(syntax::join(root, syntax::join_all(names)), disk) matches Some(a) && (
        disk.canonicalize(a) matches Ok(c) && syntax::starts_with(c, root)),
    ensures
        verdict(root, syntax::join_all(names), disk) == Ok::<Seq<u8>, RejectionView>(
            syntax::join(root, syntax::join_all(names)),
        ),
        syntax::components(syntax::join(root, syntax::join_all(names))) == syntax::components(root)
            + syntax::normal_components(names),
        names.len() > 0 && root.len() > 1 ==> syntax::join(root, syntax::join_all(names)) == root
            + seq![syntax::SEPARATOR] + syntax::join_all(names),
{
    let joined = syntax::join_all(names);
    let target = syntax::join(root, joined);
    syntax::lemma_join_all_plain_names(names);
    syntax::lemma_join_components(root, joined);
    syntax::lemma_canonical(root);
    // no component of the resolved path is `..`, so none that it adds to
    // its ancestor is
    let a = existing_ancestor(target, disk).unwrap();
    assert(!syntax::components(target).contains(ComponentView::ParentDir));
    assert(!syntax::suffix(target, a).contains(ComponentView::ParentDir));
}

/// An absolute path has an existing ancestor on every disk that has the
/// root directory.
pub proof fn lemma_absolute_path_has_existing_ancestor(p: Seq<u8>, disk: Disk)
    requires
        syntax::is_absolute(p),
        disk.has_directory(seq![syntax::SEPARATOR]),
    ensures
        existing_ancestor(p, disk) is Some,
    decreases p.len(),
{
    if !disk.is_present(p) {
        syntax::lemma_parent(p);
        match syntax::parent(p) {
            Some(q) => {
                lemma_absolute_path_has_existing_ancestor(q, disk);
            },
            None => {
                // `p` is a spelling of the root directory
                assert(syntax::body_components(Seq::<u8>::empty()) =~= Seq::<
                    ComponentView,
                >::empty());
            },
        }
    }
}

} // verus!
