//! The guard: from a root and an untrusted path to an approved path or a
//! rejection.
//!
//! The guard cannot look at the disk. It is written as steps that its caller
//! drives: a [`Walk`] names a path and asks whether it exists; an [`Anchor`]
//! names the existing ancestor that the walk found and asks for its canonical
//! form. The caller answers each question from the file system. What the
//! steps compute together is `verdict`, stated over a [`Disk`] that holds the
//! answers.

use crate::path;
use crate::syntax;
use crate::syntax::ComponentView;
use vstd::prelude::*;
use vstd::slice::slice_to_vec;

verus! {

/// Why a path was rejected.
#[derive(Debug, PartialEq, Eq)]
pub enum Rejection {
    /// The part of the path that exists lies outside the root.
    BoundaryViolation,
    /// The part of the path that does not exist names `..`.
    TraversalInSuffix,
    /// The file system could not say where the path lies.
    IoFailure { detail: String },
}

/// A rejection, as a mathematical value.
pub enum RejectionView {
    BoundaryViolation,
    TraversalInSuffix,
    IoFailure { detail: Seq<char> },
}

impl View for Rejection {
    type V = RejectionView;

    open spec fn view(&self) -> RejectionView {
        match self {
            Rejection::BoundaryViolation => RejectionView::BoundaryViolation,
            Rejection::TraversalInSuffix => RejectionView::TraversalInSuffix,
            Rejection::IoFailure { detail } => RejectionView::IoFailure { detail: detail@ },
        }
    }
}

impl RejectionView {
    /// The rejection in words.
    pub open spec fn message(self) -> Seq<char> {
        match self {
            RejectionView::BoundaryViolation => "Access denied: Path is outside working directory"@,
            RejectionView::TraversalInSuffix => "Access denied: Path contains '..' in non-existing portion"@,
            RejectionView::IoFailure { detail } => "Invalid path: "@ + detail,
        }
    }
}

impl Rejection {
    /// The rejection in words, for a caller that passes text on.
    pub fn message(&self) -> (m: String)
        ensures
            m@ == self@.message(),
    {
        match self {
            Rejection::BoundaryViolation => String::from_str(
                "Access denied: Path is outside working directory",
            ),
            Rejection::TraversalInSuffix => String::from_str(
                "Access denied: Path contains '..' in non-existing portion",
            ),
            Rejection::IoFailure { detail } => {
                let mut m = String::from_str("Invalid path: ");
                m.append(detail.as_str());
                m
            },
        }
    }
}

/// The detail of the rejection of a path of which no part exists, not even
/// the last of its ancestors.
pub open spec fn no_ancestor_detail() -> Seq<char> {
    "no part of the path exists"@
}

/// What the file system answers: which paths exist, and the canonical form of
/// a path or the words of the error that kept it from being found.
pub struct Disk {
    pub present: spec_fn(Seq<u8>) -> bool,
    pub resolved: spec_fn(Seq<u8>) -> Result<Seq<u8>, Seq<char>>,
}

impl Disk {
    /// Whether `p` exists.
    pub open spec fn is_present(self, p: Seq<u8>) -> bool {
        (self.present)(p)
    }

    /// The canonical form of `p`, or why there is none.
    pub open spec fn canonicalize(self, p: Seq<u8>) -> Result<Seq<u8>, Seq<char>> {
        (self.resolved)(p)
    }

    /// The answers agree with each other: only a path that exists has a
    /// canonical form, and that form is a canonical path.
    pub open spec fn wf(self) -> bool {
        forall|p: Seq<u8>|
            #![trigger self.canonicalize(p)]
            self.canonicalize(p) matches Ok(c) ==> self.is_present(p) && syntax::is_canonical(c)
    }

    /// `dir` is a directory of this disk in canonical form: however it is
    /// spelled, it exists and `dir` is its canonical form.
    pub open spec fn has_directory(self, dir: Seq<u8>) -> bool {
        forall|p: Seq<u8>|
            #![trigger syntax::components(p)]
            syntax::components(p) == syntax::components(dir) ==> self.is_present(p)
                && self.canonicalize(p) == Ok::<Seq<u8>, Seq<char>>(dir)
    }
}

/// The longest ancestor of `p` that exists: `p` itself, or else the nearest
/// of its parents that does.
pub open spec fn existing_ancestor(p: Seq<u8>, disk: Disk) -> Option<Seq<u8>>
    decreases p.len(),
{
    if disk.is_present(p) {
        Some(p)
    } else {
        match syntax::parent(p) {
            Some(q) => {
                proof {
                    syntax::lemma_parent(p);
                }
                existing_ancestor(q, disk)
            },
            None => None,
        }
    }
}

/// Where `target` lies: the canonical place of its longest ancestor that
/// exists, followed by what `target` adds to that ancestor. None where no
/// ancestor exists or the ancestor cannot be canonicalized.
pub open spec fn location(target: Seq<u8>, disk: Disk) -> Option<Seq<ComponentView>> {
    match existing_ancestor(target, disk) {
        Some(a) => match disk.canonicalize(a) {
            Ok(c) => Some(syntax::components(c) + syntax::suffix(target, a)),
            Err(_) => None,
        },
        None => None,
    }
}

/// The judgement on `target`, given its existing ancestor and what came of
/// canonicalizing that ancestor.
pub open spec fn judge(
    root: Seq<u8>,
    target: Seq<u8>,
    ancestor: Seq<u8>,
    canonical: Result<Seq<u8>, Seq<char>>,
) -> Result<Seq<u8>, RejectionView> {
    match canonical {
        Err(detail) => Err(RejectionView::IoFailure { detail }),
        Ok(c) => if !syntax::starts_with(c, root) {
            Err(RejectionView::BoundaryViolation)
        } else if syntax::suffix(target, ancestor).contains(ComponentView::ParentDir) {
            Err(RejectionView::TraversalInSuffix)
        } else {
            Ok(target)
        },
    }
}

/// The guard's verdict on `candidate` under `root`, on a given disk.
///
/// The candidate is resolved against the root. The longest ancestor of the
/// resolved path that exists is canonicalized; it must start with the root.
/// What the resolved path adds to that ancestor must not name `..`. The
/// approved path is the resolved path as it was written.
pub open spec fn verdict(root: Seq<u8>, candidate: Seq<u8>, disk: Disk) -> Result<
    Seq<u8>,
    RejectionView,
> {
    let target = syntax::join(root, candidate);
    match existing_ancestor(target, disk) {
        None => Err(RejectionView::IoFailure { detail: no_ancestor_detail() }),
        Some(a) => judge(root, target, a, disk.canonicalize(a)),
    }
}

/// Where a guard stands: the root it keeps to, the path it judges, and the
/// ancestor of that path which it asks about.
pub struct Position {
    pub root: Seq<u8>,
    pub target: Seq<u8>,
    pub current: Seq<u8>,
}

impl Position {
    /// The root is canonical and the path asked about is an ancestor of the
    /// path that is judged.
    pub open spec fn wf(self) -> bool {
        &&& syntax::is_canonical(self.root)
        &&& syntax::is_ancestor(self.current, self.target)
    }
}

/// What a step of the walk leads to, as a mathematical value.
pub enum StepView {
    Probe(Position),
    Canonicalize(Position),
    Reject(RejectionView),
}

/// Where a guard begins: at the candidate resolved against the root.
pub open spec fn start(root: Seq<u8>, candidate: Seq<u8>) -> Position {
    Position {
        root,
        target: syntax::join(root, candidate),
        current: syntax::join(root, candidate),
    }
}

/// One step of the walk: a path that exists is the ancestor to canonicalize;
/// from one that does not the walk goes to its parent, and ends in a
/// rejection where there is none.
pub open spec fn walk_step(at: Position, present: bool) -> StepView {
    if present {
        StepView::Canonicalize(at)
    } else {
        match syntax::parent(at.current) {
            Some(q) => StepView::Probe(Position { current: q, ..at }),
            None => StepView::Reject(RejectionView::IoFailure { detail: no_ancestor_detail() }),
        }
    }
}

/// What the steps come to when every question is answered from `disk`.
pub open spec fn run(at: Position, disk: Disk) -> Result<Seq<u8>, RejectionView>
    decreases at.current.len(),
{
    match walk_step(at, disk.is_present(at.current)) {
        StepView::Probe(next) => {
            proof {
                syntax::lemma_parent(at.current);
            }
            run(next, disk)
        },
        StepView::Canonicalize(found) => judge(
            found.root,
            found.target,
            found.current,
            disk.canonicalize(found.current),
        ),
        StepView::Reject(r) => Err(r),
    }
}

/// The view of an answer to the question for a canonical form.
pub open spec fn answer_view(r: Result<Vec<u8>, String>) -> Result<Seq<u8>, Seq<char>> {
    match r {
        Ok(c) => Ok(c@),
        Err(e) => Err(e@),
    }
}

/// The view of a verdict.
pub open spec fn verdict_view(r: Result<Vec<u8>, Rejection>) -> Result<Seq<u8>, RejectionView> {
    match r {
        Ok(p) => Ok(p@),
        Err(e) => Err(e@),
    }
}

/// The directory that approved paths must stay within, in canonical form.
#[derive(Debug)]
pub struct Root {
    path: Vec<u8>,
}

impl View for Root {
    type V = Seq<u8>;

    closed spec fn view(&self) -> Seq<u8> {
        self.path@
    }
}

impl Root {
    #[verifier::type_invariant]
    spec fn canonical(self) -> bool {
        syntax::is_canonical(self.path@)
    }

    /// Takes `path` as the root, if it has the form of a canonical path.
    pub fn new(path: Vec<u8>) -> (r: Option<Root>)
        ensures
            r is Some <==> syntax::is_canonical(path@),
            r matches Some(root) ==> root@ == path@,
    {
        if path::is_canonical(path.as_slice()) {
            Some(Root { path })
        } else {
            None
        }
    }

    /// The text of the root.
    pub fn as_bytes(&self) -> (p: &[u8])
        ensures
            p@ == self@,
            syntax::is_canonical(self@),
    {
        proof {
            use_type_invariant(self);
        }
        self.path.as_slice()
    }
}

/// A guard that asks whether a path exists.
#[derive(Debug)]
pub struct Walk {
    root: Vec<u8>,
    target: Vec<u8>,
    current: Vec<u8>,
}

/// A guard that has found the existing ancestor and asks for its canonical
/// form.
#[derive(Debug)]
pub struct Anchor {
    root: Vec<u8>,
    target: Vec<u8>,
    current: Vec<u8>,
}

/// What a step of the walk leads to: the next question, or a rejection.
#[derive(Debug)]
pub enum Step {
    /// Does the path of this walk exist?
    Probe(Walk),
    /// What is the canonical form of the path of this anchor?
    Canonicalize(Anchor),
    /// No ancestor of the path exists.
    Reject(Rejection),
}

impl View for Walk {
    type V = Position;

    closed spec fn view(&self) -> Position {
        Position { root: self.root@, target: self.target@, current: self.current@ }
    }
}

impl View for Anchor {
    type V = Position;

    closed spec fn view(&self) -> Position {
        Position { root: self.root@, target: self.target@, current: self.current@ }
    }
}

impl View for Step {
    type V = StepView;

    open spec fn view(&self) -> StepView {
        match self {
            Step::Probe(w) => StepView::Probe(w@),
            Step::Canonicalize(a) => StepView::Canonicalize(a@),
            Step::Reject(r) => StepView::Reject(r@),
        }
    }
}

impl Walk {
    #[verifier::type_invariant]
    spec fn inv(self) -> bool {
        self@.wf()
    }

    /// Begins to judge `candidate` under `root`: the first path to ask about
    /// is the candidate itself, resolved against the root.
    pub fn begin(root: &Root, candidate: &[u8]) -> (w: Walk)
        ensures
            w@ == start(root@, candidate@),
            w@.wf(),
    {
        let base = root.as_bytes();
        let target = path::join(base, candidate);
        let current = slice_to_vec(target.as_slice());
        Walk { root: slice_to_vec(base), target, current }
    }

    /// The path to ask about: does it exist?
    pub fn path(&self) -> (p: &[u8])
        ensures
            p@ == self@.current,
            self@.wf(),
    {
        proof {
            use_type_invariant(self);
        }
        self.current.as_slice()
    }

    /// Goes on with the answer: `present` says whether `self.path()` exists.
    /// The next path to ask about, if there is one, is shorter, so the walk
    /// ends.
    pub fn answer(self, present: bool) -> (s: Step)
        ensures
            s@ == walk_step(self@, present),
            s matches Step::Probe(w) ==> w@.wf() && w@.current.len() < self@.current.len(),
            s matches Step::Canonicalize(a) ==> a@.wf(),
    {
        proof {
            use_type_invariant(&self);
            syntax::lemma_parent(self.current@);
        }
        if present {
            return Step::Canonicalize(
                Anchor { root: self.root, target: self.target, current: self.current },
            );
        }
        match path::parent(self.current.as_slice()) {
            Some(q) => {
                proof {
                    syntax::lemma_ancestor_parent(self.current@, self.target@);
                }
                Step::Probe(Walk { root: self.root, target: self.target, current: q })
            },
            None => Step::Reject(
                Rejection::IoFailure { detail: String::from_str("no part of the path exists") },
            ),
        }
    }
}

impl Anchor {
    #[verifier::type_invariant]
    spec fn inv(self) -> bool {
        self@.wf()
    }

    /// The existing ancestor to canonicalize.
    pub fn path(&self) -> (p: &[u8])
        ensures
            p@ == self@.current,
            self@.wf(),
    {
        proof {
            use_type_invariant(self);
        }
        self.current.as_slice()
    }

    /// Ends with the answer: `canonical` is the canonical form of
    /// `self.path()`, or the words of the error that kept it from being found.
    pub fn answer(self, canonical: Result<Vec<u8>, String>) -> (r: Result<Vec<u8>, Rejection>)
        ensures
            verdict_view(r) == judge(
                self@.root,
                self@.target,
                self@.current,
                answer_view(canonical),
            ),
    {
        match canonical {
            Err(detail) => Err(Rejection::IoFailure { detail }),
            Ok(c) => {
                if !path::starts_with(c.as_slice(), self.root.as_slice()) {
                    Err(Rejection::BoundaryViolation)
                } else if path::suffix_climbs(self.target.as_slice(), self.current.as_slice()) {
                    Err(Rejection::TraversalInSuffix)
                } else {
                    Ok(self.target)
                }
            },
        }
    }
}

} // verus!
