//! The syntax of paths: how a byte string divides into components.
//!
//! Paths are byte strings in POSIX syntax. `/` separates names; a path that
//! begins with `/` is absolute. Empty names and the name `.` stand for nothing,
//! except a `.` at the very start of a relative path.

use vstd::prelude::*;

verus! {

/// The byte that separates the names of a path.
pub const SEPARATOR: u8 = 0x2f;

/// The byte of which the names `.` and `..` are made.
pub const DOT: u8 = 0x2e;

/// A component of a path, as a mathematical value.
pub enum ComponentView {
    /// The leading `/` of an absolute path.
    RootDir,
    /// A leading `.` of a relative path.
    CurDir,
    /// The name `..`.
    ParentDir,
    /// Any other name.
    Normal(Seq<u8>),
}

/// A path is absolute when it begins with the separator.
pub open spec fn is_absolute(p: Seq<u8>) -> bool {
    p.len() > 0 && p[0] == SEPARATOR
}

/// A relative path leads with the current directory when it is `.` or begins
/// with `./`.
pub open spec fn has_cur_dir_lead(p: Seq<u8>) -> bool {
    &&& p.len() > 0
    &&& p[0] == DOT
    &&& (p.len() == 1 || p[1] == SEPARATOR)
}

/// The number of bytes that the leading component takes: one for the root or
/// for a leading `.`, none otherwise.
pub open spec fn lead_len(p: Seq<u8>) -> int {
    if is_absolute(p) || has_cur_dir_lead(p) {
        1
    } else {
        0
    }
}

/// The leading component of a path, if it has one.
pub open spec fn lead(p: Seq<u8>) -> Seq<ComponentView> {
    if is_absolute(p) {
        seq![ComponentView::RootDir]
    } else if has_cur_dir_lead(p) {
        seq![ComponentView::CurDir]
    } else {
        Seq::empty()
    }
}

/// What follows the leading component.
pub open spec fn body(p: Seq<u8>) -> Seq<u8> {
    p.skip(lead_len(p))
}

/// The index of the last separator in `s`, or -1 where it has none.
pub open spec fn last_separator(s: Seq<u8>) -> int
    decreases s.len(),
{
    if s.len() == 0 {
        -1
    } else if s.last() == SEPARATOR {
        s.len() - 1
    } else {
        last_separator(s.drop_last())
    }
}

/// The name after the last separator of `s` (all of `s` where it has none).
pub open spec fn last_name(s: Seq<u8>) -> Seq<u8> {
    s.skip(last_separator(s) + 1)
}

/// What stands before the last separator of `s` (nothing where it has none).
pub open spec fn before_last_name(s: Seq<u8>) -> Seq<u8> {
    if last_separator(s) < 0 {
        Seq::empty()
    } else {
        s.take(last_separator(s))
    }
}

/// The name `.`.
pub open spec fn is_dot(name: Seq<u8>) -> bool {
    name.len() == 1 && name[0] == DOT
}

/// The name `..`.
pub open spec fn is_dot_dot(name: Seq<u8>) -> bool {
    name.len() == 2 && name[0] == DOT && name[1] == DOT
}

/// The component that a name inside a path stands for: none for the empty
/// name and for `.`.
pub open spec fn name_component(name: Seq<u8>) -> Option<ComponentView> {
    if name.len() == 0 || is_dot(name) {
        None
    } else if is_dot_dot(name) {
        Some(ComponentView::ParentDir)
    } else {
        Some(ComponentView::Normal(name))
    }
}

/// A name that stands for itself: not empty, not `.`, not `..`, and without
/// a separator.
pub open spec fn is_plain_name(name: Seq<u8>) -> bool {
    &&& name.len() > 0
    &&& !is_dot(name)
    &&& !is_dot_dot(name)
    &&& separator_free(name)
}

/// `name_component` as a sequence of no or one component.
pub open spec fn name_components(name: Seq<u8>) -> Seq<ComponentView> {
    match name_component(name) {
        Some(c) => seq![c],
        None => Seq::empty(),
    }
}

/// The components of a path body: the names between its separators, in order,
/// without the empty ones and the `.` ones.
pub open spec fn body_components(s: Seq<u8>) -> Seq<ComponentView>
    decreases s.len(),
{
    if s.len() == 0 {
        Seq::empty()
    } else {
        proof {
            lemma_last_separator_bounds(s);
        }
        body_components(before_last_name(s)) + name_components(last_name(s))
    }
}

/// The components of a path.
pub open spec fn components(p: Seq<u8>) -> Seq<ComponentView> {
    lead(p) + body_components(body(p))
}

/// `s` holds no separator.
pub open spec fn separator_free(s: Seq<u8>) -> bool {
    forall|i: int| 0 <= i < s.len() ==> s[i] != SEPARATOR
}

/// Where the last separator is: inside `s`, on a separator, with none after it.
pub proof fn lemma_last_separator_bounds(s: Seq<u8>)
    ensures
        -1 <= last_separator(s) < s.len(),
        last_separator(s) >= 0 ==> s[last_separator(s)] == SEPARATOR,
        forall|i: int| last_separator(s) < i < s.len() ==> s[i] != SEPARATOR,
    decreases s.len(),
{
    if s.len() > 0 && s.last() != SEPARATOR {
        let t = s.drop_last();
        lemma_last_separator_bounds(t);
        assert forall|i: int| last_separator(s) < i < s.len() implies s[i] != SEPARATOR by {
            if i < t.len() {
                assert(t[i] == s[i]);
            }
        }
    }
}

/// The last separator is the only index that is on a separator with none
/// after it.
pub proof fn lemma_last_separator_is(s: Seq<u8>, k: int)
    requires
        -1 <= k < s.len(),
        k >= 0 ==> s[k] == SEPARATOR,
        forall|i: int| k < i < s.len() ==> s[i] != SEPARATOR,
    ensures
        last_separator(s) == k,
{
    lemma_last_separator_bounds(s);
}

/// A body without a separator is a single name.
pub proof fn lemma_body_components_of_name(name: Seq<u8>)
    requires
        separator_free(name),
    ensures
        body_components(name) == name_components(name),
{
    if name.len() > 0 {
        lemma_last_separator_is(name, -1);
        assert(last_name(name) =~= name);
        assert(body_components(Seq::<u8>::empty()) =~= Seq::<ComponentView>::empty());
    }
}

/// A separator between two bodies keeps their components apart: those of the
/// whole are those of the first followed by those of the second.
pub proof fn lemma_body_components_concat(x: Seq<u8>, y: Seq<u8>)
    ensures
        body_components(x + seq![SEPARATOR] + y) == body_components(x) + body_components(y),
    decreases y.len(),
{
    let s = x + seq![SEPARATOR] + y;
    lemma_last_separator_bounds(y);
    let ky = last_separator(y);
    if ky < 0 {
        lemma_last_separator_is(s, x.len() as int);
        assert(last_name(s) =~= y);
        assert(before_last_name(s) =~= x);
        lemma_body_components_of_name(y);
    } else {
        lemma_last_separator_is(s, x.len() + 1 + ky);
        assert(last_name(s) =~= last_name(y));
        assert(before_last_name(s) =~= x + seq![SEPARATOR] + before_last_name(y));
        lemma_body_components_concat(x, before_last_name(y));
    }
}

/// A separator at the end of a body adds no component.
pub proof fn lemma_body_components_trailing_separator(x: Seq<u8>)
    ensures
        body_components(x.push(SEPARATOR)) == body_components(x),
{
    lemma_body_components_concat(x, Seq::empty());
    assert(x + seq![SEPARATOR] + Seq::<u8>::empty() =~= x.push(SEPARATOR));
}

/// A name appended to a body that is empty or ends in a separator adds its
/// component, if it has one.
pub proof fn lemma_body_components_append_name(x: Seq<u8>, name: Seq<u8>)
    requires
        x.len() == 0 || x.last() == SEPARATOR,
        separator_free(name),
    ensures
        body_components(x + name) == body_components(x) + name_components(name),
{
    lemma_body_components_of_name(name);
    if x.len() > 0 {
        let w = x.drop_last();
        assert(x + name =~= w + seq![SEPARATOR] + name);
        lemma_body_components_concat(w, name);
        lemma_body_components_trailing_separator(w);
    }
}

/// The components of a body are names: `..`, or a name that is not empty,
/// not `.`, not `..`, and holds no separator.
pub proof fn lemma_body_components_are_names(s: Seq<u8>)
    ensures
        forall|i: int|
            0 <= i < body_components(s).len() ==> match #[trigger] body_components(s)[i] {
                ComponentView::ParentDir => true,
                ComponentView::Normal(name) => is_plain_name(name),
                _ => false,
            },
    decreases s.len(),
{
    if s.len() > 0 {
        lemma_last_separator_bounds(s);
        lemma_body_components_are_names(before_last_name(s));
    }
}

/// `s` without the empty names and `.` names at its end and the separators
/// before them: what is left is empty or ends in a name that is a component.
pub open spec fn trim(s: Seq<u8>) -> Seq<u8>
    decreases s.len(),
{
    if s.len() > 0 && name_component(last_name(s)) is None {
        proof {
            lemma_last_separator_bounds(s);
        }
        trim(before_last_name(s))
    } else {
        s
    }
}

/// The body of the parent of a path with body `s`: `s` without its last
/// component. None where `s` has no component.
pub open spec fn parent_body(s: Seq<u8>) -> Option<Seq<u8>> {
    let t = trim(s);
    if t.len() == 0 {
        None
    } else {
        Some(trim(before_last_name(t)))
    }
}

/// The parent of a path: the path without its last component, as a prefix
/// of its text. The root and the empty path have none.
pub open spec fn parent(p: Seq<u8>) -> Option<Seq<u8>> {
    match parent_body(body(p)) {
        Some(q) => Some(p.take(lead_len(p)) + q),
        None => if has_cur_dir_lead(p) {
            Some(Seq::empty())
        } else {
            None
        },
    }
}

/// What `trim` leaves: a prefix of `s` with the same components, which is
/// empty or ends in a name that is a component.
pub proof fn lemma_trim(s: Seq<u8>)
    ensures
        trim(s).len() <= s.len(),
        trim(s) == s.take(trim(s).len() as int),
        body_components(trim(s)) == body_components(s),
        trim(s).len() > 0 ==> name_component(last_name(trim(s))) is Some,
        trim(s).len() == 0 <==> body_components(s).len() == 0,
    decreases s.len(),
{
    lemma_last_separator_bounds(s);
    if s.len() > 0 && name_component(last_name(s)) is None {
        lemma_trim(before_last_name(s));
    }
}

/// The parent's body is a shorter prefix of the body, and holds its
/// components but the last.
pub proof fn lemma_parent_body(s: Seq<u8>)
    ensures
        parent_body(s) is None <==> body_components(s).len() == 0,
        parent_body(s) matches Some(q) ==> {
            &&& q.len() < s.len()
            &&& q == s.take(q.len() as int)
            &&& body_components(q) == body_components(s).drop_last()
            &&& (q.len() > 0 ==> name_component(last_name(q)) is Some)
        },
{
    lemma_trim(s);
    let t = trim(s);
    if t.len() > 0 {
        lemma_last_separator_bounds(t);
        lemma_trim(before_last_name(t));
    }
}

/// The parent of a path is a shorter prefix of its text and holds its
/// components but the last; only a path without components, and the root,
/// have no parent.
pub proof fn lemma_parent(p: Seq<u8>)
    ensures
        parent(p) is None <==> (components(p).len() == 0 || components(p) == seq![
            ComponentView::RootDir,
        ]),
        parent(p) matches Some(q) ==> {
            &&& q.len() < p.len()
            &&& q == p.take(q.len() as int)
            &&& components(q) == components(p).drop_last()
            &&& is_absolute(q) == is_absolute(p)
        },
{
    let s = body(p);
    lemma_parent_body(s);
    lemma_body_components_are_names(s);
    match parent_body(s) {
        Some(qb) => {
            let q = p.take(lead_len(p)) + qb;
            // the body has a component, so the root is not all there is
            assert(components(p) != seq![ComponentView::RootDir]) by {
                if has_cur_dir_lead(p) {
                    assert(components(p)[0] == ComponentView::CurDir);
                }
            }
            // the parent leads as the path does: where the parent is a
            // single byte, that byte ends in a component, so it is not `.`
            assert(lead_len(q) == lead_len(p)) by {
                if qb.len() > 0 {
                    lemma_last_separator_bounds(qb);
                }
            }
            assert(body(q) =~= qb);
        },
        None => {},
    }
}

/// `path` taken from `base`: `path` itself where it is absolute, else `base`
/// followed by `path`, with a separator between them unless `base` is empty
/// or already ends in one.
pub open spec fn join(base: Seq<u8>, path: Seq<u8>) -> Seq<u8> {
    if is_absolute(path) {
        path
    } else if base.len() > 0 && base.last() != SEPARATOR {
        base + seq![SEPARATOR] + path
    } else {
        base + path
    }
}

/// The parts joined one after the other, from the empty path.
pub open spec fn join_all(parts: Seq<Seq<u8>>) -> Seq<u8>
    decreases parts.len(),
{
    if parts.len() == 0 {
        Seq::empty()
    } else {
        join(join_all(parts.drop_last()), parts.last())
    }
}

/// `p` starts with `base`: the components of `base` are the first components
/// of `p`.
pub open spec fn starts_with(p: Seq<u8>, base: Seq<u8>) -> bool {
    components(base).is_prefix_of(components(p))
}

/// Joining a relative path to a base that is not empty appends the names of
/// the path to the components of the base.
pub proof fn lemma_join_components(base: Seq<u8>, path: Seq<u8>)
    requires
        base.len() > 0,
        !is_absolute(path),
    ensures
        components(join(base, path)) == components(base) + body_components(path),
{
    let j = join(base, path);
    let bb = body(base);
    assert(lead_len(j) == lead_len(base) && lead(j) == lead(base));
    if base.last() != SEPARATOR {
        assert(body(j) =~= bb + seq![SEPARATOR] + path);
        lemma_body_components_concat(bb, path);
    } else if bb.len() == 0 {
        assert(body(j) =~= path);
    } else {
        let w = bb.drop_last();
        assert(body(j) =~= w + seq![SEPARATOR] + path);
        lemma_body_components_concat(w, path);
        lemma_body_components_trailing_separator(w);
    }
}

/// The components that a sequence of plain names stands for.
pub open spec fn normal_components(names: Seq<Seq<u8>>) -> Seq<ComponentView> {
    Seq::new(names.len(), |i: int| ComponentView::Normal(names[i]))
}

/// Plain names joined make a relative path whose components are those names.
pub proof fn lemma_join_all_plain_names(names: Seq<Seq<u8>>)
    requires
        forall|i: int| 0 <= i < names.len() ==> is_plain_name(#[trigger] names[i]),
    ensures
        !is_absolute(join_all(names)),
        join_all(names).len() > 0 ==> join_all(names).last() != SEPARATOR,
        names.len() > 0 ==> join_all(names).len() > 0,
        body_components(join_all(names)) == normal_components(names),
    decreases names.len(),
{
    if names.len() > 0 {
        let front = names.drop_last();
        let name = names.last();
        lemma_join_all_plain_names(front);
        lemma_body_components_of_name(name);
        if join_all(front).len() > 0 {
            lemma_body_components_concat(join_all(front), name);
        }
    }
}

/// `s` is one or more plain names with single separators between them.
pub open spec fn plain_names(s: Seq<u8>) -> bool
    decreases s.len(),
{
    &&& s.len() > 0
    &&& is_plain_name(last_name(s))
    &&& last_separator(s) >= 0 ==> {
        proof {
            lemma_last_separator_bounds(s);
        }
        plain_names(before_last_name(s))
    }
}

/// The form that a canonical path has: the root alone, or the root followed
/// by plain names with single separators between them. Such a path names no
/// `.` or `..` and ends in no separator, so its text and its components
/// determine each other.
pub open spec fn is_canonical(p: Seq<u8>) -> bool {
    &&& is_absolute(p)
    &&& p.len() > 1 ==> plain_names(p.skip(1))
}

/// The components of plain names are all normal.
pub proof fn lemma_plain_names_components(s: Seq<u8>)
    requires
        plain_names(s),
    ensures
        s.last() != SEPARATOR,
        body_components(s).len() > 0,
        forall|i: int|
            0 <= i < body_components(s).len() ==> #[trigger] body_components(s)[i]
                is Normal,
    decreases s.len(),
{
    lemma_last_separator_bounds(s);
    if last_separator(s) >= 0 {
        lemma_plain_names_components(before_last_name(s));
    } else {
        assert(body_components(Seq::<u8>::empty()) =~= Seq::<ComponentView>::empty());
    }
}

/// A canonical path is the root followed by normal components, and its text
/// ends in a separator only where it is the root itself.
pub proof fn lemma_canonical(p: Seq<u8>)
    requires
        is_canonical(p),
    ensures
        components(p).len() > 0,
        components(p)[0] == ComponentView::RootDir,
        forall|i: int| 1 <= i < components(p).len() ==> #[trigger] components(p)[i] is Normal,
        !components(p).contains(ComponentView::ParentDir),
        p.len() > 1 ==> p.last() != SEPARATOR,
{
    if p.len() > 1 {
        lemma_plain_names_components(p.skip(1));
    }
    assert forall|i: int| 1 <= i < components(p).len() implies #[trigger] components(p)[i]
        is Normal by {
        assert(components(p)[i] == body_components(body(p))[i - 1]);
    }
}

/// `a` is `p` itself or is reached from `p` by taking the parent, once or
/// several times.
pub open spec fn is_ancestor(a: Seq<u8>, p: Seq<u8>) -> bool
    decreases p.len(),
{
    a == p || match parent(p) {
        Some(q) => {
            proof {
                lemma_parent(p);
            }
            is_ancestor(a, q)
        },
        None => false,
    }
}

/// The components of `p` behind its first `n`, where `n` is the number of
/// components of `ancestor`: what `p` adds to its ancestor.
pub open spec fn suffix(p: Seq<u8>, ancestor: Seq<u8>) -> Seq<ComponentView> {
    if components(ancestor).len() <= components(p).len() {
        components(p).skip(components(ancestor).len() as int)
    } else {
        Seq::empty()
    }
}

/// The parent of an ancestor is an ancestor.
pub proof fn lemma_ancestor_parent(a: Seq<u8>, p: Seq<u8>)
    requires
        is_ancestor(a, p),
        parent(a) is Some,
    ensures
        is_ancestor(parent(a).unwrap(), p),
    decreases p.len(),
{
    let q = parent(a).unwrap();
    lemma_parent(p);
    if a == p {
        assert(is_ancestor(q, q));
    } else {
        lemma_ancestor_parent(a, parent(p).unwrap());
    }
}

/// An ancestor is a prefix of the path, in its text and in its components,
/// and is absolute where the path is.
pub proof fn lemma_ancestor_is_prefix(a: Seq<u8>, p: Seq<u8>)
    requires
        is_ancestor(a, p),
    ensures
        a.len() <= p.len(),
        a == p.take(a.len() as int),
        components(a).is_prefix_of(components(p)),
        components(a) + suffix(p, a) == components(p),
        is_absolute(a) == is_absolute(p),
    decreases p.len(),
{
    if a != p {
        lemma_parent(p);
        lemma_ancestor_is_prefix(a, parent(p).unwrap());
    }
}

} // verus!
