//! Operations on paths, each held to the syntax of paths.

use crate::syntax;
use crate::syntax::ComponentView;
use crate::syntax::DOT;
use crate::syntax::SEPARATOR;
use vstd::prelude::*;
use vstd::slice::slice_subrange;
use vstd::slice::slice_to_vec;

verus! {

/// A component of a path.
#[derive(Debug, PartialEq, Eq)]
pub enum Component {
    /// The leading `/` of an absolute path.
    RootDir,
    /// A leading `.` of a relative path.
    CurDir,
    /// The name `..`.
    ParentDir,
    /// Any other name.
    Normal(Vec<u8>),
}

impl View for Component {
    type V = ComponentView;

    open spec fn view(&self) -> ComponentView {
        match self {
            Component::RootDir => ComponentView::RootDir,
            Component::CurDir => ComponentView::CurDir,
            Component::ParentDir => ComponentView::ParentDir,
            Component::Normal(name) => ComponentView::Normal(name@),
        }
    }
}

/// The views of a sequence of components.
pub open spec fn component_views(v: Seq<Component>) -> Seq<ComponentView> {
    Seq::new(v.len(), |i: int| v[i]@)
}

/// Whether `path` begins with the separator.
pub fn is_absolute(path: &[u8]) -> (r: bool)
    ensures
        r == syntax::is_absolute(path@),
{
    path.len() > 0 && path[0] == SEPARATOR
}

/// The component that the name `path[start..end]` stands for.
fn name_component(path: &[u8], start: usize, end: usize) -> (r: Option<Component>)
    requires
        start <= end <= path.len(),
    ensures
        match r {
            Some(c) => syntax::name_component(path@.subrange(start as int, end as int)) == Some(
                c@,
            ),
            None => syntax::name_component(path@.subrange(start as int, end as int)) is None,
        },
{
    if end == start {
        None
    } else if end - start == 1 && path[start] == DOT {
        None
    } else if end - start == 2 && path[start] == DOT && path[start + 1] == DOT {
        Some(Component::ParentDir)
    } else {
        Some(Component::Normal(slice_to_vec(slice_subrange(path, start, end))))
    }
}

/// The components of `path`, in order.
pub fn components(path: &[u8]) -> (out: Vec<Component>)
    ensures
        component_views(out@) == syntax::components(path@),
{
    let n = path.len();
    let mut out: Vec<Component> = Vec::new();
    let mut i: usize = 0;
    if n > 0 && path[0] == SEPARATOR {
        out.push(Component::RootDir);
        i = 1;
    } else if n > 0 && path[0] == DOT && (n == 1 || path[1] == SEPARATOR) {
        out.push(Component::CurDir);
        i = 1;
    }
    let b = i;
    proof {
        assert(syntax::lead(path@) + syntax::body_components(Seq::<u8>::empty()) =~= syntax::lead(
            path@,
        ));
    }
    while i < n
        invariant
            n == path.len(),
            b <= i <= n,
            b == syntax::lead_len(path@),
            i == b || i == n || path[i - 1] == SEPARATOR,
            component_views(out@) == syntax::lead(path@) + syntax::body_components(
                path@.subrange(b as int, i as int),
            ),
        decreases n - i,
    {
        let start = i;
        while i < n && path[i] != SEPARATOR
            invariant
                n == path.len(),
                start <= i <= n,
                forall|j: int| start <= j < i ==> path[j] != SEPARATOR,
            decreases n - i,
        {
            i += 1;
        }
        let ghost before = path@.subrange(b as int, start as int);
        let ghost name = path@.subrange(start as int, i as int);
        let ghost views = component_views(out@);
        proof {
            syntax::lemma_body_components_append_name(before, name);
            assert(before + name =~= path@.subrange(b as int, i as int));
        }
        match name_component(path, start, i) {
            Some(c) => {
                out.push(c);
                assert(component_views(out@) =~= views + syntax::name_components(name));
            },
            None => {},
        }
        if i < n {
            proof {
                let body = path@.subrange(b as int, i as int);
                syntax::lemma_body_components_trailing_separator(body);
                assert(body.push(SEPARATOR) =~= path@.subrange(b as int, i + 1));
            }
            i += 1;
        }
    }
    out
}

/// The index at which the last name of `path[lo..hi]` begins: behind its last
/// separator, or `lo` where it has none.
fn last_name_start(path: &[u8], lo: usize, hi: usize) -> (k: usize)
    requires
        lo <= hi <= path.len(),
    ensures
        lo <= k <= hi,
        k - lo == syntax::last_separator(path@.subrange(lo as int, hi as int)) + 1,
{
    let mut k = hi;
    while k > lo && path[k - 1] != SEPARATOR
        invariant
            lo <= k <= hi <= path.len(),
            forall|j: int| k <= j < hi ==> path[j] != SEPARATOR,
        decreases k,
    {
        k -= 1;
    }
    proof {
        syntax::lemma_last_separator_is(path@.subrange(lo as int, hi as int), k - lo - 1);
    }
    k
}

/// The end of `path[lo..hi]` once trimmed.
fn trimmed_end(path: &[u8], lo: usize, hi: usize) -> (end: usize)
    requires
        lo <= hi <= path.len(),
    ensures
        lo <= end <= hi,
        path@.subrange(lo as int, end as int) == syntax::trim(
            path@.subrange(lo as int, hi as int),
        ),
{
    let mut end = hi;
    loop
        invariant
            lo <= end <= hi <= path.len(),
            syntax::trim(path@.subrange(lo as int, end as int)) == syntax::trim(
                path@.subrange(lo as int, hi as int),
            ),
        ensures
            lo <= end <= hi,
            path@.subrange(lo as int, end as int) == syntax::trim(
                path@.subrange(lo as int, hi as int),
            ),
        decreases end - lo,
    {
        if end == lo {
            break ;
        }
        let ghost s = path@.subrange(lo as int, end as int);
        let k = last_name_start(path, lo, end);
        let vacant = end == k || (end - k == 1 && path[k] == DOT);
        if !vacant {
            break ;
        }
        let shorter = if k > lo {
            k - 1
        } else {
            lo
        };
        proof {
            assert(syntax::before_last_name(s) =~= path@.subrange(lo as int, shorter as int));
        }
        end = shorter;
    }
    end
}

/// The parent of `path`: `path` without its last component, or `None` for
/// the root and for the empty path.
pub fn parent(path: &[u8]) -> (r: Option<Vec<u8>>)
    ensures
        match r {
            Some(q) => syntax::parent(path@) == Some(q@),
            None => syntax::parent(path@) is None,
        },
{
    let n = path.len();
    let cur_dir = n > 0 && path[0] == DOT && (n == 1 || path[1] == SEPARATOR);
    let b: usize = if (n > 0 && path[0] == SEPARATOR) || cur_dir {
        1
    } else {
        0
    };
    let t = trimmed_end(path, b, n);
    if t == b {
        if cur_dir {
            Some(Vec::new())
        } else {
            None
        }
    } else {
        let k = last_name_start(path, b, t);
        let before_end = if k > b {
            k - 1
        } else {
            b
        };
        let e = trimmed_end(path, b, before_end);
        let q = slice_to_vec(slice_subrange(path, 0, e));
        proof {
            let trimmed = path@.subrange(b as int, t as int);
            assert(syntax::before_last_name(trimmed) =~= path@.subrange(
                b as int,
                before_end as int,
            ));
        }
        Some(q)
    }
}

/// Appends the bytes of `src` to `out`.
fn append(out: &mut Vec<u8>, src: &[u8])
    ensures
        final(out)@ == old(out)@ + src@,
{
    let mut i: usize = 0;
    while i < src.len()
        invariant
            i <= src.len(),
            out@ == old(out)@ + src@.take(i as int),
        decreases src.len() - i,
    {
        out.push(src[i]);
        i += 1;
    }
}

/// `path` taken from `base`: `path` itself where it is absolute, else `base`
/// followed by `path`, with a separator between them where `base` needs one.
pub fn join(base: &[u8], path: &[u8]) -> (r: Vec<u8>)
    ensures
        r@ == syntax::join(base@, path@),
{
    if is_absolute(path) {
        return slice_to_vec(path);
    }
    let mut out = slice_to_vec(base);
    if base.len() > 0 && base[base.len() - 1] != SEPARATOR {
        out.push(SEPARATOR);
    }
    append(&mut out, path);
    out
}

/// The views of a sequence of byte strings.
pub open spec fn byte_views(v: Seq<Vec<u8>>) -> Seq<Seq<u8>> {
    Seq::new(v.len(), |i: int| v[i]@)
}

/// Joins the parts one after the other, from the empty path: a part that is
/// absolute replaces what came before it.
pub fn join_path(parts: &Vec<Vec<u8>>) -> (r: Vec<u8>)
    ensures
        r@ == syntax::join_all(byte_views(parts@)),
{
    let mut out: Vec<u8> = Vec::new();
    let mut i: usize = 0;
    let ghost all = byte_views(parts@);
    while i < parts.len()
        invariant
            i <= parts.len(),
            all == byte_views(parts@),
            out@ == syntax::join_all(all.take(i as int)),
        decreases parts.len() - i,
    {
        let joined = join(out.as_slice(), parts[i].as_slice());
        proof {
            let upto = all.take(i + 1);
            assert(upto.drop_last() =~= all.take(i as int));
        }
        out = joined;
        i += 1;
    }
    assert(all.take(parts.len() as int) =~= all);
    out
}

/// Whether two byte strings hold the same bytes.
fn same_bytes(a: &Vec<u8>, b: &Vec<u8>) -> (r: bool)
    ensures
        r == (a@ == b@),
{
    if a.len() != b.len() {
        return false;
    }
    let mut i: usize = 0;
    while i < a.len()
        invariant
            i <= a.len(),
            a.len() == b.len(),
            forall|j: int| 0 <= j < i ==> a@[j] == b@[j],
        decreases a.len() - i,
    {
        if a[i] != b[i] {
            return false;
        }
        i += 1;
    }
    assert(a@ =~= b@);
    true
}

/// Whether two components are the same.
fn same_component(a: &Component, b: &Component) -> (r: bool)
    ensures
        r == (a@ == b@),
{
    match (a, b) {
        (Component::RootDir, Component::RootDir) => true,
        (Component::CurDir, Component::CurDir) => true,
        (Component::ParentDir, Component::ParentDir) => true,
        (Component::Normal(x), Component::Normal(y)) => same_bytes(x, y),
        _ => false,
    }
}

/// Whether `path` starts with `base`, component by component.
pub fn starts_with(path: &[u8], base: &[u8]) -> (r: bool)
    ensures
        r == syntax::starts_with(path@, base@),
{
    let whole = components(path);
    let front = components(base);
    if front.len() > whole.len() {
        return false;
    }
    let ghost w = syntax::components(path@);
    let ghost f = syntax::components(base@);
    let mut i: usize = 0;
    while i < front.len()
        invariant
            i <= front.len() <= whole.len(),
            w == syntax::components(path@),
            f == syntax::components(base@),
            w == component_views(whole@),
            f == component_views(front@),
            forall|j: int| 0 <= j < i ==> f[j] == w[j],
        decreases front.len() - i,
    {
        if !same_component(&front[i], &whole[i]) {
            assert(f[i as int] == front@[i as int]@);
            return false;
        }
        i += 1;
    }
    true
}

/// Whether `path` has the form of a canonical path: the root alone, or the
/// root followed by plain names with single separators between them.
pub fn is_canonical(path: &[u8]) -> (r: bool)
    ensures
        r == syntax::is_canonical(path@),
{
    let n = path.len();
    if n == 0 || path[0] != SEPARATOR {
        return false;
    }
    if n == 1 {
        return true;
    }
    let ghost names = path@.skip(1);
    let mut end = n;
    loop
        invariant
            1 < end <= n == path.len(),
            syntax::is_absolute(path@),
            names == path@.skip(1),
            syntax::plain_names(path@.subrange(1, end as int)) == syntax::plain_names(names),
        decreases end,
    {
        let ghost s = path@.subrange(1, end as int);
        let k = last_name_start(path, 1, end);
        proof {
            syntax::lemma_last_separator_bounds(s);
        }
        let vacant = end == k;
        let dot = end - k == 1 && path[k] == DOT;
        let dot_dot = end - k == 2 && path[k] == DOT && path[k + 1] == DOT;
        if vacant || dot || dot_dot {
            return false;
        }
        if k == 1 {
            return true;
        }
        proof {
            assert(syntax::before_last_name(s) =~= path@.subrange(1, k - 1));
        }
        if k == 2 {
            assert(!syntax::plain_names(path@.subrange(1, 1)));
            return false;
        }
        end = k - 1;
    }
}

/// Whether `path` names `..` among the components that follow those of
/// `ancestor`.
pub fn suffix_climbs(path: &[u8], ancestor: &[u8]) -> (r: bool)
    ensures
        r == syntax::suffix(path@, ancestor@).contains(ComponentView::ParentDir),
{
    let whole = components(path);
    let front = components(ancestor);
    let ghost w = syntax::components(path@);
    let ghost rest = syntax::suffix(path@, ancestor@);
    if front.len() > whole.len() {
        return false;
    }
    let mut i: usize = front.len();
    while i < whole.len()
        invariant
            front.len() <= i <= whole.len(),
            w == component_views(whole@),
            rest == syntax::suffix(path@, ancestor@),
            rest == w.skip(front.len() as int),
            forall|j: int| 0 <= j < i - front.len() ==> rest[j] != ComponentView::ParentDir,
        decreases whole.len() - i,
    {
        let ghost at = i - front.len();
        assert(rest[at] == whole@[i as int]@);
        match &whole[i] {
            Component::ParentDir => {
                return true;
            },
            _ => {},
        }
        i += 1;
    }
    false
}

} // verus!
