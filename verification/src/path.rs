//! Unix-style paths, modelled as character sequences.
//!
//! A path is split at `/` into segments. Empty segments (left by doubled or
//! trailing separators) and `.` segments name nothing and are skipped, except
//! that a path may begin with a root `/` or with a `.` of its own. What
//! follows that beginning is the body of the path.
//!
//! The file name and the parent of a path are read from its end; its
//! components, which tell whether one path leads to another, from its
//! beginning.

use crate::path_lemmas::{
    lemma_body_components_head, lemma_component_of_injective, lemma_prefix_after_common_head,
    lemma_segment_end_bounds, lemma_trimmed_end_is_not_blank,
};
use crate::text::same_chars;
use vstd::prelude::*;

verus! {

/// The character that separates the segments of a path.
pub open spec fn is_separator(c: char) -> bool {
    c == '/'
}

/// A segment that names nothing: an empty one, or `.`.
pub open spec fn is_blank(seg: Seq<char>) -> bool {
    seg.len() == 0 || (seg.len() == 1 && seg[0] == '.')
}

/// The segment `..`, which refers to the directory above.
pub open spec fn is_parent_ref(seg: Seq<char>) -> bool {
    seg.len() == 2 && seg[0] == '.' && seg[1] == '.'
}

/// The path begins at the root.
pub open spec fn has_root(p: Seq<char>) -> bool {
    p.len() > 0 && p[0] == '/'
}

/// The path begins with a `.` that stands for the current directory.
pub open spec fn has_leading_cur_dir(p: Seq<char>) -> bool {
    p.len() > 0 && p[0] == '.' && (p.len() == 1 || p[1] == '/')
}

/// Where the body of the path begins: after the root or the leading `.`,
/// if there is one.
pub open spec fn body_start(p: Seq<char>) -> int {
    if has_root(p) || has_leading_cur_dir(p) {
        1
    } else {
        0
    }
}

/// Where the last segment of `p[lo..n]` begins: just after its last
/// separator, or at `lo` if it has none.
pub open spec fn last_segment_start(p: Seq<char>, lo: int, n: int) -> int
    decreases n - lo,
{
    if n <= lo {
        lo
    } else if is_separator(p[n - 1]) {
        n
    } else {
        last_segment_start(p, lo, n - 1)
    }
}

/// The length that is left of `p[..n]` once the blank segments at its end
/// are dropped, each with the separator before it. The first `lo`
/// characters are never dropped.
pub open spec fn trimmed_len(p: Seq<char>, lo: int, n: int) -> int
    decreases n - lo,
{
    if n <= lo {
        lo
    } else if is_separator(p[n - 1]) {
        trimmed_len(p, lo, n - 1)
    } else if p[n - 1] == '.' && n - 1 == lo {
        lo
    } else if p[n - 1] == '.' && is_separator(p[n - 2]) {
        trimmed_len(p, lo, n - 2)
    } else {
        n
    }
}

/// The path without the blank segments at its end.
pub open spec fn without_blank_end(p: Seq<char>) -> Seq<char> {
    p.take(trimmed_len(p, body_start(p), p.len() as int))
}

/// The bounds of the final segment that names something, unless that is
/// `..` or there is none.
pub open spec fn file_name_span(p: Seq<char>) -> Option<(int, int)> {
    let lo = body_start(p);
    let e = trimmed_len(p, lo, p.len() as int);
    let s = last_segment_start(p, lo, e);
    if e <= lo || is_parent_ref(p.subrange(s, e)) {
        None
    } else {
        Some((s, e))
    }
}

/// The final component of the path, if it is the name of a file or a
/// directory.
pub open spec fn file_name(p: Seq<char>) -> Option<Seq<char>> {
    match file_name_span(p) {
        Some((s, e)) => Some(p.subrange(s, e)),
        None => None,
    }
}

/// The length of the path without its final component. A path that ends
/// at its root, and the empty path, have none.
pub open spec fn parent_len(p: Seq<char>) -> Option<int> {
    let lo = body_start(p);
    let e = trimmed_len(p, lo, p.len() as int);
    let s = last_segment_start(p, lo, e);
    if e > lo {
        Some(
            trimmed_len(
                p,
                lo,
                if s > lo {
                    s - 1
                } else {
                    lo
                },
            ),
        )
    } else if has_leading_cur_dir(p) {
        Some(0)
    } else {
        None
    }
}

/// The path without its final component.
pub open spec fn parent(p: Seq<char>) -> Option<Seq<char>> {
    match parent_len(p) {
        Some(n) => Some(p.subrange(0, n)),
        None => None,
    }
}

/// A name that can stand as the final component of a path: it has no
/// separator, and it is neither blank nor `..`.
pub open spec fn is_plain_name(name: Seq<char>) -> bool {
    &&& !is_blank(name)
    &&& !is_parent_ref(name)
    &&& forall|i: int| 0 <= i < name.len() ==> !is_separator(#[trigger] name[i])
}

/// One step of a path, as it is met when the path is read from its
/// beginning.
pub enum Component {
    /// The root `/` that an absolute path begins with.
    RootDir,
    /// A `.` that a relative path begins with.
    CurDir,
    /// A segment `..`.
    ParentDir,
    /// Any other segment that names something.
    Normal(Seq<char>),
}

/// Where the segment that begins at `from` ends: at the next separator,
/// or at the end of the path.
pub open spec fn segment_end(p: Seq<char>, from: int) -> int
    decreases p.len() - from,
{
    if from >= p.len() {
        p.len() as int
    } else if is_separator(p[from]) {
        from
    } else {
        segment_end(p, from + 1)
    }
}

/// The component that a segment which is not blank stands for.
pub open spec fn component_of(seg: Seq<char>) -> Component {
    if is_parent_ref(seg) {
        Component::ParentDir
    } else {
        Component::Normal(seg)
    }
}

/// The components of `p[from..]`, read as part of the body of a path:
/// one for each segment that is not blank.
pub open spec fn body_components(p: Seq<char>, from: int) -> Seq<Component>
    decreases p.len() + 1 - from,
    via body_components_decreases
{
    if from >= p.len() {
        Seq::empty()
    } else {
        let e = segment_end(p, from);
        let seg = p.subrange(from, e);
        if is_blank(seg) {
            body_components(p, e + 1)
        } else {
            seq![component_of(seg)] + body_components(p, e + 1)
        }
    }
}

#[via_fn]
proof fn body_components_decreases(p: Seq<char>, from: int) {
    if from < p.len() {
        lemma_segment_end_bounds(p, from);
    }
}

/// The components of a path: its root or leading `.`, if it has one, and
/// then those of its body.
pub open spec fn components(p: Seq<char>) -> Seq<Component> {
    if has_root(p) {
        seq![Component::RootDir] + body_components(p, 1)
    } else if has_leading_cur_dir(p) {
        seq![Component::CurDir] + body_components(p, 1)
    } else {
        body_components(p, 0)
    }
}

/// `base` leads to `p`: the components of `base` are the first components
/// of `p`, one by one. Whole components are compared, so `/usr/lib` leads
/// to `/usr/lib/x` and to itself, but not to `/usr/libx`.
pub open spec fn starts_with(p: Seq<char>, base: Seq<char>) -> bool {
    components(base).is_prefix_of(components(p))
}

/// Computes [`body_start`].
pub fn find_body_start(p: &[char]) -> (lo: usize)
    ensures
        lo == body_start(p@),
        lo <= p.len(),
{
    if p.len() > 0 && (p[0] == '/' || (p[0] == '.' && (p.len() == 1 || p[1] == '/'))) {
        1
    } else {
        0
    }
}

/// Computes [`last_segment_start`].
pub fn find_last_segment_start(p: &[char], lo: usize, n: usize) -> (s: usize)
    requires
        lo <= n <= p.len(),
    ensures
        s == last_segment_start(p@, lo as int, n as int),
        lo <= s <= n,
{
    let mut s: usize = n;
    while s > lo && p[s - 1] != '/'
        invariant
            lo <= s <= n <= p.len(),
            last_segment_start(p@, lo as int, n as int) == last_segment_start(
                p@,
                lo as int,
                s as int,
            ),
        decreases s,
    {
        s -= 1;
    }
    s
}

/// Computes [`trimmed_len`].
pub fn trim_blank_end(p: &[char], lo: usize, n: usize) -> (e: usize)
    requires
        lo <= n <= p.len(),
    ensures
        e == trimmed_len(p@, lo as int, n as int),
        lo <= e <= n,
{
    let mut e: usize = n;
    while e > lo
        invariant
            lo <= e <= n <= p.len(),
            trimmed_len(p@, lo as int, n as int) == trimmed_len(p@, lo as int, e as int),
        ensures
            lo <= e <= n,
            e == trimmed_len(p@, lo as int, n as int),
        decreases e,
    {
        if p[e - 1] == '/' {
            e -= 1;
        } else if p[e - 1] == '.' && e - 1 == lo {
            e = lo;
        } else if p[e - 1] == '.' && p[e - 2] == '/' {
            e -= 2;
        } else {
            break ;
        }
    }
    e
}

/// Finds the final component of `p`, as [`file_name_span`] gives it.
pub fn find_file_name(p: &[char]) -> (span: Option<(usize, usize)>)
    ensures
        match span {
            Some((s, e)) => file_name_span(p@) == Some((s as int, e as int)) && s < e <= p.len(),
            None => file_name_span(p@) is None,
        },
{
    let lo = find_body_start(p);
    let e = trim_blank_end(p, lo, p.len());
    if e <= lo {
        return None;
    }
    let s = find_last_segment_start(p, lo, e);
    if e - s == 2 && p[s] == '.' && p[s + 1] == '.' {
        return None;
    }
    proof {
        lemma_trimmed_end_is_not_blank(p@, lo as int, p.len() as int);
    }
    Some((s, e))
}

/// Finds the length of `p` without its final component, as [`parent_len`]
/// gives it.
pub fn find_parent(p: &[char]) -> (len: Option<usize>)
    ensures
        match len {
            Some(n) => parent_len(p@) == Some(n as int) && n <= p.len(),
            None => parent_len(p@) is None,
        },
{
    let lo = find_body_start(p);
    let e = trim_blank_end(p, lo, p.len());
    if e > lo {
        let s = find_last_segment_start(p, lo, e);
        let cut = if s > lo {
            s - 1
        } else {
            lo
        };
        Some(trim_blank_end(p, lo, cut))
    } else if p.len() > 0 && p[0] == '.' && (p.len() == 1 || p[1] == '/') {
        Some(0)
    } else {
        None
    }
}

/// Computes [`segment_end`].
pub fn find_segment_end(p: &[char], from: usize) -> (e: usize)
    requires
        from <= p.len(),
    ensures
        e == segment_end(p@, from as int),
        from <= e <= p.len(),
{
    let mut e: usize = from;
    while e < p.len() && p[e] != '/'
        invariant
            from <= e <= p.len(),
            segment_end(p@, from as int) == segment_end(p@, e as int),
        decreases p.len() - e,
    {
        e += 1;
    }
    e
}

/// Finds the first segment at or after `from` that is not blank: its
/// bounds, and where the search for the one after it begins.
pub fn next_component(p: &[char], from: usize) -> (r: Option<(usize, usize, usize)>)
    requires
        from <= p.len(),
    ensures
        match r {
            Some((s, e, next)) => {
                &&& from <= s < e <= next <= p.len()
                &&& e == segment_end(p@, s as int)
                &&& next == if e < p.len() {
                    e + 1
                } else {
                    e as int
                }
                &&& !is_blank(p@.subrange(s as int, e as int))
                &&& body_components(p@, from as int) == seq![
                    component_of(p@.subrange(s as int, e as int)),
                ] + body_components(p@, next as int)
            },
            None => body_components(p@, from as int) == Seq::<Component>::empty(),
        },
{
    let mut i: usize = from;
    while i < p.len()
        invariant
            from <= i <= p.len(),
            body_components(p@, from as int) == body_components(p@, i as int),
        decreases p.len() - i,
    {
        let e = find_segment_end(p, i);
        let blank = e == i || (e - i == 1 && p[i] == '.');
        let next = if e < p.len() {
            e + 1
        } else {
            e
        };
        assert(blank == is_blank(p@.subrange(i as int, e as int)));
        assert(body_components(p@, e + 1) == body_components(p@, next as int));
        if !blank {
            return Some((i, e, next));
        }
        i = next;
    }
    None
}

/// Decides [`starts_with`].
pub fn path_starts_with(p: &[char], base: &[char]) -> (r: bool)
    ensures
        r == starts_with(p@, base@),
{
    let lp = find_body_start(p);
    let lb = find_body_start(base);
    if lb == 1 {
        if lp != 1 || p[0] != base[0] {
            proof {
                lemma_body_components_head(p@, 0);
                let cb = components(base@);
                let cp = components(p@);
                if cb.is_prefix_of(cp) {
                    assert(cb[0] == cp.subrange(0, cb.len() as int)[0]);
                }
            }
            return false;
        }
        proof {
            let head = if has_root(p@) {
                Component::RootDir
            } else {
                Component::CurDir
            };
            lemma_prefix_after_common_head(
                head,
                body_components(base@, 1),
                body_components(p@, 1),
            );
        }
    } else if lp == 1 {
        let first = next_component(base, 0);
        proof {
            let cb = components(base@);
            let cp = components(p@);
            if cb.len() > 0 && cb.is_prefix_of(cp) {
                assert(cb[0] == cp.subrange(0, cb.len() as int)[0]);
            }
        }
        return first.is_none();
    }
    let mut ip: usize = lp;
    let mut ib: usize = lb;
    loop
        invariant
            ip <= p.len(),
            ib <= base.len(),
            starts_with(p@, base@) <==> body_components(base@, ib as int).is_prefix_of(
                body_components(p@, ip as int),
            ),
        decreases base.len() - ib,
    {
        match next_component(base, ib) {
            None => {
                return true;
            },
            Some((bs, be, bn)) => {
                match next_component(p, ip) {
                    None => {
                        return false;
                    },
                    Some((ps, pe, pn)) => {
                        let same = same_chars(p, ps, pe, base, bs, be);
                        proof {
                            let cb = component_of(base@.subrange(bs as int, be as int));
                            let cp = component_of(p@.subrange(ps as int, pe as int));
                            let rb = body_components(base@, bn as int);
                            let rp = body_components(p@, pn as int);
                            lemma_component_of_injective(
                                base@.subrange(bs as int, be as int),
                                p@.subrange(ps as int, pe as int),
                            );
                            if same {
                                lemma_prefix_after_common_head(cb, rb, rp);
                            } else if (seq![cb] + rb).is_prefix_of(seq![cp] + rp) {
                                assert((seq![cb] + rb)[0] == (seq![cp] + rp).subrange(
                                    0,
                                    (rb.len() + 1) as int,
                                )[0]);
                            }
                        }
                        if !same {
                            return false;
                        }
                        ip = pn;
                        ib = bn;
                    },
                }
            },
        }
    }
}

} // verus!
