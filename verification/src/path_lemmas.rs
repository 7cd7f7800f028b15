//! What follows from the model of paths: how segments, file names,
//! parents and components behave when a path is cut or made longer.

use crate::path::{
    body_components, body_start, component_of, components, file_name, file_name_span,
    has_leading_cur_dir, has_root, is_blank, is_parent_ref, is_plain_name, is_separator,
    last_segment_start, parent, segment_end, starts_with, trimmed_len, without_blank_end,
    Component,
};
use vstd::prelude::*;

verus! {

/// The last segment lies between the bounds, it holds no separator, and
/// a separator or the lower bound comes just before it.
pub proof fn lemma_last_segment(p: Seq<char>, lo: int, n: int)
    requires
        lo <= n,
    ensures
        ({
            let s = last_segment_start(p, lo, n);
            &&& lo <= s <= n
            &&& s == lo || is_separator(p[s - 1])
            &&& forall|i: int| s <= i < n ==> !is_separator(#[trigger] p[i])
        }),
    decreases n - lo,
{
    if n > lo && !is_separator(p[n - 1]) {
        lemma_last_segment(p, lo, n - 1);
    }
}

/// A segment begins at `k` if a separator, or the lower bound, comes just
/// before `k` and no separator follows up to `n`.
pub proof fn lemma_last_segment_start_is(p: Seq<char>, lo: int, k: int, n: int)
    requires
        0 <= lo <= k <= n <= p.len(),
        k == lo || is_separator(p[k - 1]),
        forall|i: int| k <= i < n ==> !is_separator(#[trigger] p[i]),
    ensures
        last_segment_start(p, lo, n) == k,
    decreases n - k,
{
    if n > k {
        lemma_last_segment_start_is(p, lo, k, n - 1);
    }
}

/// The last segment begins no later than a stretch without separators
/// that lies at its end.
pub proof fn lemma_last_segment_start_skips(p: Seq<char>, lo: int, m: int, n: int)
    requires
        0 <= lo <= m <= n <= p.len(),
        forall|i: int| m <= i < n ==> !is_separator(#[trigger] p[i]),
    ensures
        last_segment_start(p, lo, n) == last_segment_start(p, lo, m),
    decreases n - m,
{
    if n > m {
        lemma_last_segment_start_skips(p, lo, m, n - 1);
    }
}

/// A segment ends at or after its beginning, within the path.
pub proof fn lemma_segment_end_bounds(p: Seq<char>, from: int)
    requires
        from <= p.len(),
    ensures
        from <= segment_end(p, from) <= p.len(),
    decreases p.len() - from,
{
    if from < p.len() && !is_separator(p[from]) {
        lemma_segment_end_bounds(p, from + 1);
    }
}

/// The segment that begins at `from` ends at `k` if no separator comes
/// before `k` and `k` holds one or is the end of the path.
pub proof fn lemma_segment_end_is(p: Seq<char>, from: int, k: int)
    requires
        0 <= from <= k <= p.len(),
        forall|i: int| from <= i < k ==> !is_separator(#[trigger] p[i]),
        k == p.len() || is_separator(p[k]),
    ensures
        segment_end(p, from) == k,
    decreases k - from,
{
    if from < k {
        lemma_segment_end_is(p, from + 1, k);
    }
}

/// A segment that is closed by a separator before `n` ends where it ends
/// in any other path with the same first `n` characters.
pub proof fn lemma_segment_end_of_prefix(p: Seq<char>, q: Seq<char>, from: int, n: int)
    requires
        0 <= from < n,
        n <= p.len(),
        n <= q.len(),
        forall|i: int| 0 <= i < n ==> p[i] == q[i],
        is_separator(p[n - 1]),
    ensures
        segment_end(p, from) == segment_end(q, from),
        from <= segment_end(p, from) < n,
    decreases n - from,
{
    if !is_separator(p[from]) {
        lemma_segment_end_of_prefix(p, q, from + 1, n);
    }
}

/// A separator at the end of a path closes the last segment where the
/// path ended.
pub proof fn lemma_segment_end_with_separator(p: Seq<char>, from: int)
    requires
        0 <= from <= p.len(),
    ensures
        segment_end(p + seq!['/'], from) == segment_end(p, from),
    decreases p.len() - from,
{
    let q = p + seq!['/'];
    if from < p.len() {
        assert(q[from] == p[from]);
        if !is_separator(p[from]) {
            lemma_segment_end_with_separator(p, from + 1);
        }
    } else {
        assert(is_separator(q[from]));
    }
}

/// What [`trimmed_len`] leaves lies between the bounds.
pub proof fn lemma_trimmed_len_bounds(p: Seq<char>, lo: int, n: int)
    requires
        lo <= n,
    ensures
        lo <= trimmed_len(p, lo, n) <= n,
    decreases n - lo,
{
    if n > lo {
        if is_separator(p[n - 1]) {
            lemma_trimmed_len_bounds(p, lo, n - 1);
        } else if p[n - 1] == '.' && n - 1 > lo && is_separator(p[n - 2]) {
            lemma_trimmed_len_bounds(p, lo, n - 2);
        }
    }
}

/// What [`trimmed_len`] leaves does not end in a blank segment.
pub proof fn lemma_trimmed_end_is_not_blank(p: Seq<char>, lo: int, n: int)
    requires
        0 <= lo <= n <= p.len(),
    ensures
        ({
            let e = trimmed_len(p, lo, n);
            let s = last_segment_start(p, lo, e);
            e > lo ==> lo <= s < e <= n && !is_blank(p.subrange(s, e))
        }),
    decreases n - lo,
{
    if n > lo {
        if is_separator(p[n - 1]) {
            lemma_trimmed_len_bounds(p, lo, n - 1);
            lemma_trimmed_end_is_not_blank(p, lo, n - 1);
        } else if p[n - 1] == '.' && n - 1 == lo {
        } else if p[n - 1] == '.' && is_separator(p[n - 2]) {
            lemma_trimmed_end_is_not_blank(p, lo, n - 2);
        } else {
            let s = last_segment_start(p, lo, n);
            lemma_last_segment(p, lo, n - 1);
            if s == n - 1 && n - 1 > lo {
                lemma_last_segment(p, lo, n - 2);
            }
        }
    }
}

/// [`trimmed_len`] looks at the first `n` characters only.
pub proof fn lemma_trimmed_len_of_prefix(p: Seq<char>, q: Seq<char>, lo: int, n: int)
    requires
        0 <= lo <= n,
        n <= p.len(),
        n <= q.len(),
        forall|i: int| 0 <= i < n ==> p[i] == q[i],
    ensures
        trimmed_len(p, lo, n) == trimmed_len(q, lo, n),
    decreases n - lo,
{
    if n > lo {
        if is_separator(p[n - 1]) {
            lemma_trimmed_len_of_prefix(p, q, lo, n - 1);
        } else if p[n - 1] == '.' && n - 1 > lo && is_separator(p[n - 2]) {
            lemma_trimmed_len_of_prefix(p, q, lo, n - 2);
        }
    }
}

/// The file name lies in the body of the path; what follows it, if
/// anything, ends in a separator or in a dot.
pub proof fn lemma_file_name_span(p: Seq<char>)
    ensures
        match file_name_span(p) {
            Some((s, e)) => {
                &&& body_start(p) <= s < e <= p.len()
                &&& e == p.len() || is_separator(p.last()) || p.last() == '.'
            },
            None => true,
        },
{
    let lo = body_start(p);
    let n = p.len() as int;
    lemma_trimmed_len_bounds(p, lo, n);
    lemma_trimmed_end_is_not_blank(p, lo, n);
}

/// A path that ends in a character other than a separator or a dot ends
/// in its file name.
pub proof fn lemma_file_name_at_end(p: Seq<char>)
    requires
        p.len() > 0,
        !is_separator(p.last()),
        p.last() != '.',
    ensures
        match file_name_span(p) {
            Some((s, e)) => body_start(p) <= s < e == p.len(),
            None => false,
        },
{
    let lo = body_start(p);
    let n = p.len() as int;
    assert(trimmed_len(p, lo, n) == n);
    lemma_last_segment(p, lo, n);
    lemma_last_segment(p, lo, n - 1);
    let s = last_segment_start(p, lo, n);
    assert(p.subrange(s, n)[n - s - 1] == p[n - 1]);
}

/// In a path made of a directory, a separator and a plain name, the file
/// name is that name, where it stands.
pub proof fn lemma_file_name_span_of_joined(dir: Seq<char>, name: Seq<char>)
    requires
        is_plain_name(name),
    ensures
        file_name_span(dir + seq!['/'] + name) == Some(
            ((dir.len() + 1) as int, (dir.len() + 1 + name.len()) as int),
        ),
{
    let p = dir + seq!['/'] + name;
    let lo = body_start(p);
    let n = p.len() as int;
    let k = (dir.len() + 1) as int;
    assert forall|i: int| k <= i < n implies !is_separator(#[trigger] p[i]) by {
        assert(p[i] == name[i - k]);
    }
    assert(p[n - 1] == name[name.len() - 1]);
    if name.len() >= 2 {
        assert(p[n - 2] == name[name.len() - 2]);
    }
    assert(trimmed_len(p, lo, n) == n);
    lemma_last_segment_start_is(p, lo, k, n);
    assert(p.subrange(k, n) =~= name);
}

/// A path made of a directory, a separator and a plain name has that name
/// as its file name.
pub proof fn lemma_file_name_of_joined(dir: Seq<char>, name: Seq<char>)
    requires
        is_plain_name(name),
    ensures
        file_name(dir + seq!['/'] + name) == Some(name),
{
    let p = dir + seq!['/'] + name;
    lemma_file_name_span_of_joined(dir, name);
    assert(p.subrange((dir.len() + 1) as int, p.len() as int) =~= name);
}

/// A path made of a directory, a separator and a plain name has that
/// directory as its parent, without the blank segments at its end. If the
/// directory is empty, the parent is the root.
pub proof fn lemma_parent_of_joined(dir: Seq<char>, name: Seq<char>)
    requires
        is_plain_name(name),
    ensures
        parent(dir + seq!['/'] + name) == Some(
            if dir.len() == 0 {
                seq!['/']
            } else {
                without_blank_end(dir)
            },
        ),
{
    let p = dir + seq!['/'] + name;
    let lo = body_start(p);
    lemma_file_name_span_of_joined(dir, name);
    if dir.len() == 0 {
        assert(p[0] == '/');
        assert(trimmed_len(p, 1, 1) == 1);
        assert(p.subrange(0, 1) =~= seq!['/']);
    } else {
        assert(p[0] == dir[0]);
        if dir.len() > 1 {
            assert(p[1] == dir[1]);
        } else {
            assert(p[1] == '/');
        }
        lemma_trimmed_len_of_prefix(p, dir, lo, dir.len() as int);
        lemma_trimmed_len_bounds(dir, lo, dir.len() as int);
        let m = trimmed_len(dir, lo, dir.len() as int);
        assert(p.subrange(0, m) =~= dir.take(m));
    }
}

/// The body of a path holds no root and no leading `.`.
pub proof fn lemma_body_components_head(p: Seq<char>, from: int)
    requires
        0 <= from,
    ensures
        body_components(p, from).len() > 0 ==> body_components(p, from)[0] is ParentDir
            || body_components(p, from)[0] is Normal,
    decreases p.len() + 1 - from,
{
    if from < p.len() {
        lemma_segment_end_bounds(p, from);
        let e = segment_end(p, from);
        if is_blank(p.subrange(from, e)) {
            lemma_body_components_head(p, e + 1);
        }
    }
}

/// Segments that are not blank stand for the same component exactly when
/// they are the same text.
pub proof fn lemma_component_of_injective(a: Seq<char>, b: Seq<char>)
    ensures
        component_of(a) == component_of(b) <==> a == b,
{
    if component_of(a) == component_of(b) {
        if is_parent_ref(a) {
            assert(a =~= b);
        }
    }
}

/// Two runs with the same first item: one leads to the other exactly when
/// the rest of the one leads to the rest of the other.
pub proof fn lemma_prefix_after_common_head<A>(a: A, x: Seq<A>, y: Seq<A>)
    ensures
        (seq![a] + x).is_prefix_of(seq![a] + y) <==> x.is_prefix_of(y),
{
    let ax = seq![a] + x;
    let ay = seq![a] + y;
    if x.is_prefix_of(y) {
        assert(ax =~= ay.subrange(0, ax.len() as int));
    }
    if ax.is_prefix_of(ay) {
        assert(x.len() <= y.len());
        assert forall|i: int| 0 <= i < x.len() implies x[i] == y[i] by {
            assert(ax[i + 1] == ay.subrange(0, ax.len() as int)[i + 1]);
        }
        assert(x =~= y.subrange(0, x.len() as int));
    }
}

/// The components of a path that goes on after a separator: those up to
/// the separator, and then those after it.
pub proof fn lemma_body_components_split(base: Seq<char>, rest: Seq<char>, from: int)
    requires
        base.len() > 0,
        is_separator(base.last()),
        0 <= from <= base.len(),
    ensures
        body_components(base + rest, from) == body_components(base, from) + body_components(
            base + rest,
            base.len() as int,
        ),
    decreases base.len() - from,
{
    let p = base + rest;
    let n = base.len() as int;
    if from < n {
        lemma_segment_end_of_prefix(base, p, from, n);
        let e = segment_end(base, from);
        assert(p.subrange(from, e) =~= base.subrange(from, e));
        lemma_body_components_split(base, rest, e + 1);
    }
    assert(body_components(p, from) =~= body_components(base, from) + body_components(p, n));
}

/// A separator at the end of a path adds no component.
pub proof fn lemma_body_components_with_separator(p: Seq<char>, from: int)
    requires
        0 <= from,
    ensures
        body_components(p + seq!['/'], from) == body_components(p, from),
    decreases p.len() + 1 - from,
{
    let q = p + seq!['/'];
    if from < p.len() {
        lemma_segment_end_bounds(p, from);
        lemma_segment_end_with_separator(p, from);
        let e = segment_end(p, from);
        assert(q.subrange(from, e) =~= p.subrange(from, e));
        lemma_body_components_with_separator(p, e + 1);
    } else if from == p.len() {
        assert(q.subrange(from, from) =~= Seq::<char>::empty());
        assert(body_components(q, from + 1) =~= Seq::<Component>::empty());
    }
}

/// The blank segments at the end of a path stand for no component.
pub proof fn lemma_trimming_keeps_components(p: Seq<char>, lo: int, n: int)
    requires
        0 <= lo <= n <= p.len(),
    ensures
        body_components(p.take(trimmed_len(p, lo, n)), lo) == body_components(p.take(n), lo),
    decreases n - lo,
{
    let q = p.take(n);
    if n > lo {
        if is_separator(p[n - 1]) {
            assert(q =~= p.take(n - 1) + seq!['/']);
            lemma_body_components_with_separator(p.take(n - 1), lo);
            lemma_trimming_keeps_components(p, lo, n - 1);
        } else if p[n - 1] == '.' && n - 1 == lo {
            lemma_segment_end_is(q, lo, n);
            assert(is_blank(q.subrange(lo, n)));
            assert(body_components(q, n + 1) =~= Seq::<Component>::empty());
            assert(body_components(p.take(lo), lo) =~= Seq::<Component>::empty());
        } else if p[n - 1] == '.' && is_separator(p[n - 2]) {
            let base = p.take(n - 1);
            assert(q =~= base + seq!['.']);
            assert(base =~= p.take(n - 2) + seq!['/']);
            lemma_body_components_split(base, seq!['.'], lo);
            lemma_segment_end_is(q, n - 1, n);
            assert(is_blank(q.subrange(n - 1, n)));
            assert(body_components(q, n + 1) =~= Seq::<Component>::empty());
            assert(body_components(q, n - 1) =~= Seq::<Component>::empty());
            lemma_body_components_with_separator(p.take(n - 2), lo);
            lemma_trimming_keeps_components(p, lo, n - 2);
        }
    }
}

/// A path that ends in a segment that is not blank has the component of
/// that segment as its last, after the components of what comes before
/// the segment.
pub proof fn lemma_last_component(p: Seq<char>, lo: int, e: int)
    requires
        0 <= lo <= e <= p.len(),
        !is_blank(p.subrange(last_segment_start(p, lo, e), e)),
    ensures
        ({
            let s = last_segment_start(p, lo, e);
            let cut = if s > lo {
                s - 1
            } else {
                lo
            };
            body_components(p.take(e), lo) == body_components(p.take(cut), lo).push(
                component_of(p.subrange(s, e)),
            )
        }),
{
    let s = last_segment_start(p, lo, e);
    let q = p.take(e);
    lemma_last_segment(p, lo, e);
    assert forall|i: int| s <= i < e implies !is_separator(#[trigger] q[i]) by {
        assert(q[i] == p[i]);
    }
    lemma_segment_end_is(q, s, e);
    assert(q.subrange(s, e) =~= p.subrange(s, e));
    assert(body_components(q, e + 1) =~= Seq::<Component>::empty());
    let last = component_of(p.subrange(s, e));
    assert(body_components(q, s) =~= seq![last]);
    if s > lo {
        let base = p.take(s);
        assert(q =~= base + p.subrange(s, e));
        assert(base =~= p.take(s - 1) + seq!['/']);
        lemma_body_components_split(base, p.subrange(s, e), lo);
        lemma_body_components_with_separator(p.take(s - 1), lo);
        assert(body_components(q, lo) =~= body_components(p.take(s - 1), lo).push(last));
    } else {
        assert(body_components(p.take(lo), lo) =~= Seq::<Component>::empty());
        assert(body_components(q, lo) =~= Seq::<Component>::empty().push(last));
    }
}

/// The components of a path that goes on after a separator: those of the
/// path up to the separator, and then those of what follows.
pub proof fn lemma_components_extended(base: Seq<char>, rest: Seq<char>)
    requires
        base.len() > 0,
        is_separator(base.last()),
    ensures
        components(base + rest) == components(base) + body_components(
            base + rest,
            base.len() as int,
        ),
{
    let p = base + rest;
    assert(p[0] == base[0]);
    if base.len() > 1 {
        assert(p[1] == base[1]);
    }
    lemma_body_components_split(base, rest, body_start(base));
    assert(components(p) =~= components(base) + body_components(p, base.len() as int));
}

/// The components of a path that has a file name are those of its parent,
/// and then the file name.
pub proof fn lemma_components_of_parent(p: Seq<char>)
    requires
        file_name(p) is Some,
    ensures
        parent(p) is Some,
        components(p) == components(parent(p)->0).push(Component::Normal(file_name(p)->0)),
{
    let lo = body_start(p);
    let n = p.len() as int;
    let e = trimmed_len(p, lo, n);
    let s = last_segment_start(p, lo, e);
    let cut = if s > lo {
        s - 1
    } else {
        lo
    };
    let m = trimmed_len(p, lo, cut);
    let dir = p.take(m);
    let last = Component::Normal(p.subrange(s, e));
    lemma_trimmed_len_bounds(p, lo, n);
    lemma_trimmed_end_is_not_blank(p, lo, n);
    lemma_trimmed_len_bounds(p, lo, cut);
    lemma_trimmed_end_is_not_blank(p, lo, cut);
    assert(p.take(n) =~= p);
    lemma_trimming_keeps_components(p, lo, n);
    lemma_last_component(p, lo, e);
    lemma_trimming_keeps_components(p, lo, cut);
    assert(body_components(p, lo) == body_components(dir, lo).push(last));
    assert(p.subrange(0, m) =~= dir);
    if m > 0 {
        assert(dir[0] == p[0]);
    }
    if m > 1 {
        assert(dir[1] == p[1]);
    }
    if lo == 0 && m == 1 {
        assert(last_segment_start(p, lo, 0) == 0);
        assert(p.subrange(0, 1)[0] == p[0]);
    }
    assert(has_root(dir) == has_root(p));
    assert(has_leading_cur_dir(dir) == has_leading_cur_dir(p));
    assert(components(p) =~= components(dir).push(last));
}

/// A path that ends in a separator leads to every path that goes on from
/// it.
pub proof fn lemma_starts_with_extended(base: Seq<char>, rest: Seq<char>)
    requires
        base.len() > 0,
        is_separator(base.last()),
    ensures
        starts_with(base + rest, base),
{
    lemma_components_extended(base, rest);
    let tail = body_components(base + rest, base.len() as int);
    assert((components(base) + tail).subrange(0, components(base).len() as int) =~= components(
        base,
    ));
}

/// A path leads to every path that goes on from it after a separator.
pub proof fn lemma_starts_with_joined(base: Seq<char>, rest: Seq<char>)
    ensures
        starts_with(base + seq!['/'] + rest, base),
{
    let closed = base + seq!['/'];
    lemma_starts_with_extended(closed, rest);
    if base.len() == 0 {
        assert(components(base) =~= Seq::<Component>::empty());
        assert(components(closed + rest).subrange(0, 0) =~= components(base));
    } else {
        assert(closed[0] == base[0]);
        if base.len() > 1 {
            assert(closed[1] == base[1]);
        }
        lemma_body_components_with_separator(base, body_start(base));
        assert(components(closed) =~= components(base));
    }
}

/// A root that ends in a separator leads to the parent of every path made
/// of the root, of any directories below it, each closed by a separator,
/// and of a plain name.
pub proof fn lemma_starts_with_parent_below(root: Seq<char>, below: Seq<char>, name: Seq<char>)
    requires
        root.len() > 0,
        is_separator(root.last()),
        below.len() == 0 || is_separator(below.last()),
        is_plain_name(name),
    ensures
        file_name(root + below + name) == Some(name),
        parent(root + below + name) is Some,
        starts_with(parent(root + below + name)->0, root),
{
    let p = root + below + name;
    let front = root + below;
    let dir = front.drop_last();
    assert(front =~= dir + seq!['/']);
    assert(p =~= dir + seq!['/'] + name);
    lemma_file_name_of_joined(dir, name);
    lemma_components_of_parent(p);
    assert(p =~= root + (below + name));
    lemma_components_extended(root, below + name);
    let n = p.len() as int;
    let k = front.len() as int;
    lemma_body_components_split(front, name, root.len() as int);
    assert forall|i: int| k <= i < n implies !is_separator(#[trigger] p[i]) by {
        assert(p[i] == name[i - k]);
    }
    lemma_segment_end_is(p, k, n);
    assert(p.subrange(k, n) =~= name);
    assert(body_components(p, n + 1) =~= Seq::<Component>::empty());
    assert(body_components(p, k).len() == 1);
    let cr = components(root);
    let cp = components(p);
    let cd = components(parent(p)->0);
    assert(cd =~= cp.drop_last());
    assert(cr =~= cd.subrange(0, cr.len() as int));
}

} // verus!
