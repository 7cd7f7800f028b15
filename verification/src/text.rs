//! Strings as character vectors, and text as UTF-8 bytes.

use vstd::prelude::*;
use vstd::utf8::encode_utf8;

verus! {

/// Collects the characters of `s` into a vector.
pub fn chars_of(s: &str) -> (v: Vec<char>)
    ensures
        v@ == s@,
{
    broadcast use vstd::string::group_string_axioms;

    let mut v: Vec<char> = Vec::new();
    for c in it: s.chars()
        invariant
            it.seq() == s@,
            v@ == s@.take(it.index() as int),
    {
        v.push(c);
        assert(v@ =~= s@.take(it.index() + 1));
    }
    assert(v@ =~= s@);
    v
}

/// Compares two stretches of characters.
pub fn same_chars(
    a: &[char],
    a_from: usize,
    a_to: usize,
    b: &[char],
    b_from: usize,
    b_to: usize,
) -> (r: bool)
    requires
        a_from <= a_to <= a.len(),
        b_from <= b_to <= b.len(),
    ensures
        r == (a@.subrange(a_from as int, a_to as int) == b@.subrange(b_from as int, b_to as int)),
{
    let ghost x = a@.subrange(a_from as int, a_to as int);
    let ghost y = b@.subrange(b_from as int, b_to as int);
    if a_to - a_from != b_to - b_from {
        assert(x.len() != y.len());
        return false;
    }
    let n = a_to - a_from;
    let mut i: usize = 0;
    while i < n
        invariant
            a_from <= a_to <= a.len(),
            b_from <= b_to <= b.len(),
            n == a_to - a_from == b_to - b_from,
            i <= n,
            x == a@.subrange(a_from as int, a_to as int),
            y == b@.subrange(b_from as int, b_to as int),
            forall|k: int| 0 <= k < i ==> x[k] == y[k],
        decreases n - i,
    {
        if a[a_from + i] != b[b_from + i] {
            assert(x[i as int] != y[i as int]);
            return false;
        }
        i += 1;
    }
    assert(x =~= y);
    true
}

/// Decides whether `s` begins with `prefix`.
pub fn has_prefix(s: &[char], prefix: &[char]) -> (r: bool)
    ensures
        r == prefix@.is_prefix_of(s@),
{
    if prefix.len() > s.len() {
        return false;
    }
    assert(prefix@.subrange(0, prefix.len() as int) =~= prefix@);
    same_chars(prefix, 0, prefix.len(), s, 0, prefix.len())
}

/// Decides whether `s` ends with `suffix`.
pub fn has_suffix(s: &[char], suffix: &[char]) -> (r: bool)
    ensures
        r == suffix@.is_suffix_of(s@),
{
    if suffix.len() > s.len() {
        return false;
    }
    assert(suffix@.subrange(0, suffix.len() as int) =~= suffix@);
    same_chars(suffix, 0, suffix.len(), s, s.len() - suffix.len(), s.len())
}

/// The UTF-8 encoding of a text is the encoding of its first part followed
/// by the encoding of the rest.
pub proof fn lemma_encode_utf8_concat(a: Seq<char>, b: Seq<char>)
    ensures
        encode_utf8(a + b) == encode_utf8(a) + encode_utf8(b),
    decreases a.len(),
{
    if a.len() == 0 {
        assert(a + b =~= b);
        assert(encode_utf8(a) + encode_utf8(b) =~= encode_utf8(b));
    } else {
        assert((a + b).drop_first() =~= a.drop_first() + b);
        lemma_encode_utf8_concat(a.drop_first(), b);
        assert(encode_utf8(a + b) =~= encode_utf8(a) + encode_utf8(b));
    }
}

/// Appends the UTF-8 encoding of `s` to `output`.
pub fn append_text(output: &mut Vec<u8>, s: &str)
    ensures
        final(output)@ == old(output)@ + encode_utf8(s@),
{
    output.extend_from_slice(s.as_bytes());
    assert(output@ =~= old(output)@ + encode_utf8(s@));
}

} // verus!
