//! What follows from the way a list is cut into tokens.

use crate::tokens::{is_delimiter, token_end, tokens, tokens_from};
use vstd::prelude::*;

verus! {

/// A token ends at or after its beginning, within the text.
pub proof fn lemma_token_end_bounds(s: Seq<char>, from: int)
    requires
        from <= s.len(),
    ensures
        from <= token_end(s, from) <= s.len(),
    decreases s.len() - from,
{
    if from < s.len() && !is_delimiter(s[from]) {
        lemma_token_end_bounds(s, from + 1);
    }
}

/// A token that is closed by a delimiter before `n` ends where it ends in
/// any other text with the same first `n` characters.
pub proof fn lemma_token_end_of_prefix(s: Seq<char>, t: Seq<char>, from: int, n: int)
    requires
        0 <= from < n,
        n <= s.len(),
        n <= t.len(),
        forall|i: int| 0 <= i < n ==> s[i] == t[i],
        is_delimiter(s[n - 1]),
    ensures
        token_end(s, from) == token_end(t, from),
        from <= token_end(s, from) < n,
    decreases n - from,
{
    if !is_delimiter(s[from]) {
        lemma_token_end_of_prefix(s, t, from + 1, n);
    }
}

/// The end of a token does not depend on what comes before the token.
pub proof fn lemma_token_end_shifted(front: Seq<char>, s: Seq<char>, from: int)
    requires
        0 <= from <= s.len(),
    ensures
        token_end(front + s, front.len() + from) == front.len() + token_end(s, from),
    decreases s.len() - from,
{
    let t = front + s;
    if from < s.len() {
        assert(t[front.len() + from] == s[from]);
        if !is_delimiter(s[from]) {
            lemma_token_end_shifted(front, s, from + 1);
        }
    }
}

/// A delimiter at the end of a text closes the last token where the text
/// ended.
pub proof fn lemma_token_end_with_delimiter(s: Seq<char>, d: char, from: int)
    requires
        is_delimiter(d),
        0 <= from <= s.len(),
    ensures
        token_end(s + seq![d], from) == token_end(s, from),
    decreases s.len() - from,
{
    let t = s + seq![d];
    if from < s.len() {
        assert(t[from] == s[from]);
        if !is_delimiter(s[from]) {
            lemma_token_end_with_delimiter(s, d, from + 1);
        }
    } else {
        assert(is_delimiter(t[from]));
    }
}

/// The tokens of a text that goes on after a delimiter: those up to the
/// delimiter, and then those after it.
pub proof fn lemma_tokens_split(base: Seq<char>, rest: Seq<char>, from: int)
    requires
        base.len() > 0,
        is_delimiter(base.last()),
        0 <= from <= base.len(),
    ensures
        tokens_from(base + rest, from) == tokens_from(base, from) + tokens_from(
            base + rest,
            base.len() as int,
        ),
    decreases base.len() - from,
{
    let s = base + rest;
    let n = base.len() as int;
    if from < n {
        lemma_token_end_of_prefix(base, s, from, n);
        let e = token_end(base, from);
        assert(s.subrange(from, e) =~= base.subrange(from, e));
        lemma_tokens_split(base, rest, e + 1);
    }
    assert(tokens_from(s, from) =~= tokens_from(base, from) + tokens_from(s, n));
}

/// The tokens of a text do not depend on what comes before them.
pub proof fn lemma_tokens_shifted(front: Seq<char>, s: Seq<char>, from: int)
    requires
        0 <= from,
    ensures
        tokens_from(front + s, front.len() + from) == tokens_from(s, from),
    decreases s.len() + 1 - from,
{
    let t = front + s;
    let k = front.len() as int;
    if from < s.len() {
        lemma_token_end_bounds(s, from);
        lemma_token_end_shifted(front, s, from);
        let e = token_end(s, from);
        assert(t.subrange(k + from, k + e) =~= s.subrange(from, e));
        lemma_tokens_shifted(front, s, e + 1);
    }
}

/// A delimiter at the end of a text adds no token.
pub proof fn lemma_tokens_with_delimiter(s: Seq<char>, d: char, from: int)
    requires
        is_delimiter(d),
        0 <= from,
    ensures
        tokens_from(s + seq![d], from) == tokens_from(s, from),
    decreases s.len() + 1 - from,
{
    let t = s + seq![d];
    if from < s.len() {
        lemma_token_end_bounds(s, from);
        lemma_token_end_with_delimiter(s, d, from);
        let e = token_end(s, from);
        assert(t.subrange(from, e) =~= s.subrange(from, e));
        lemma_tokens_with_delimiter(s, d, e + 1);
    } else if from == s.len() {
        assert(is_delimiter(t[from]));
        assert(tokens_from(t, from + 1) =~= Seq::<Seq<char>>::empty());
    }
}

/// Two lists with a delimiter between them hold the paths of the first
/// list, and then those of the second.
pub proof fn lemma_tokens_of_joined(a: Seq<char>, d: char, b: Seq<char>)
    requires
        is_delimiter(d),
    ensures
        tokens(a + seq![d] + b) == tokens(a) + tokens(b),
{
    let base = a + seq![d];
    lemma_tokens_split(base, b, 0);
    lemma_tokens_with_delimiter(a, d, 0);
    lemma_tokens_shifted(base, b, 0);
}

/// A token ends at `k` if no delimiter comes before `k` and `k` holds one
/// or is the end of the text.
pub proof fn lemma_token_end_is(s: Seq<char>, from: int, k: int)
    requires
        0 <= from <= k <= s.len(),
        forall|i: int| from <= i < k ==> !is_delimiter(#[trigger] s[i]),
        k == s.len() || is_delimiter(s[k]),
    ensures
        token_end(s, from) == k,
    decreases k - from,
{
    if from < k {
        lemma_token_end_is(s, from + 1, k);
    }
}

/// A text without delimiters that is not empty is one token.
pub proof fn lemma_tokens_of_one(t: Seq<char>)
    requires
        t.len() > 0,
        forall|i: int| 0 <= i < t.len() ==> !is_delimiter(#[trigger] t[i]),
    ensures
        tokens(t) == seq![t],
{
    lemma_token_end_is(t, 0, t.len() as int);
    assert(t.subrange(0, t.len() as int) =~= t);
    assert(tokens_from(t, (t.len() + 1) as int) =~= Seq::<Seq<char>>::empty());
    assert(tokens(t) =~= seq![t]);
}

} // verus!
