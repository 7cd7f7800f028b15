//! The paths in a list: the stretches of text between spaces and line
//! breaks.

use crate::token_lemmas::lemma_token_end_bounds;
use vstd::prelude::*;

verus! {

/// The characters that part one path of a list from the next.
pub open spec fn is_delimiter(c: char) -> bool {
    c == ' ' || c == '\n'
}

/// Where the stretch without delimiters that begins at `from` ends: at the
/// next delimiter, or at the end of the text.
pub open spec fn token_end(s: Seq<char>, from: int) -> int
    decreases s.len() - from,
{
    if from >= s.len() {
        s.len() as int
    } else if is_delimiter(s[from]) {
        from
    } else {
        token_end(s, from + 1)
    }
}

/// The tokens of `s[from..]`, in order: what lies between delimiters,
/// without the stretches that are empty.
pub open spec fn tokens_from(s: Seq<char>, from: int) -> Seq<Seq<char>>
    decreases s.len() + 1 - from,
    via tokens_from_decreases
{
    if from >= s.len() {
        Seq::empty()
    } else {
        let e = token_end(s, from);
        if e == from {
            tokens_from(s, e + 1)
        } else {
            seq![s.subrange(from, e)] + tokens_from(s, e + 1)
        }
    }
}

#[via_fn]
proof fn tokens_from_decreases(s: Seq<char>, from: int) {
    if from < s.len() {
        lemma_token_end_bounds(s, from);
    }
}

/// The tokens of a text.
pub open spec fn tokens(s: Seq<char>) -> Seq<Seq<char>> {
    tokens_from(s, 0)
}

/// Computes [`token_end`].
pub fn find_token_end(s: &[char], from: usize) -> (e: usize)
    requires
        from <= s.len(),
    ensures
        e == token_end(s@, from as int),
        from <= e <= s.len(),
{
    let mut e: usize = from;
    while e < s.len() && s[e] != ' ' && s[e] != '\n'
        invariant
            from <= e <= s.len(),
            token_end(s@, from as int) == token_end(s@, e as int),
        decreases s.len() - e,
    {
        e += 1;
    }
    e
}

/// Finds the first token at or after `from`: its bounds, and where the
/// search for the one after it begins.
pub fn next_token(s: &[char], from: usize) -> (r: Option<(usize, usize, usize)>)
    requires
        from <= s.len(),
    ensures
        match r {
            Some((b, e, next)) => {
                &&& from <= b < e <= next <= s.len()
                &&& e == token_end(s@, b as int)
                &&& next == if e < s.len() {
                    e + 1
                } else {
                    e as int
                }
                &&& tokens_from(s@, from as int) == seq![s@.subrange(b as int, e as int)]
                    + tokens_from(s@, next as int)
            },
            None => tokens_from(s@, from as int) == Seq::<Seq<char>>::empty(),
        },
{
    let mut i: usize = from;
    while i < s.len()
        invariant
            from <= i <= s.len(),
            tokens_from(s@, from as int) == tokens_from(s@, i as int),
        decreases s.len() - i,
    {
        let e = find_token_end(s, i);
        let next = if e < s.len() {
            e + 1
        } else {
            e
        };
        assert(tokens_from(s@, e + 1) == tokens_from(s@, next as int));
        if e > i {
            return Some((i, e, next));
        }
        i = next;
    }
    None
}

} // verus!
