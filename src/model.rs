//! The meaning of tokenizing, stated over sequences of characters.
use crate::classify::{is_paren, is_white_space, is_word_char};
use vstd::prelude::*;

verus! {

/// The length of the run of word characters that `s` starts with.
pub open spec fn word_len(s: Seq<char>) -> nat
    decreases s.len(),
{
    if s.len() > 0 && is_word_char(s[0]) {
        1 + word_len(s.drop_first())
    } else {
        0
    }
}

/// The tokens of `s`, left to right: whitespace is dropped, a parenthesis is
/// a token of one character, and a maximal run of word characters is a token.
pub open spec fn tokens_of(s: Seq<char>) -> Seq<Seq<char>>
    decreases s.len(),
    via tokens_of_decreases
{
    if s.len() == 0 {
        seq![]
    } else if is_white_space(s[0]) {
        tokens_of(s.drop_first())
    } else if is_paren(s[0]) {
        seq![s.take(1)] + tokens_of(s.drop_first())
    } else {
        seq![s.take(word_len(s) as int)] + tokens_of(s.skip(word_len(s) as int))
    }
}

#[via_fn]
proof fn tokens_of_decreases(s: Seq<char>) {
    lemma_word_len(s);
}

/// The word run at the start of `s` lies within `s`, holds word characters
/// only, cannot be extended, and is not empty when `s` starts with a word
/// character.
pub proof fn lemma_word_len(s: Seq<char>)
    ensures
        word_len(s) <= s.len(),
        s.len() > 0 && is_word_char(s[0]) ==> word_len(s) >= 1,
        forall|k: int| 0 <= k < word_len(s) ==> is_word_char(#[trigger] s[k]),
        word_len(s) < s.len() ==> !is_word_char(s[word_len(s) as int]),
    decreases s.len(),
{
    if s.len() > 0 && is_word_char(s[0]) {
        lemma_word_len(s.drop_first());
        assert forall|k: int| 0 <= k < word_len(s) implies is_word_char(#[trigger] s[k]) by {
            if k > 0 {
                assert(s[k] == s.drop_first()[k - 1]);
            }
        }
    }
}

/// A run of `n` word characters that ends at the end of `s` or before a
/// character of another kind is the word run that `s` starts with.
pub proof fn lemma_word_len_exact(s: Seq<char>, n: int)
    requires
        0 <= n <= s.len(),
        forall|k: int| 0 <= k < n ==> is_word_char(#[trigger] s[k]),
        n < s.len() ==> !is_word_char(s[n]),
    ensures
        word_len(s) == n,
    decreases n,
{
    if n > 0 {
        assert forall|k: int| 0 <= k < n - 1 implies is_word_char(#[trigger] s.drop_first()[k]) by {
            assert(s.drop_first()[k] == s[k + 1]);
        }
        lemma_word_len_exact(s.drop_first(), n - 1);
    }
}

/// A well-formed token: one parenthesis, or a non-empty run of word characters.
pub open spec fn is_token(t: Seq<char>) -> bool {
    ||| (t.len() == 1 && is_paren(t[0]))
    ||| (t.len() > 0 && forall|k: int| 0 <= k < t.len() ==> is_word_char(#[trigger] t[k]))
}

/// The tokens written out one after the other, with one space between two
/// neighbours.
pub open spec fn joined(ts: Seq<Seq<char>>) -> Seq<char>
    decreases ts.len(),
{
    if ts.len() == 0 {
        seq![]
    } else if ts.len() == 1 {
        ts[0]
    } else {
        ts[0] + seq![' '] + joined(ts.drop_first())
    }
}

/// The whitespace runs of `s` that lie around its tokens: the one before the
/// first token, one between each two neighbours, and the one after the last
/// (each possibly empty).
pub open spec fn gaps_of(s: Seq<char>) -> Seq<Seq<char>>
    decreases s.len(),
    via gaps_of_decreases
{
    if s.len() == 0 {
        seq![Seq::<char>::empty()]
    } else if is_white_space(s[0]) {
        let g = gaps_of(s.drop_first());
        g.update(0, seq![s[0]] + g[0])
    } else if is_paren(s[0]) {
        seq![Seq::<char>::empty()] + gaps_of(s.drop_first())
    } else {
        seq![Seq::<char>::empty()] + gaps_of(s.skip(word_len(s) as int))
    }
}

#[via_fn]
proof fn gaps_of_decreases(s: Seq<char>) {
    lemma_word_len(s);
}

/// The gaps and the tokens laid out in turn: a gap, a token, a gap, and so on,
/// ending with the last gap.
pub open spec fn interleave(gaps: Seq<Seq<char>>, ts: Seq<Seq<char>>) -> Seq<char>
    decreases ts.len(),
{
    if ts.len() == 0 {
        if gaps.len() > 0 {
            gaps[0]
        } else {
            Seq::<char>::empty()
        }
    } else {
        gaps[0] + ts[0] + interleave(gaps.drop_first(), ts.drop_first())
    }
}

} // verus!
