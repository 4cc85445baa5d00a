//! The lexer: one left-to-right pass over the characters of the input.
use crate::classify::{is_parenthesis, is_whitespace, is_word_char, utf8_width};
use crate::model::{lemma_word_len_exact, tokens_of};
use crate::slices::{char_at, lemma_prefix_len, slice_between, utf8_len};
use vstd::prelude::*;

verus! {

/// The characters of each token, in order.
pub open spec fn token_chars(tokens: Seq<&str>) -> Seq<Seq<char>> {
    tokens.map_values(|t: &str| t@)
}

/// Splits `input` into its tokens, left to right. Each token is a slice of
/// `input`: a single `(` or `)`, or a maximal run of characters that are
/// neither whitespace nor parentheses. Whitespace produces no token.
pub fn tokenize(input: &str) -> (tokens: Vec<&str>)
    ensures
        token_chars(tokens@) == tokens_of(input@),
{
    let mut tokens: Vec<&str> = Vec::new();
    let mut start: usize = 0;
    let ghost mut i: int = 0;
    let len = input.as_bytes().len();
    proof {
        lemma_prefix_len(input@, 0);
        assert(input@.skip(0) =~= input@);
        assert(token_chars(tokens@) =~= Seq::<Seq<char>>::empty());
        assert(Seq::<Seq<char>>::empty() + tokens_of(input@) =~= tokens_of(input@));
    }
    while start < len
        invariant
            0 <= i <= input@.len(),
            start == utf8_len(input@.take(i)),
            len == utf8_len(input@),
            (i < input@.len()) == (start < len),
            token_chars(tokens@) + tokens_of(input@.skip(i)) == tokens_of(input@),
        decreases len - start,
    {
        proof {
            lemma_prefix_len(input@, i);
        }
        let ch = char_at(input, start, Ghost(i));
        let w = utf8_width(ch);
        let ghost rest = input@.skip(i);
        proof {
            lemma_prefix_len(input@, i + 1);
            assert(rest[0] == ch);
            assert(rest.drop_first() =~= input@.skip(i + 1));
        }
        if is_whitespace(ch) {
            start = start + w;
            proof {
                i = i + 1;
                lemma_prefix_len(input@, i);
            }
        } else if is_parenthesis(ch) {
            let tok = slice_between(input, start, start + w, Ghost(i), Ghost(i + 1));
            let ghost before = tokens@;
            tokens.push(tok);
            start = start + w;
            proof {
                assert(rest.take(1) =~= input@.subrange(i, i + 1));
                assert(token_chars(tokens@) =~= token_chars(before).push(tok@));
                assert(token_chars(tokens@) + tokens_of(input@.skip(i + 1)) =~= token_chars(before)
                    + tokens_of(rest));
                i = i + 1;
                lemma_prefix_len(input@, i);
            }
        } else {
            let mut end: usize = start;
            let ghost mut j: int = i;
            while end < len
                invariant
                    0 <= i < input@.len(),
                    i <= j <= input@.len(),
                    start == utf8_len(input@.take(i)),
                    end == utf8_len(input@.take(j)),
                    len == utf8_len(input@),
                    (j < input@.len()) == (end < len),
                    forall|k: int| i <= k < j ==> is_word_char(#[trigger] input@[k]),
                ensures
                    i <= j <= input@.len(),
                    end == utf8_len(input@.take(j)),
                    forall|k: int| i <= k < j ==> is_word_char(#[trigger] input@[k]),
                    j < input@.len() ==> !is_word_char(input@[j]),
                decreases len - end,
            {
                proof {
                    lemma_prefix_len(input@, j);
                }
                let c = char_at(input, end, Ghost(j));
                if is_whitespace(c) || is_parenthesis(c) {
                    break;
                }
                proof {
                    lemma_prefix_len(input@, j + 1);
                }
                end = end + utf8_width(c);
                proof {
                    j = j + 1;
                    lemma_prefix_len(input@, j);
                }
            }
            proof {
                assert(j > i);
                assert forall|k: int| 0 <= k < j - i implies is_word_char(#[trigger] rest[k]) by {
                    assert(rest[k] == input@[i + k]);
                }
                if j < input@.len() {
                    assert(rest[j - i] == input@[j]);
                }
                lemma_word_len_exact(rest, j - i);
                lemma_prefix_len(input@, i);
                lemma_prefix_len(input@.take(j), i + 1);
                assert(input@.take(j).take(i + 1) =~= input@.take(i + 1));
            }
            let tok = slice_between(input, start, end, Ghost(i), Ghost(j));
            let ghost before = tokens@;
            tokens.push(tok);
            start = end;
            proof {
                assert(rest.take(j - i) =~= input@.subrange(i, j));
                assert(rest.skip(j - i) =~= input@.skip(j));
                assert(token_chars(tokens@) =~= token_chars(before).push(tok@));
                assert(token_chars(tokens@) + tokens_of(input@.skip(j)) =~= token_chars(before)
                    + tokens_of(rest));
                i = j;
                lemma_prefix_len(input@, i);
            }
        }
    }
    proof {
        if i < input@.len() {
            lemma_prefix_len(input@, i);
        }
        assert(input@.skip(i) =~= Seq::<char>::empty());
        assert(token_chars(tokens@) + Seq::<Seq<char>>::empty() =~= token_chars(tokens@));
    }
    tokens
}

} // verus!
