//! Properties of tokenizing that hold for every input.
use crate::classify::{is_paren, is_white_space, is_word_char};
use crate::model::{gaps_of, interleave, is_token, joined, lemma_word_len, lemma_word_len_exact, tokens_of, word_len};
use vstd::prelude::*;

verus! {

/// Every token of every text is well formed: one parenthesis, or a non-empty
/// run of word characters.
pub proof fn lemma_tokens_well_formed(s: Seq<char>)
    ensures
        forall|i: int| 0 <= i < tokens_of(s).len() ==> is_token(#[trigger] tokens_of(s)[i]),
    decreases s.len(),
{
    if s.len() == 0 {
    } else if is_white_space(s[0]) {
        assert(tokens_of(s) == tokens_of(s.drop_first()));
        lemma_tokens_well_formed(s.drop_first());
    } else if is_paren(s[0]) {
        lemma_tokens_well_formed(s.drop_first());
        let ts = tokens_of(s);
        assert(ts == seq![s.take(1)] + tokens_of(s.drop_first()));
        assert forall|i: int| 0 <= i < ts.len() implies is_token(#[trigger] ts[i]) by {
            if i > 0 {
                assert(ts[i] == tokens_of(s.drop_first())[i - 1]);
            } else {
                assert(ts[0] == s.take(1));
            }
        }
    } else {
        let n = word_len(s) as int;
        lemma_word_len(s);
        lemma_tokens_well_formed(s.skip(n));
        let ts = tokens_of(s);
        assert(ts == seq![s.take(n)] + tokens_of(s.skip(n)));
        assert forall|i: int| 0 <= i < ts.len() implies is_token(#[trigger] ts[i]) by {
            if i > 0 {
                assert(ts[i] == tokens_of(s.skip(n))[i - 1]);
            } else {
                assert(ts[0] == s.take(n));
                assert forall|k: int| 0 <= k < ts[0].len() implies is_word_char(#[trigger] ts[0][k]) by {
                    assert(ts[0][k] == s[k]);
                }
            }
        }
    }
}

/// No token is empty, and no token holds a whitespace character.
pub proof fn law_tokens_non_empty_without_whitespace(s: Seq<char>)
    ensures
        forall|i: int| 0 <= i < tokens_of(s).len() ==> #[trigger] tokens_of(s)[i].len() > 0,
        forall|i: int, k: int|
            0 <= i < tokens_of(s).len() && 0 <= k < tokens_of(s)[i].len() ==> !is_white_space(
                #[trigger] tokens_of(s)[i][k],
            ),
{
    lemma_tokens_well_formed(s);
    assert forall|i: int, k: int|
        0 <= i < tokens_of(s).len() && 0 <= k < tokens_of(s)[i].len() implies !is_white_space(
        #[trigger] tokens_of(s)[i][k],
    ) by {
        assert(is_token(tokens_of(s)[i]));
    }
}

/// A token that holds a parenthesis is that parenthesis alone.
pub proof fn law_parens_stand_alone(s: Seq<char>)
    ensures
        forall|i: int, k: int|
            0 <= i < tokens_of(s).len() && 0 <= k < tokens_of(s)[i].len() && is_paren(
                #[trigger] tokens_of(s)[i][k],
            ) ==> tokens_of(s)[i].len() == 1,
{
    lemma_tokens_well_formed(s);
    assert forall|i: int, k: int|
        0 <= i < tokens_of(s).len() && 0 <= k < tokens_of(s)[i].len() && is_paren(
            #[trigger] tokens_of(s)[i][k],
        ) implies tokens_of(s)[i].len() == 1 by {
        assert(is_token(tokens_of(s)[i]));
    }
}

/// A text of whitespace alone, the empty text among them, has no tokens.
pub proof fn law_whitespace_only_has_no_tokens(s: Seq<char>)
    requires
        forall|k: int| 0 <= k < s.len() ==> is_white_space(#[trigger] s[k]),
    ensures
        tokens_of(s) == Seq::<Seq<char>>::empty(),
    decreases s.len(),
{
    if s.len() > 0 {
        assert(is_white_space(s[0]));
        assert forall|k: int| 0 <= k < s.len() - 1 implies is_white_space(
            #[trigger] s.drop_first()[k],
        ) by {
            assert(s.drop_first()[k] == s[k + 1]);
        }
        law_whitespace_only_has_no_tokens(s.drop_first());
    }
}

/// A well-formed token, followed by a space and then `rest`, lexes as that
/// token followed by the tokens of `rest`.
proof fn lemma_token_then_space(t: Seq<char>, rest: Seq<char>)
    requires
        is_token(t),
    ensures
        tokens_of(t + seq![' '] + rest) == seq![t] + tokens_of(rest),
{
    let x = t + seq![' '] + rest;
    let after = seq![' '] + rest;
    assert(x[0] == t[0]);
    assert(is_white_space(' '));
    assert(after.drop_first() =~= rest);
    assert(after[0] == ' ');
    assert(tokens_of(after) == tokens_of(rest));
    if t.len() == 1 && is_paren(t[0]) {
        assert(x.take(1) =~= t);
        assert(x.drop_first() =~= after);
        assert(tokens_of(x) == seq![x.take(1)] + tokens_of(x.drop_first()));
    } else {
        let n = t.len() as int;
        assert forall|k: int| 0 <= k < n implies is_word_char(#[trigger] x[k]) by {
            assert(x[k] == t[k]);
        }
        assert(x[n] == ' ');
        lemma_word_len_exact(x, n);
        assert(x.take(n) =~= t);
        assert(x.skip(n) =~= after);
        assert(is_word_char(x[0]));
        assert(tokens_of(x) == seq![x.take(n)] + tokens_of(x.skip(n)));
    }
}

/// A well-formed token alone lexes as itself.
proof fn lemma_token_alone(t: Seq<char>)
    requires
        is_token(t),
    ensures
        tokens_of(t) == seq![t],
{
    if t.len() == 1 && is_paren(t[0]) {
        assert(t.take(1) =~= t);
        assert(t.drop_first() =~= Seq::<char>::empty());
        assert(tokens_of(t) == seq![t.take(1)] + tokens_of(t.drop_first()));
    } else {
        let n = t.len() as int;
        lemma_word_len_exact(t, n);
        assert(t.take(n) =~= t);
        assert(t.skip(n) =~= Seq::<char>::empty());
        assert(is_word_char(t[0]));
        assert(tokens_of(t) == seq![t.take(n)] + tokens_of(t.skip(n)));
    }
    assert(seq![t] + Seq::<Seq<char>>::empty() =~= seq![t]);
}

/// Well-formed tokens written out with single spaces between them lex back
/// into the same tokens.
pub proof fn lemma_joined_tokens(ts: Seq<Seq<char>>)
    requires
        forall|i: int| 0 <= i < ts.len() ==> is_token(#[trigger] ts[i]),
    ensures
        tokens_of(joined(ts)) == ts,
    decreases ts.len(),
{
    if ts.len() == 0 {
        assert(tokens_of(joined(ts)) =~= ts);
    } else if ts.len() == 1 {
        assert(is_token(ts[0]));
        lemma_token_alone(ts[0]);
        assert(seq![ts[0]] =~= ts);
    } else {
        let rest = ts.drop_first();
        assert(is_token(ts[0]));
        assert forall|i: int| 0 <= i < rest.len() implies is_token(#[trigger] rest[i]) by {
            assert(rest[i] == ts[i + 1]);
        }
        lemma_joined_tokens(rest);
        lemma_token_then_space(ts[0], joined(rest));
        assert(seq![ts[0]] + rest =~= ts);
    }
}

/// Lexing the tokens of a text written out with single spaces between them
/// gives the same tokens again.
pub proof fn law_retokenize_joined(s: Seq<char>)
    ensures
        tokens_of(joined(tokens_of(s))) == tokens_of(s),
{
    lemma_tokens_well_formed(s);
    lemma_joined_tokens(tokens_of(s));
}

/// The tokens, with the whitespace runs put back between them where they
/// stood, give the text back: nothing but whitespace is dropped, nothing is
/// reordered, and no character is in two tokens.
pub proof fn law_tokens_and_gaps_rebuild_text(s: Seq<char>)
    ensures
        gaps_of(s).len() == tokens_of(s).len() + 1,
        forall|i: int, k: int|
            0 <= i < gaps_of(s).len() && 0 <= k < gaps_of(s)[i].len() ==> is_white_space(
                #[trigger] gaps_of(s)[i][k],
            ),
        interleave(gaps_of(s), tokens_of(s)) == s,
    decreases s.len(),
{
    let gs = gaps_of(s);
    let ts = tokens_of(s);
    if s.len() == 0 {
        assert(interleave(gs, ts) =~= s);
    } else if is_white_space(s[0]) {
        let d = s.drop_first();
        law_tokens_and_gaps_rebuild_text(d);
        let g = gaps_of(d);
        assert(gs == g.update(0, seq![s[0]] + g[0]));
        assert(ts == tokens_of(d));
        assert forall|i: int, k: int| 0 <= i < gs.len() && 0 <= k < gs[i].len() implies is_white_space(
            #[trigger] gs[i][k],
        ) by {
            if i == 0 && k > 0 {
                assert(gs[0][k] == g[0][k - 1]);
            }
        }
        if ts.len() == 0 {
            assert(interleave(gs, ts) =~= s);
        } else {
            assert(gs.drop_first() =~= g.drop_first());
            assert(interleave(gs, ts) =~= seq![s[0]] + interleave(g, ts));
            assert(seq![s[0]] + d =~= s);
        }
    } else if is_paren(s[0]) {
        let d = s.drop_first();
        law_tokens_and_gaps_rebuild_text(d);
        assert(gs == seq![Seq::<char>::empty()] + gaps_of(d));
        assert(ts == seq![s.take(1)] + tokens_of(d));
        assert forall|i: int, k: int| 0 <= i < gs.len() && 0 <= k < gs[i].len() implies is_white_space(
            #[trigger] gs[i][k],
        ) by {
            assert(gs[i] == gaps_of(d)[i - 1]);
        }
        assert(gs.drop_first() =~= gaps_of(d));
        assert(ts.drop_first() =~= tokens_of(d));
        assert(interleave(gs, ts) =~= s.take(1) + d);
        assert(s.take(1) + d =~= s);
    } else {
        lemma_word_len(s);
        let n = word_len(s) as int;
        let d = s.skip(n);
        law_tokens_and_gaps_rebuild_text(d);
        assert(gs == seq![Seq::<char>::empty()] + gaps_of(d));
        assert(ts == seq![s.take(n)] + tokens_of(d));
        assert forall|i: int, k: int| 0 <= i < gs.len() && 0 <= k < gs[i].len() implies is_white_space(
            #[trigger] gs[i][k],
        ) by {
            assert(gs[i] == gaps_of(d)[i - 1]);
        }
        assert(gs.drop_first() =~= gaps_of(d));
        assert(ts.drop_first() =~= tokens_of(d));
        assert(interleave(gs, ts) =~= s.take(n) + d);
        assert(s.take(n) + d =~= s);
    }
}

} // verus!
