//! Borrowing a run of characters out of a `&str` by its character positions.
//!
//! A `&str` is addressed by byte offsets. The lexer keeps, next to each
//! character position `i`, the byte offset `utf8_len(s@.take(i))`, and the
//! functions here turn such pairs into characters and sub-slices.
use vstd::prelude::*;
use vstd::string::StringSliceAdditionalSpecFns;
use vstd::utf8::{
    encode_scalar,
    encode_utf8,
    encode_utf8_decode_utf8,
    encode_utf8_first_scalar,
    encode_utf8_valid_utf8,
    is_char_boundary,
};

verus! {

/// The number of bytes that `s` takes in UTF-8.
pub open spec fn utf8_len(s: Seq<char>) -> nat {
    encode_utf8(s).len()
}

/// Encoding two sequences one after the other is encoding their concatenation.
pub proof fn lemma_encode_concat(a: Seq<char>, b: Seq<char>)
    ensures
        encode_utf8(a + b) == encode_utf8(a) + encode_utf8(b),
    decreases a.len(),
{
    if a.len() == 0 {
        assert(a + b =~= b);
        assert(encode_utf8(a) + encode_utf8(b) =~= encode_utf8(b));
    } else {
        assert((a + b).drop_first() =~= a.drop_first() + b);
        lemma_encode_concat(a.drop_first(), b);
        assert(encode_utf8(a + b) =~= encode_utf8(a) + encode_utf8(b));
    }
}

/// Where the encoding of `a` ends inside the encoding of `a + b` a character
/// begins (or the bytes end).
pub proof fn lemma_boundary(a: Seq<char>, b: Seq<char>)
    ensures
        is_char_boundary(encode_utf8(a + b), encode_utf8(a).len() as int),
    decreases a.len(),
{
    let bytes = encode_utf8(a + b);
    encode_utf8_valid_utf8(a + b);
    lemma_encode_concat(a, b);
    if a.len() > 0 {
        encode_utf8_first_scalar(a + b);
        assert((a + b).drop_first() =~= a.drop_first() + b);
        assert((a + b)[0] == a[0]);
        lemma_encode_concat(a.drop_first(), b);
        lemma_boundary(a.drop_first(), b);
        assert(vstd::utf8::pop_first_scalar(bytes) =~= encode_utf8(a.drop_first() + b));
    }
}

/// The encoding of a prefix is a prefix of the encoding, one character's
/// bytes shorter than the encoding of the prefix one longer.
pub proof fn lemma_prefix_len(s: Seq<char>, i: int)
    requires
        0 <= i <= s.len(),
    ensures
        utf8_len(s.take(i)) <= utf8_len(s),
        i < s.len() ==> utf8_len(s.take(i)) < utf8_len(s),
        i < s.len() ==> utf8_len(s.take(i + 1)) == utf8_len(s.take(i)) + encode_scalar(
            s[i] as u32,
        ).len(),
        i == s.len() ==> utf8_len(s.take(i)) == utf8_len(s),
{
    assert(s =~= s.take(i) + s.skip(i));
    lemma_encode_concat(s.take(i), s.skip(i));
    if i < s.len() {
        assert(s.take(i + 1) =~= s.take(i) + seq![s[i]]);
        lemma_encode_concat(s.take(i), seq![s[i]]);
        let one = seq![s[i]];
        assert(one.drop_first() =~= Seq::<char>::empty());
        assert(encode_utf8(one.drop_first()) =~= Seq::<u8>::empty());
        assert(encode_utf8(one) =~= encode_scalar(s[i] as u32));
        lemma_prefix_len_le(s, i + 1);
    }
}

proof fn lemma_prefix_len_le(s: Seq<char>, i: int)
    requires
        0 <= i <= s.len(),
    ensures
        utf8_len(s.take(i)) <= utf8_len(s),
{
    assert(s =~= s.take(i) + s.skip(i));
    lemma_encode_concat(s.take(i), s.skip(i));
}

/// The part of `s` from character `i` on, where `at` is its byte offset.
fn suffix<'a>(s: &'a str, at: usize, Ghost(i): Ghost<int>) -> (r: &'a str)
    requires
        0 <= i <= s@.len(),
        at == utf8_len(s@.take(i)),
    ensures
        r@ == s@.skip(i),
{
    proof {
        assert(s@ =~= s@.take(i) + s@.skip(i));
        lemma_encode_concat(s@.take(i), s@.skip(i));
        lemma_boundary(s@.take(i), s@.skip(i));
    }
    let (_, rest) = s.split_at(at);
    proof {
        assert(rest.spec_bytes() =~= encode_utf8(s@.skip(i)));
        encode_utf8_decode_utf8(rest@);
        encode_utf8_decode_utf8(s@.skip(i));
    }
    rest
}

/// The character at position `i` of `s`, where `at` is its byte offset.
pub(crate) fn char_at(s: &str, at: usize, Ghost(i): Ghost<int>) -> (c: char)
    requires
        0 <= i < s@.len(),
        at == utf8_len(s@.take(i)),
    ensures
        c == s@[i],
{
    let rest = suffix(s, at, Ghost(i));
    let mut chars = rest.chars();
    match chars.next() {
        Some(c) => c,
        None => {
            proof {
                assert(false);
            }
            ' '
        },
    }
}

/// The characters of `s` from position `i` up to position `j`, borrowed from
/// `s`, where `from` and `to` are their byte offsets.
pub(crate) fn slice_between<'a>(
    s: &'a str,
    from: usize,
    to: usize,
    Ghost(i): Ghost<int>,
    Ghost(j): Ghost<int>,
) -> (r: &'a str)
    requires
        0 <= i <= j <= s@.len(),
        from == utf8_len(s@.take(i)),
        to == utf8_len(s@.take(j)),
    ensures
        r@ == s@.subrange(i, j),
{
    let rest = suffix(s, from, Ghost(i));
    let ghost mid = s@.subrange(i, j);
    let ghost tail = s@.skip(j);
    proof {
        assert(s@.take(j) =~= s@.take(i) + mid);
        lemma_encode_concat(s@.take(i), mid);
        assert(rest@ =~= mid + tail);
        lemma_encode_concat(mid, tail);
        lemma_boundary(mid, tail);
    }
    let (r, _) = rest.split_at(to - from);
    proof {
        assert(r.spec_bytes() =~= encode_utf8(mid));
        encode_utf8_decode_utf8(r@);
        encode_utf8_decode_utf8(mid);
    }
    r
}

} // verus!
