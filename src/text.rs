//! Text as characters and as UTF-8 bytes: byte offsets of character positions,
//! and zero-copy slices between them.
use vstd::prelude::*;
use vstd::utf8::{
    decode_utf8, encode_scalar, encode_utf8, encode_utf8_first_scalar, is_char_boundary,
    pop_first_scalar,
};

use crate::config::is_line_break;

verus! {

broadcast use {vstd::utf8::encode_utf8_valid_utf8, vstd::utf8::encode_utf8_decode_utf8};

/// What `str::trim` leaves of `s`.
pub uninterp spec fn trimmed(s: Seq<char>) -> Seq<char>;

/// Relies on `str::trim`: it removes the leading and trailing white space of
/// `s`, so the result depends on the characters of `s` alone, and does not end
/// with `\n` or `\r`, which Unicode counts as white space.
#[verifier::external_body]
pub(crate) fn trim(s: &str) -> (r: &str)
    ensures
        r@ == trimmed(s@),
        r@.len() > 0 ==> !is_line_break(r@.last()),
{
    s.trim()
}

/// The number of bytes in the UTF-8 encoding of `s`.
pub open spec fn byte_len(s: Seq<char>) -> nat {
    encode_utf8(s).len()
}

/// The UTF-8 encoding of a concatenation is the concatenation of the encodings.
pub proof fn lemma_encode_concat(a: Seq<char>, b: Seq<char>)
    ensures
        encode_utf8(a + b) == encode_utf8(a) + encode_utf8(b),
    decreases a.len(),
{
    if a.len() == 0 {
        assert(a + b =~= b);
        assert(encode_utf8(a) + encode_utf8(b) =~= encode_utf8(b));
    } else {
        assert((a + b).drop_first() =~= a.drop_first() + b);
        lemma_encode_concat(a.drop_first(), b);
        assert(encode_utf8(a + b) =~= encode_utf8(a) + encode_utf8(b));
    }
}

/// A single character encodes as its scalar's bytes.
pub proof fn lemma_encode_single(c: char)
    ensures
        encode_utf8(seq![c]) == encode_scalar(c as u32),
{
    reveal_with_fuel(encode_utf8, 2);
    assert(seq![c].drop_first() =~= Seq::<char>::empty());
    assert(encode_utf8(seq![c]) =~= encode_scalar(c as u32));
}

/// Characters are determined by their encoding.
pub proof fn lemma_encode_injective(a: Seq<char>, b: Seq<char>)
    requires
        encode_utf8(a) == encode_utf8(b),
    ensures
        a == b,
{
    assert(decode_utf8(encode_utf8(a)) == a);
    assert(decode_utf8(encode_utf8(b)) == b);
}

/// The byte offset of position `k + 1` is that of position `k` plus the width
/// of the character at `k`; byte offsets never pass the end of the text.
pub proof fn lemma_byte_len_step(s: Seq<char>, k: int)
    requires
        0 <= k < s.len(),
    ensures
        byte_len(s.take(k + 1)) == byte_len(s.take(k)) + encode_scalar(s[k] as u32).len(),
        byte_len(s.take(k + 1)) <= byte_len(s),
{
    assert(s.take(k + 1) =~= s.take(k) + seq![s[k]]);
    lemma_encode_concat(s.take(k), seq![s[k]]);
    lemma_encode_single(s[k]);
    assert(s =~= s.take(k + 1) + s.skip(k + 1));
    lemma_encode_concat(s.take(k + 1), s.skip(k + 1));
}

/// Byte offsets grow strictly with the character position.
pub proof fn lemma_byte_len_strict(s: Seq<char>, a: int, b: int)
    requires
        0 <= a < b <= s.len(),
    ensures
        byte_len(s.take(a)) < byte_len(s.take(b)),
    decreases b - a,
{
    lemma_byte_len_step(s, b - 1);
    if a < b - 1 {
        lemma_byte_len_strict(s, a, b - 1);
    }
}

/// The byte offset of every character position is a character boundary.
pub proof fn lemma_char_boundary(s: Seq<char>, k: int)
    requires
        0 <= k <= s.len(),
    ensures
        is_char_boundary(encode_utf8(s), byte_len(s.take(k)) as int),
    decreases k,
{
    let bytes = encode_utf8(s);
    if k == 0 {
        assert(s.take(0) =~= Seq::<char>::empty());
    } else {
        encode_utf8_first_scalar(s);
        let rest = s.drop_first();
        assert(pop_first_scalar(bytes) =~= encode_utf8(rest));
        assert(s.take(k) =~= seq![s[0]] + rest.take(k - 1));
        lemma_encode_concat(seq![s[0]], rest.take(k - 1));
        lemma_encode_single(s[0]);
        assert(s =~= s.take(k) + s.skip(k));
        lemma_encode_concat(s.take(k), s.skip(k));
        lemma_char_boundary(rest, k - 1);
    }
}

/// The number of bytes in the UTF-8 encoding of `c`.
pub fn utf8_width(c: char) -> (r: usize)
    ensures
        r == encode_scalar(c as u32).len(),
        1 <= r <= 4,
{
    proof {
        vstd::utf8::char_is_scalar(c);
    }
    let v: u32 = c as u32;
    if v <= 0x7F {
        1
    } else if v <= 0x7FF {
        2
    } else if v <= 0xFFFF {
        3
    } else {
        4
    }
}

/// The number of bytes in `text`.
pub fn byte_length(text: &str) -> (r: usize)
    ensures
        r == byte_len(text@),
{
    text.as_bytes().len()
}

/// The part of `text` from character position `cf` up to `ct`, given as the
/// byte offsets `from` and `to` of those positions. No bytes are copied.
pub fn slice_between<'a>(
    text: &'a str,
    from: usize,
    to: usize,
    Ghost(cf): Ghost<int>,
    Ghost(ct): Ghost<int>,
) -> (r: &'a str)
    requires
        0 <= cf <= ct <= text@.len(),
        from == byte_len(text@.take(cf)),
        to == byte_len(text@.take(ct)),
    ensures
        r@ == text@.subrange(cf, ct),
{
    let ghost s = text@;
    proof {
        lemma_char_boundary(s, ct);
        assert(s =~= s.take(ct) + s.skip(ct));
        lemma_encode_concat(s.take(ct), s.skip(ct));
        assert(encode_utf8(s).subrange(0, to as int) =~= encode_utf8(s.take(ct)));
    }
    let (head, _) = text.split_at(to);
    let ghost h = head@;
    proof {
        lemma_encode_injective(h, s.take(ct));
        assert(h.take(cf) =~= s.take(cf));
        lemma_char_boundary(h, cf);
        assert(h =~= h.take(cf) + h.skip(cf));
        lemma_encode_concat(h.take(cf), h.skip(cf));
        assert(encode_utf8(h).subrange(from as int, encode_utf8(h).len() as int) =~= encode_utf8(
            h.skip(cf),
        ));
    }
    let (_, r) = head.split_at(from);
    proof {
        lemma_encode_injective(r@, h.skip(cf));
        assert(h.skip(cf) =~= s.subrange(cf, ct));
    }
    r
}

} // verus!
