//! Conversion between codepoint offsets and byte offsets in UTF-8 text.

use vstd::prelude::*;
use vstd::string::StringSliceAdditionalSpecFns;
use vstd::utf8::{encode_utf8, encode_scalar, is_char_boundary, valid_utf8, decode_utf8};

verus! {

/// The number of bytes that the first `k` chars of `chars` take in UTF-8;
/// all of them, if there are fewer than `k`.
pub open spec fn byte_offset(chars: Seq<char>, k: int) -> nat {
    if k >= chars.len() {
        encode_utf8(chars).len()
    } else {
        encode_utf8(chars.take(k)).len()
    }
}

/// `str_indices::chars::count`: the number of chars in the text.
pub assume_specification[ str_indices::chars::count ](text: &str) -> (r: usize)
    ensures
        r == text@.len(),
;

/// `str_indices::chars::to_byte_idx`: the byte index at which the char of
/// index `char_idx` starts, and the length of the text in bytes for any index
/// past its last char.
pub assume_specification[ str_indices::chars::to_byte_idx ](text: &str, char_idx: usize) -> (r:
    usize)
    ensures
        r == byte_offset(text@, char_idx as int),
;

/// `str_indices::chars::from_byte_idx`: the index of the char that the byte
/// of index `byte_idx` belongs to, and the number of chars in the text for
/// any index past its last byte.
pub assume_specification[ str_indices::chars::from_byte_idx ](text: &str, byte_idx: usize) -> (r:
    usize)
    ensures
        r <= text@.len(),
        byte_idx >= text.spec_bytes().len() ==> r == text@.len(),
        byte_idx < text.spec_bytes().len() ==> r < text@.len() && byte_offset(text@, r as int)
            <= byte_idx < byte_offset(text@, r + 1),
;

/// The encoding of a concatenation is the concatenation of the encodings.
pub proof fn lemma_encode_concat(a: Seq<char>, b: Seq<char>)
    ensures
        encode_utf8(a + b) == encode_utf8(a) + encode_utf8(b),
    decreases a.len(),
{
    if a.len() == 0 {
        assert(a + b =~= b);
        assert(encode_utf8(a) + encode_utf8(b) =~= encode_utf8(b));
    } else {
        lemma_encode_concat(a.drop_first(), b);
        assert((a + b).drop_first() =~= a.drop_first() + b);
        assert(encode_utf8(a + b) =~= encode_utf8(a) + encode_utf8(b));
    }
}

/// The end of the encoding of a prefix is a char boundary of the whole.
pub proof fn lemma_prefix_is_boundary(a: Seq<char>, b: Seq<char>)
    ensures
        is_char_boundary(encode_utf8(a + b), encode_utf8(a).len() as int),
    decreases a.len(),
{
    let bytes = encode_utf8(a + b);
    vstd::utf8::encode_utf8_valid_utf8(a + b);
    if a.len() > 0 {
        let rest = a.drop_first();
        lemma_prefix_is_boundary(rest, b);
        lemma_encode_concat(a, b);
        vstd::utf8::encode_utf8_first_scalar(a + b);
        assert((a + b).drop_first() =~= rest + b);
        assert(vstd::utf8::pop_first_scalar(bytes) =~= encode_utf8(rest + b));
        assert(encode_utf8(a).len() == encode_scalar(a[0] as u32).len() + encode_utf8(rest).len());
    }
}

/// The byte offset of the char of index `char_pos` in `s`, and the length of
/// `s` in bytes if it has no such char.
pub fn chars_to_bytes(s: &str, char_pos: usize) -> (r: usize)
    ensures
        r == byte_offset(s@, char_pos as int),
        r <= s.spec_bytes().len(),
        is_char_boundary(s.spec_bytes(), r as int),
{
    proof {
        let k = if char_pos >= s@.len() {
            s@.len() as int
        } else {
            char_pos as int
        };
        assert(s@ =~= s@.take(k) + s@.skip(k));
        assert(s@.take(s@.len() as int) =~= s@);
        lemma_encode_concat(s@.take(k), s@.skip(k));
        lemma_prefix_is_boundary(s@.take(k), s@.skip(k));
    }
    str_indices::chars::to_byte_idx(s, char_pos)
}

/// Splits `s` before the char of index `char_pos`, and at its end if it has
/// no such char.
pub fn split_at_char(s: &str, char_pos: usize) -> (r: (&str, &str))
    ensures
        char_pos <= s@.len() ==> r.0@ == s@.take(char_pos as int) && r.1@ == s@.skip(
            char_pos as int,
        ),
        char_pos > s@.len() ==> r.0@ == s@ && r.1@ == Seq::<char>::empty(),
{
    let mid = chars_to_bytes(s, char_pos);
    let r = s.split_at(mid);
    proof {
        let k = if char_pos >= s@.len() {
            s@.len() as int
        } else {
            char_pos as int
        };
        let a = s@.take(k);
        let b = s@.skip(k);
        assert(s@ =~= a + b);
        assert(s@.take(s@.len() as int) =~= s@);
        lemma_encode_concat(a, b);
        assert(r.0.spec_bytes() =~= encode_utf8(a));
        assert(r.1.spec_bytes() =~= encode_utf8(b));
        vstd::utf8::encode_utf8_decode_utf8(a);
        vstd::utf8::encode_utf8_decode_utf8(b);
        vstd::utf8::encode_utf8_decode_utf8(r.0@);
        vstd::utf8::encode_utf8_decode_utf8(r.1@);
        assert(s@.skip(s@.len() as int) =~= Seq::<char>::empty());
    }
    r
}

/// Takes the first `len` chars off the front of `content` and returns them.
pub fn consume_chars<'a>(content: &mut &'a str, len: usize) -> (here: &'a str)
    ensures
        len <= old(content)@.len() ==> here@ == old(content)@.take(len as int) && final(content)@
            == old(content)@.skip(len as int),
        len > old(content)@.len() ==> here@ == old(content)@ && final(content)@ == Seq::<
            char,
        >::empty(),
{
    let (here, remaining) = split_at_char(*content, len);
    *content = remaining;
    here
}

/// The index of the char that the byte of index `byte_pos` belongs to, and
/// the number of chars in `s` if it has no such byte.
pub fn bytes_to_chars(s: &str, byte_pos: usize) -> (r: usize)
    ensures
        r <= s@.len(),
        byte_pos >= s.spec_bytes().len() ==> r == s@.len(),
        byte_pos < s.spec_bytes().len() ==> r < s@.len() && byte_offset(s@, r as int) <= byte_pos
            < byte_offset(s@, r + 1),
{
    str_indices::chars::from_byte_idx(s, byte_pos)
}

/// The number of chars in `s`.
pub fn count_chars(s: &str) -> (r: usize)
    ensures
        r == s@.len(),
{
    str_indices::chars::count(s)
}

} // verus!
