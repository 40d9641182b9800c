//! Byte ranges in UTF-8 text.
//!
//! A text is a `String`; positions in it are byte offsets into its UTF-8
//! encoding, and a range may only be cut where a character starts.

use vstd::prelude::*;
use vstd::string::*;
use vstd::utf8::*;

verus! {

/// `bytes` with the range `[start, end)` replaced by `with`.
pub open spec fn splice(bytes: Seq<u8>, start: int, end: int, with: Seq<u8>) -> Seq<u8> {
    bytes.subrange(0, start) + with + bytes.subrange(end, bytes.len() as int)
}

/// `[start, end)` is a range of the UTF-8 encoding of `text` that begins and
/// ends where a character begins or the text ends.
pub open spec fn is_text_range(text: Seq<char>, start: int, end: int) -> bool {
    &&& 0 <= start <= end <= encode_utf8(text).len()
    &&& is_char_boundary(encode_utf8(text), start)
    &&& is_char_boundary(encode_utf8(text), end)
}

/// Encoding distributes over concatenation.
pub proof fn lemma_encode_concat(a: Seq<char>, b: Seq<char>)
    ensures
        encode_utf8(a + b) == encode_utf8(a) + encode_utf8(b),
    decreases a.len(),
{
    if a.len() == 0 {
        assert(a + b =~= b);
        assert(encode_utf8(a) + encode_utf8(b) =~= encode_utf8(b));
    } else {
        lemma_encode_concat(a.drop_first(), b);
        assert((a + b).drop_first() =~= a.drop_first() + b);
        assert(encode_utf8(a + b) =~= encode_utf8(a) + encode_utf8(b));
    }
}

/// Two texts with the same encoding are the same text.
pub proof fn lemma_encode_injective(a: Seq<char>, b: Seq<char>)
    requires
        encode_utf8(a) == encode_utf8(b),
    ensures
        a == b,
{
    encode_utf8_decode_utf8(a);
    encode_utf8_decode_utf8(b);
}

/// A boundary of a text stays a boundary when a range after it is replaced
/// by an encoded text; so does the end of the replaced range, moved by the
/// change in length.
pub proof fn lemma_splice_keeps_boundaries(
    text: Seq<char>,
    start: int,
    end: int,
    with: Seq<char>,
    index: int,
)
    requires
        is_text_range(text, start, end),
        0 <= index <= start,
        is_char_boundary(encode_utf8(text), index),
    ensures
        valid_utf8(splice(encode_utf8(text), start, end, encode_utf8(with))),
        is_char_boundary(splice(encode_utf8(text), start, end, encode_utf8(with)), index),
{
    let bytes = encode_utf8(text);
    let new = encode_utf8(with);
    let out = splice(bytes, start, end, new);
    encode_utf8_valid_utf8(text);
    encode_utf8_valid_utf8(with);
    valid_utf8_split(bytes, start);
    valid_utf8_split(bytes, end);
    let head = bytes.subrange(0, start);
    let tail = bytes.subrange(end, bytes.len() as int);
    valid_utf8_concat(head, new);
    valid_utf8_concat(head + new, tail);
    is_char_boundary_start_end_of_seq(out);
    if index < out.len() {
        is_char_boundary_iff_not_is_continuation_byte(out, index);
        if index < start {
            is_char_boundary_iff_not_is_continuation_byte(bytes, index);
            assert(out[index] == bytes[index]);
        } else if new.len() > 0 {
            is_char_boundary_start_end_of_seq(new);
            is_char_boundary_iff_not_is_continuation_byte(new, 0);
            assert(out[index] == new[0]);
        } else {
            is_char_boundary_iff_not_is_continuation_byte(bytes, end);
            assert(out[index] == bytes[end]);
        }
    }
}

/// True when the byte range `[start, end)` can be cut out of `text`.
pub fn text_range_ok(text: &str, start: usize, end: usize) -> (ok: bool)
    ensures
        ok == is_text_range(text@, start as int, end as int),
{
    proof {
        encode_utf8_valid_utf8(text@);
        is_char_boundary_start_end_of_seq(encode_utf8(text@));
    }
    start <= end && end <= text.as_bytes().len() && text.is_char_boundary(start)
        && text.is_char_boundary(end)
}

/// True when the two texts are the same.
pub fn same_text(a: &str, b: &str) -> (same: bool)
    ensures
        same == (a@ == b@),
{
    let left = a.as_bytes();
    let right = b.as_bytes();
    if left.len() != right.len() {
        return false;
    }
    let mut i: usize = 0;
    while i < left.len()
        invariant
            i <= left.len(),
            left.len() == right.len(),
            left@ == encode_utf8(a@),
            right@ == encode_utf8(b@),
            left@.subrange(0, i as int) == right@.subrange(0, i as int),
        decreases left.len() - i,
    {
        if left[i] != right[i] {
            return false;
        }
        assert(left@.subrange(0, i as int + 1) =~= left@.subrange(0, i as int).push(left@[i as int]));
        assert(right@.subrange(0, i as int + 1) =~= right@.subrange(0, i as int).push(
            right@[i as int],
        ));
        i += 1;
    }
    proof {
        assert(left@.subrange(0, i as int) =~= left@);
        assert(right@.subrange(0, i as int) =~= right@);
        lemma_encode_injective(a@, b@);
    }
    true
}

/// The part of `text` in the byte range `[start, end)`.
pub fn slice_text(text: &str, start: usize, end: usize) -> (part: &str)
    requires
        is_text_range(text@, start as int, end as int),
    ensures
        encode_utf8(part@) == encode_utf8(text@).subrange(start as int, end as int),
{
    proof {
        encode_utf8_valid_utf8(text@);
    }
    let (head, _) = text.split_at(end);
    proof {
        let bytes = encode_utf8(text@);
        valid_utf8_split(bytes, end as int);
        assert(head.spec_bytes() == bytes.subrange(0, end as int));
        encode_utf8_valid_utf8(head@);
        if start < end {
            is_char_boundary_iff_not_is_continuation_byte(bytes, start as int);
            is_char_boundary_iff_not_is_continuation_byte(head.spec_bytes(), start as int);
        } else {
            is_char_boundary_start_end_of_seq(head.spec_bytes());
        }
    }
    let (_, part) = head.split_at(start);
    assert(part.spec_bytes() =~= encode_utf8(text@).subrange(start as int, end as int));
    part
}

/// `text` with the byte range `[start, end)` replaced by `with`.
pub fn replace_range(text: &str, start: usize, end: usize, with: &str) -> (out: String)
    requires
        is_text_range(text@, start as int, end as int),
    ensures
        encode_utf8(out@) == splice(
            encode_utf8(text@),
            start as int,
            end as int,
            encode_utf8(with@),
        ),
{
    proof {
        encode_utf8_valid_utf8(text@);
    }
    let (head, _) = text.split_at(start);
    let (_, tail) = text.split_at(end);
    let mut out = head.to_owned();
    out.append(with);
    out.append(tail);
    proof {
        lemma_encode_concat(head@, with@);
        lemma_encode_concat(head@ + with@, tail@);
    }
    out
}

} // verus!
