//! Content fingerprints: the cache key of a diagram request.

use crate::config::format_text;
use crate::config::DiagramsPreprocessor;
use crate::config::OutputFormat;
use sha2::{Digest, Sha256};
use vstd::prelude::*;
use vstd::string::*;
use vstd::utf8::*;

verus! {

/// The SHA-256 digest of `message`, as `sha2` computes it. It stands for the
/// outside algorithm; nothing here defines it.
pub uninterp spec fn sha256(message: Seq<u8>) -> Seq<u8>;

/// Calls `sha2::Sha256::digest` (the one-shot form of `Digest`).
///
/// Trusted: the bytes returned are the SHA-256 digest of `message`, and there
/// are 32 of them, the output size that `sha2` fixes for `Sha256`.
#[verifier::external_body]
fn sha256_digest(message: &[u8]) -> (digest: Vec<u8>)
    ensures
        digest@ == sha256(message@),
        digest@.len() == 32,
{
    Sha256::digest(message).to_vec()
}

/// The sixteen lowercase hexadecimal digits, by value.
pub open spec fn hex_digits() -> Seq<char> {
    seq!['0', '1', '2', '3', '4', '5', '6', '7', '8', '9', 'a', 'b', 'c', 'd', 'e', 'f']
}

/// Two lowercase hexadecimal digits per byte, high nibble first.
pub open spec fn hex_lower(bytes: Seq<u8>) -> Seq<char> {
    Seq::new(
        2 * bytes.len(),
        |i: int|
            if i % 2 == 0 {
                hex_digits()[bytes[i / 2] as int / 16]
            } else {
                hex_digits()[bytes[i / 2] as int % 16]
            },
    )
}

/// True for the characters `0`-`9` and `a`-`f`.
pub open spec fn is_lower_hex(c: char) -> bool {
    exists|n: int| 0 <= n < 16 && hex_digits()[n] == c
}

/// The byte that closes a field of the message. No UTF-8 text holds it.
pub open spec fn field_end() -> u8 {
    0xff
}

/// A field of the message: the text in UTF-8, closed by `field_end`.
pub open spec fn message_field(text: Seq<char>) -> Seq<u8> {
    encode_utf8(text).push(field_end())
}

/// The bytes that are hashed for a request: source text, output format and
/// renderer command, each as a field, one after the other. The three texts
/// can be read back from the message.
pub open spec fn fingerprint_message(
    source: Seq<char>,
    format: Seq<char>,
    command: Seq<char>,
) -> Seq<u8> {
    message_field(source) + message_field(format) + message_field(command)
}

/// The fingerprint of a request: the SHA-256 digest of its message in
/// lowercase hexadecimal.
pub open spec fn fingerprint_of(source: Seq<char>, format: Seq<char>, command: Seq<char>) -> Seq<
    char,
> {
    hex_lower(sha256(fingerprint_message(source, format, command)))
}

fn hex_digit_str(nibble: u8) -> (digit: &'static str)
    requires
        nibble < 16,
    ensures
        digit@ == seq![hex_digits()[nibble as int]],
{
    proof {
        reveal_strlit("0");
        reveal_strlit("1");
        reveal_strlit("2");
        reveal_strlit("3");
        reveal_strlit("4");
        reveal_strlit("5");
        reveal_strlit("6");
        reveal_strlit("7");
        reveal_strlit("8");
        reveal_strlit("9");
        reveal_strlit("a");
        reveal_strlit("b");
        reveal_strlit("c");
        reveal_strlit("d");
        reveal_strlit("e");
        reveal_strlit("f");
    }
    let digit = match nibble {
        0 => "0",
        1 => "1",
        2 => "2",
        3 => "3",
        4 => "4",
        5 => "5",
        6 => "6",
        7 => "7",
        8 => "8",
        9 => "9",
        10 => "a",
        11 => "b",
        12 => "c",
        13 => "d",
        14 => "e",
        _ => "f",
    };
    assert(digit@ =~= seq![hex_digits()[nibble as int]]);
    digit
}

/// Writes `bytes` in lowercase hexadecimal.
pub fn hex_encode(bytes: &[u8]) -> (text: String)
    ensures
        text@ == hex_lower(bytes@),
{
    let mut text = String::new();
    let mut i: usize = 0;
    while i < bytes.len()
        invariant
            i <= bytes.len(),
            text@ == hex_lower(bytes@.subrange(0, i as int)),
        decreases bytes.len() - i,
    {
        let byte = bytes[i];
        let ghost before = text@;
        text.append(hex_digit_str(byte / 16));
        text.append(hex_digit_str(byte % 16));
        proof {
            let prefix = bytes@.subrange(0, i as int);
            let longer = bytes@.subrange(0, i as int + 1);
            assert(text@ =~= hex_lower(longer)) by {
                assert(text@.len() == 2 * longer.len());
                assert forall|k: int| 0 <= k < text@.len() implies text@[k] == hex_lower(longer)[k] by {
                    if k < 2 * i {
                        assert(text@[k] == hex_lower(prefix)[k]);
                        assert(prefix[k / 2] == longer[k / 2]);
                    } else {
                        assert(longer[k / 2] == byte);
                    }
                }
            }
        }
        i += 1;
    }
    assert(bytes@.subrange(0, i as int) =~= bytes@);
    text
}

/// The name of the artifact file for a fingerprint: the fingerprint, a dot
/// and the format's extension.
pub open spec fn artifact_name(fingerprint: Seq<char>, format: OutputFormat) -> Seq<char> {
    fingerprint + "."@ + format_text(format)
}

/// The name of the artifact file for a fingerprint.
pub fn artifact_filename(fingerprint: &str, format: OutputFormat) -> (name: String)
    ensures
        name@ == artifact_name(fingerprint@, format),
{
    let mut name = fingerprint.to_owned();
    name.append(".");
    name.append(format.extension());
    name
}

fn push_bytes(message: &mut Vec<u8>, part: &[u8])
    ensures
        final(message)@ == old(message)@ + part@,
{
    let mut i: usize = 0;
    while i < part.len()
        invariant
            i <= part.len(),
            message@ == old(message)@ + part@.subrange(0, i as int),
        decreases part.len() - i,
    {
        message.push(part[i]);
        assert(part@.subrange(0, i as int + 1) =~= part@.subrange(0, i as int).push(part@[i as int]));
        assert(message@ =~= old(message)@ + part@.subrange(0, i as int + 1));
        i += 1;
    }
    assert(part@.subrange(0, i as int) =~= part@);
}

impl DiagramsPreprocessor {
    /// The fingerprint of a diagram request: a digest over the diagram
    /// source, the output format and the renderer command, each closed by a
    /// byte that no text holds, so that no two requests share a message. It
    /// is 64 lowercase hexadecimal digits.
    pub fn compute_cache_hash(content: &str, output_format: &str, mmdc_cmd: &str) -> (hash: String)
        ensures
            hash@ == fingerprint_of(content@, output_format@, mmdc_cmd@),
            hash@.len() == 64,
            forall|i: int| 0 <= i < 64 ==> is_lower_hex(#[trigger] hash@[i]),
    {
        let mut message: Vec<u8> = Vec::new();
        push_bytes(&mut message, content.as_bytes());
        message.push(0xff);
        push_bytes(&mut message, output_format.as_bytes());
        message.push(0xff);
        push_bytes(&mut message, mmdc_cmd.as_bytes());
        message.push(0xff);
        assert(message@ =~= fingerprint_message(content@, output_format@, mmdc_cmd@));
        let digest = sha256_digest(message.as_slice());
        let hash = hex_encode(digest.as_slice());
        proof {
            lemma_hex_lower_digits(digest@);
        }
        hash
    }
}

/// Every character of a hexadecimal rendering is a lowercase hex digit.
pub proof fn lemma_hex_lower_digits(bytes: Seq<u8>)
    ensures
        hex_lower(bytes).len() == 2 * bytes.len(),
        forall|i: int| 0 <= i < 2 * bytes.len() ==> is_lower_hex(#[trigger] hex_lower(bytes)[i]),
{
    assert forall|i: int| 0 <= i < 2 * bytes.len() implies is_lower_hex(
        #[trigger] hex_lower(bytes)[i],
    ) by {
        let byte = bytes[i / 2] as int;
        let n = if i % 2 == 0 {
            byte / 16
        } else {
            byte % 16
        };
        assert(0 <= n < 16);
        assert(hex_digits()[n] == hex_lower(bytes)[i]);
    }
}

/// Two byte strings with the same hexadecimal rendering are equal: the
/// rendering loses nothing.
pub proof fn lemma_hex_lower_injective(a: Seq<u8>, b: Seq<u8>)
    requires
        hex_lower(a) == hex_lower(b),
    ensures
        a == b,
{
    assert(a.len() == b.len()) by {
        assert(hex_lower(a).len() == 2 * a.len());
        assert(hex_lower(b).len() == 2 * b.len());
    }
    assert forall|k: int| 0 <= k < a.len() implies a[k] == b[k] by {
        let x = a[k] as int;
        let y = b[k] as int;
        assert(hex_lower(a)[2 * k] == hex_digits()[x / 16]);
        assert(hex_lower(b)[2 * k] == hex_digits()[y / 16]);
        assert(hex_lower(a)[2 * k + 1] == hex_digits()[x % 16]);
        assert(hex_lower(b)[2 * k + 1] == hex_digits()[y % 16]);
        lemma_hex_digits_distinct(x / 16, y / 16);
        lemma_hex_digits_distinct(x % 16, y % 16);
    }
    assert(a =~= b);
}

/// The sixteen digits are pairwise different.
pub proof fn lemma_hex_digits_distinct(m: int, n: int)
    requires
        0 <= m < 16,
        0 <= n < 16,
        hex_digits()[m] == hex_digits()[n],
    ensures
        m == n,
{
}

/// No byte of a UTF-8 text is the byte that closes a field.
pub proof fn lemma_text_has_no_field_end(text: Seq<char>, i: int)
    requires
        0 <= i < encode_utf8(text).len(),
    ensures
        encode_utf8(text)[i] != field_end(),
{
    let bytes = encode_utf8(text);
    encode_utf8_valid_utf8(text);
    is_char_boundary_iff_not_is_continuation_byte(bytes, i);
    is_char_boundary_iff_is_leading_byte(bytes, i);
}

proof fn lemma_first_field(a: Seq<char>, rest_a: Seq<u8>, b: Seq<char>, rest_b: Seq<u8>)
    requires
        message_field(a) + rest_a == message_field(b) + rest_b,
    ensures
        a == b,
        rest_a == rest_b,
{
    let x = encode_utf8(a);
    let y = encode_utf8(b);
    let left = message_field(a) + rest_a;
    let right = message_field(b) + rest_b;
    if x.len() < y.len() {
        lemma_text_has_no_field_end(b, x.len() as int);
        assert(left[x.len() as int] == field_end());
        assert(right[x.len() as int] == y[x.len() as int]);
    }
    if y.len() < x.len() {
        lemma_text_has_no_field_end(a, y.len() as int);
        assert(right[y.len() as int] == field_end());
        assert(left[y.len() as int] == x[y.len() as int]);
    }
    assert(x =~= y) by {
        assert forall|i: int| 0 <= i < x.len() implies x[i] == y[i] by {
            assert(left[i] == x[i]);
            assert(right[i] == y[i]);
        }
    }
    encode_utf8_decode_utf8(a);
    encode_utf8_decode_utf8(b);
    assert(rest_a =~= rest_b) by {
        assert(rest_a.len() == rest_b.len()) by {
            assert(left.len() == x.len() + 1 + rest_a.len());
            assert(right.len() == y.len() + 1 + rest_b.len());
        }
        assert forall|i: int| 0 <= i < rest_a.len() implies rest_a[i] == rest_b[i] by {
            assert(left[x.len() + 1 + i] == rest_a[i]);
            assert(right[y.len() + 1 + i] == rest_b[i]);
        }
    }
}

/// The message keeps the three fields apart: two requests have the same
/// message only if they have the same source, the same format and the same
/// command.
pub proof fn message_keeps_fields_apart(
    source_a: Seq<char>,
    format_a: Seq<char>,
    command_a: Seq<char>,
    source_b: Seq<char>,
    format_b: Seq<char>,
    command_b: Seq<char>,
)
    requires
        fingerprint_message(source_a, format_a, command_a) == fingerprint_message(
            source_b,
            format_b,
            command_b,
        ),
    ensures
        source_a == source_b,
        format_a == format_b,
        command_a == command_b,
{
    let tail_a = message_field(format_a) + message_field(command_a);
    let tail_b = message_field(format_b) + message_field(command_b);
    assert(fingerprint_message(source_a, format_a, command_a) =~= message_field(source_a) + tail_a);
    assert(fingerprint_message(source_b, format_b, command_b) =~= message_field(source_b) + tail_b);
    lemma_first_field(source_a, tail_a, source_b, tail_b);
    lemma_first_field(format_a, message_field(command_a), format_b, message_field(command_b));
    assert(message_field(command_a) + Seq::<u8>::empty() =~= message_field(command_a));
    assert(message_field(command_b) + Seq::<u8>::empty() =~= message_field(command_b));
    lemma_first_field(command_a, Seq::empty(), command_b, Seq::empty());
}

/// Fingerprinting is a function of the three fields, and it tells requests
/// apart as far as the digest tells messages apart: equal requests have equal
/// fingerprints, and two requests have the same fingerprint exactly when
/// their messages have the same digest, which for requests that differ in
/// any field are digests of different messages.
pub proof fn fingerprint_is_deterministic(
    source_a: Seq<char>,
    format_a: Seq<char>,
    command_a: Seq<char>,
    source_b: Seq<char>,
    format_b: Seq<char>,
    command_b: Seq<char>,
)
    ensures
        source_a == source_b && format_a == format_b && command_a == command_b ==> fingerprint_of(
            source_a,
            format_a,
            command_a,
        ) == fingerprint_of(source_b, format_b, command_b),
        fingerprint_of(source_a, format_a, command_a) == fingerprint_of(
            source_b,
            format_b,
            command_b,
        ) <==> sha256(fingerprint_message(source_a, format_a, command_a)) == sha256(
            fingerprint_message(source_b, format_b, command_b),
        ),
        source_a != source_b || format_a != format_b || command_a != command_b
            ==> fingerprint_message(source_a, format_a, command_a) != fingerprint_message(
            source_b,
            format_b,
            command_b,
        ),
{
    if fingerprint_of(source_a, format_a, command_a) == fingerprint_of(
        source_b,
        format_b,
        command_b,
    ) {
        lemma_hex_lower_injective(
            sha256(fingerprint_message(source_a, format_a, command_a)),
            sha256(fingerprint_message(source_b, format_b, command_b)),
        );
    }
    if fingerprint_message(source_a, format_a, command_a) == fingerprint_message(
        source_b,
        format_b,
        command_b,
    ) {
        message_keeps_fields_apart(source_a, format_a, command_a, source_b, format_b, command_b);
    }
}

} // verus!
