//! Hexadecimal text: what it denotes, and the calls that produce and read it.

use vstd::prelude::*;

verus! {

/// The sixteen lower-case digits, in order of value.
pub open spec fn lower_digits() -> Seq<char> {
    seq!['0', '1', '2', '3', '4', '5', '6', '7', '8', '9', 'a', 'b', 'c', 'd', 'e', 'f']
}

/// Whether `c` is one of `0-9`, `a-f`.
pub open spec fn is_lower_hex_digit(c: char) -> bool {
    ('0' <= c && c <= '9') || ('a' <= c && c <= 'f')
}

/// Whether `c` is one of `0-9`, `a-f`, `A-F`.
pub open spec fn is_hex_digit(c: char) -> bool {
    is_lower_hex_digit(c) || ('A' <= c && c <= 'F')
}

/// The value, below sixteen, of a hexadecimal digit.
pub open spec fn hex_value(c: char) -> nat
    recommends
        is_hex_digit(c),
{
    if '0' <= c && c <= '9' {
        (c as nat - '0' as nat) as nat
    } else if 'a' <= c && c <= 'f' {
        (c as nat - 'a' as nat + 10) as nat
    } else {
        (c as nat - 'A' as nat + 10) as nat
    }
}

/// Text of even length made of hexadecimal digits only.
pub open spec fn is_hex_text(text: Seq<char>) -> bool {
    &&& text.len() % 2 == 0
    &&& forall|i: int| 0 <= i < text.len() ==> is_hex_digit(#[trigger] text[i])
}

/// Text made of lower-case hexadecimal digits only.
pub open spec fn is_lower_hex(text: Seq<char>) -> bool {
    forall|i: int| 0 <= i < text.len() ==> is_lower_hex_digit(#[trigger] text[i])
}

/// Two lower-case digits for each byte, the high half first.
pub open spec fn hex_encoding(bytes: Seq<u8>) -> Seq<char> {
    Seq::new(
        2 * bytes.len(),
        |i: int|
            if i % 2 == 0 {
                lower_digits()[bytes[i / 2] as int / 16]
            } else {
                lower_digits()[bytes[i / 2] as int % 16]
            },
    )
}

/// One byte for each pair of digits, the first digit worth sixteen times the second.
pub open spec fn hex_decoding(text: Seq<char>) -> Seq<u8>
    recommends
        is_hex_text(text),
{
    Seq::new(
        text.len() / 2,
        |i: int| (16 * hex_value(text[2 * i]) + hex_value(text[2 * i + 1])) as u8,
    )
}

/// `hex::encode`: the lower-case hexadecimal text of `bytes`, two digits a byte.
#[verifier::external_body]
pub(crate) fn encode(bytes: &[u8]) -> (text: String)
    ensures
        text@ == hex_encoding(bytes@),
{
    ::hex::encode(bytes)
}

/// The error of `hex::decode`, carried through unread.
#[verifier::external_type_specification]
#[verifier::external_body]
pub struct ExFromHexError(::hex::FromHexError);

/// `hex::decode`: succeeds exactly on hexadecimal text of even length, upper
/// and lower case alike, and then gives one byte for each pair of digits. The
/// crate reads the text byte by byte; text with a character beyond ASCII holds
/// a byte that is no digit and fails like any other.
#[verifier::external_body]
pub(crate) fn decode(text: &str) -> (bytes: Result<Vec<u8>, ::hex::FromHexError>)
    ensures
        bytes is Ok <==> is_hex_text(text@),
        bytes matches Ok(b) ==> b@ == hex_decoding(text@),
{
    ::hex::decode(text)
}

/// Every digit of an encoding is a lower-case hexadecimal digit.
pub proof fn lemma_encoding_is_lower_hex(bytes: Seq<u8>)
    ensures
        hex_encoding(bytes).len() == 2 * bytes.len(),
        is_lower_hex(hex_encoding(bytes)),
        is_hex_text(hex_encoding(bytes)),
{
    let text = hex_encoding(bytes);
    assert forall|i: int| 0 <= i < text.len() implies is_lower_hex_digit(#[trigger] text[i]) by {
        lemma_lower_digit(bytes[i / 2] as nat / 16);
        lemma_lower_digit(bytes[i / 2] as nat % 16);
    }
}

/// The digit for `value` is a lower-case digit whose value is `value`.
pub proof fn lemma_lower_digit(value: nat)
    requires
        value < 16,
    ensures
        is_lower_hex_digit(lower_digits()[value as int]),
        hex_value(lower_digits()[value as int]) == value,
{
}

/// A lower-case digit is the digit for its own value.
pub proof fn lemma_lower_digit_of_value(c: char)
    requires
        is_lower_hex_digit(c),
    ensures
        hex_value(c) < 16,
        lower_digits()[hex_value(c) as int] == c,
{
}

/// Decoding the encoding of `bytes` gives `bytes` back.
pub proof fn lemma_decode_encode(bytes: Seq<u8>)
    ensures
        hex_decoding(hex_encoding(bytes)) == bytes,
{
    let text = hex_encoding(bytes);
    let back = hex_decoding(text);
    assert(back.len() == bytes.len());
    assert forall|i: int| 0 <= i < bytes.len() implies back[i] == bytes[i] by {
        let b = bytes[i] as nat;
        lemma_lower_digit(b / 16);
        lemma_lower_digit(b % 16);
        assert(text[2 * i] == lower_digits()[(b / 16) as int]);
        assert(text[2 * i + 1] == lower_digits()[(b % 16) as int]);
    }
    assert(back =~= bytes);
}

/// Encoding the decoding of lower-case text of even length gives the text back.
pub proof fn lemma_encode_decode(text: Seq<char>)
    requires
        text.len() % 2 == 0,
        is_lower_hex(text),
    ensures
        hex_encoding(hex_decoding(text)) == text,
{
    let bytes = hex_decoding(text);
    let back = hex_encoding(bytes);
    assert(back.len() == text.len());
    assert forall|i: int| 0 <= i < text.len() implies back[i] == text[i] by {
        let k = i / 2;
        lemma_lower_digit_of_value(text[2 * k]);
        lemma_lower_digit_of_value(text[2 * k + 1]);
        let hi = hex_value(text[2 * k]);
        let lo = hex_value(text[2 * k + 1]);
        assert(bytes[k] == 16 * hi + lo);
        assert((16 * hi + lo) / 16 == hi);
        assert((16 * hi + lo) % 16 == lo);
    }
    assert(back =~= text);
}

} // verus!
