//! What the two conversions do to each other's results.

use crate::base58::{
    base58_decoding, lemma_decode_encode, lemma_encode_decode, lemma_encoding_is_injective,
    lemma_encoding_is_not_empty,
};
use crate::hexadecimal::{hex_decoding, hex_encoding, is_lower_hex, lemma_encoding_is_lower_hex};
use crate::{
    canonical_address, envelope, hex_address, is_hex_address, textual_address, QtumNetwork,
};
use vstd::prelude::*;

verus! {

/// The textual address of a payload of 20 bytes converts to the hex digits of
/// that payload, and those digits convert back to the same textual address.
pub proof fn canonical_address_round_trip(prefix: u8, payload: Seq<u8>)
    requires
        payload.len() == 20,
    ensures
        hex_address(canonical_address(prefix, payload)) == Some(hex_encoding(payload)),
        textual_address(prefix, hex_encoding(payload)) == Some(canonical_address(prefix, payload)),
{
    let bytes = envelope(prefix, payload);
    lemma_decode_encode(bytes);
    assert(bytes.subrange(1, 21) =~= payload);
    lemma_encoding_is_lower_hex(payload);
    crate::hexadecimal::lemma_decode_encode(payload);
}

/// A hex address of lower-case digits converts to a textual address, and that
/// one converts back to the same hex address.
pub proof fn hex_address_round_trip(prefix: u8, hex: Seq<char>)
    requires
        hex.len() == 40,
        is_lower_hex(hex),
    ensures
        textual_address(prefix, hex) matches Some(text) && hex_address(text) == Some(hex),
{
    let payload = hex_decoding(hex);
    assert(is_hex_address(hex));
    crate::hexadecimal::lemma_encode_decode(hex);
    canonical_address_round_trip(prefix, payload);
}

/// A textual address that converts to a hex address converts back to the
/// textual address of its payload under `prefix`: to itself, then, where it
/// is such an address.
pub proof fn textual_address_round_trip(prefix: u8, text: Seq<char>)
    requires
        hex_address(text) is Some,
    ensures
        base58_decoding(text) matches Some(decoded) && decoded.len() >= 21 && textual_address(
            prefix,
            hex_address(text)->0,
        ) == Some(canonical_address(prefix, decoded.subrange(1, 21))),
        forall|payload: Seq<u8>|
            payload.len() == 20 && text == #[trigger] canonical_address(prefix, payload)
                ==> textual_address(prefix, hex_address(text)->0) == Some(text),
{
    let decoded = base58_decoding(text)->0;
    let payload = decoded.subrange(1, 21);
    lemma_encoding_is_lower_hex(payload);
    crate::hexadecimal::lemma_decode_encode(payload);
    assert forall|payload: Seq<u8>|
        payload.len() == 20 && text == #[trigger] canonical_address(
            prefix,
            payload,
        ) implies textual_address(prefix, hex_address(text)->0) == Some(text) by {
        canonical_address_round_trip(prefix, payload);
    }
}

/// A textual address that decodes to the bytes of an address under `prefix`,
/// with that prefix byte and the checksum that belongs to it, is the textual
/// address of its payload: it converts to the payload's hex digits, and they
/// convert back to it.
pub proof fn checksummed_address_round_trip(prefix: u8, text: Seq<char>, payload: Seq<u8>)
    requires
        payload.len() == 20,
        base58_decoding(text) == Some(envelope(prefix, payload)),
    ensures
        text == canonical_address(prefix, payload),
        hex_address(text) == Some(hex_encoding(payload)),
        textual_address(prefix, hex_encoding(payload)) == Some(text),
{
    lemma_encode_decode(text);
    canonical_address_round_trip(prefix, payload);
}

/// One hex address has a different textual address on each network.
pub proof fn networks_give_different_addresses(a: QtumNetwork, b: QtumNetwork, hex: Seq<char>)
    requires
        a != b,
        is_hex_address(hex),
    ensures
        textual_address(a.prefix(), hex) is Some,
        textual_address(b.prefix(), hex) is Some,
        textual_address(a.prefix(), hex) != textual_address(b.prefix(), hex),
{
    let payload = hex_decoding(hex);
    let first = envelope(a.prefix(), payload);
    let second = envelope(b.prefix(), payload);
    assert(first[0] == a.prefix());
    assert(second[0] == b.prefix());
    if canonical_address(a.prefix(), payload) == canonical_address(b.prefix(), payload) {
        lemma_encoding_is_injective(first, second);
    }
}

/// A hex address that a conversion gives has 40 digits, and a textual address
/// that one gives is not empty.
pub proof fn converted_lengths(prefix: u8, input: Seq<char>)
    ensures
        hex_address(input) matches Some(hex) ==> hex.len() == 40,
        textual_address(prefix, input) matches Some(text) ==> text.len() > 0,
{
    if textual_address(prefix, input) is Some {
        lemma_encoding_is_not_empty(envelope(prefix, hex_decoding(input)));
    }
}

} // verus!
