//! Conversion between Qtum base-58 addresses and the 20-byte hexadecimal
//! form that smart-contract tooling uses.
//!
//! A textual address is the base-58 text of 25 bytes: the prefix byte of the
//! network, the 20 bytes of the public-key hash, and the first four bytes of
//! the double SHA-256 digest of the 21 bytes before them. A hex address is
//! the 40 lower-case hexadecimal digits of the public-key hash alone.

use vstd::prelude::*;
use vstd::slice::slice_subrange;

pub mod base58;
pub mod digest;
pub mod hexadecimal;
pub mod round_trip;

use crate::base58::{base58_decoding, base58_encoding};
use crate::digest::sha256_digest;
use crate::hexadecimal::{hex_decoding, hex_encoding, is_hex_text};

verus! {

/// The number of bytes in a public-key hash.
pub const PAYLOAD_LEN: usize = 20;

/// The number of digest bytes that close an address.
pub const CHECKSUM_LEN: usize = 4;

/// The Qtum networks an address can belong to.
#[derive(Clone, Copy, Debug, PartialEq, Eq, Structural)]
pub enum QtumNetwork {
    /// Address prefix byte `0x3a`.
    Mainnet,
    /// Address prefix byte `0x78`.
    Testnet,
}

/// A byte that is the prefix of no known network.
#[derive(Clone, Copy, Debug, PartialEq, Eq, Structural)]
pub struct UnknownNetworkPrefix(pub u8);

/// The input is no address: it is empty, of the wrong length, or not in the
/// encoding it should be in.
#[derive(Clone, Copy, Debug, PartialEq, Eq, Structural)]
pub struct InvalidAddress;

impl QtumNetwork {
    /// The byte that opens every address of this network.
    pub open spec fn prefix(self) -> u8 {
        match self {
            QtumNetwork::Mainnet => 0x3a,
            QtumNetwork::Testnet => 0x78,
        }
    }

    /// Returns the prefix byte of the network.
    pub fn to_prefix_byte(&self) -> (byte: u8)
        ensures
            byte == self.prefix(),
    {
        match self {
            QtumNetwork::Mainnet => 0x3a,
            QtumNetwork::Testnet => 0x78,
        }
    }

    /// Finds the network that `byte` is the prefix of.
    pub fn try_from_byte(byte: u8) -> (network: Result<QtumNetwork, UnknownNetworkPrefix>)
        ensures
            match network {
                Ok(n) => n.prefix() == byte,
                Err(e) => e.0 == byte && byte != 0x3a && byte != 0x78,
            },
    {
        if byte == 0x3a {
            Ok(QtumNetwork::Mainnet)
        } else if byte == 0x78 {
            Ok(QtumNetwork::Testnet)
        } else {
            Err(UnknownNetworkPrefix(byte))
        }
    }
}

impl InvalidAddress {
    /// The words for this error.
    pub fn message(&self) -> (text: &'static str)
        ensures
            text@ == "Invalid address"@,
    {
        "Invalid address"
    }
}

/// The hex address read from the bytes of a decoded textual address: the
/// digits of bytes 1 to 20, where there are that many.
pub open spec fn payload_hex(decoded: Seq<u8>) -> Option<Seq<char>> {
    if decoded.len() >= 1 + PAYLOAD_LEN {
        Some(hex_encoding(decoded.subrange(1, 1 + PAYLOAD_LEN as int)))
    } else {
        None
    }
}

/// The hex address of a textual address, if it is one: base-58 text of at
/// least 21 bytes. Neither the prefix byte nor the checksum is looked at.
pub open spec fn hex_address(text: Seq<char>) -> Option<Seq<char>> {
    match base58_decoding(text) {
        Some(decoded) => payload_hex(decoded),
        None => None,
    }
}

/// Whether `hex` is a hex address: 40 hexadecimal digits.
pub open spec fn is_hex_address(hex: Seq<char>) -> bool {
    hex.len() == 2 * PAYLOAD_LEN && is_hex_text(hex)
}

/// The first four bytes of the SHA-256 digest of the SHA-256 digest of `body`.
pub open spec fn checksum(body: Seq<u8>) -> Seq<u8> {
    sha256_digest(sha256_digest(body)).subrange(0, CHECKSUM_LEN as int)
}

/// The bytes of an address: prefix, payload, checksum of the two.
pub open spec fn envelope(prefix: u8, payload: Seq<u8>) -> Seq<u8> {
    let body = seq![prefix] + payload;
    body + checksum(body)
}

/// The textual address of `payload` under `prefix`.
pub open spec fn canonical_address(prefix: u8, payload: Seq<u8>) -> Seq<char> {
    base58_encoding(envelope(prefix, payload))
}

/// The textual address of a hex address under `prefix`, if it is one.
pub open spec fn textual_address(prefix: u8, hex: Seq<char>) -> Option<Seq<char>> {
    if is_hex_address(hex) {
        Some(canonical_address(prefix, hex_decoding(hex)))
    } else {
        None
    }
}

/// Reads the hex address out of the bytes of a decoded textual address.
pub fn hex_from_decoded(decoded: &[u8]) -> (hex: Result<String, InvalidAddress>)
    ensures
        match hex {
            Ok(h) => payload_hex(decoded@) == Some(h@),
            Err(_) => payload_hex(decoded@) is None,
        },
        hex matches Ok(h) ==> h@.len() == 2 * PAYLOAD_LEN,
{
    if decoded.len() < 1 + PAYLOAD_LEN {
        return Err(InvalidAddress);
    }
    let payload = slice_subrange(decoded, 1, 1 + PAYLOAD_LEN);
    let hex = hexadecimal::encode(payload);
    Ok(hex)
}

/// Appends the first four bytes of `digest` to `body`; fails where the digest
/// has fewer.
pub fn append_checksum(body: Vec<u8>, digest: &[u8]) -> (sealed: Result<Vec<u8>, InvalidAddress>)
    ensures
        match sealed {
            Ok(s) => digest@.len() >= CHECKSUM_LEN && s@ == body@ + digest@.subrange(
                0,
                CHECKSUM_LEN as int,
            ),
            Err(_) => digest@.len() < CHECKSUM_LEN,
        },
{
    if digest.len() < CHECKSUM_LEN {
        return Err(InvalidAddress);
    }
    let mut sealed = body;
    let mut i: usize = 0;
    while i < CHECKSUM_LEN
        invariant
            i <= CHECKSUM_LEN <= digest@.len(),
            sealed@ == body@ + digest@.subrange(0, i as int),
        decreases CHECKSUM_LEN - i,
    {
        sealed.push(digest[i]);
        assert(digest@.subrange(0, i + 1) =~= digest@.subrange(0, i as int).push(digest@[i as int]));
        i += 1;
    }
    Ok(sealed)
}

/// Converts addresses of one network between their textual and their hex form.
#[derive(Clone, Copy, Debug)]
pub struct QtumAddress {
    prefix: u8,
}

impl View for QtumAddress {
    type V = QtumNetwork;

    /// The network whose addresses the converter writes.
    closed spec fn view(&self) -> QtumNetwork {
        if self.prefix == 0x3a {
            QtumNetwork::Mainnet
        } else {
            QtumNetwork::Testnet
        }
    }
}

impl QtumAddress {
    /// The prefix held is that of a network.
    #[verifier::type_invariant]
    spec fn holds_network_prefix(self) -> bool {
        self.prefix == 0x3a || self.prefix == 0x78
    }

    /// Makes the converter for the addresses of `network`.
    pub fn new(network: QtumNetwork) -> (converter: Self)
        ensures
            converter@ == network,
    {
        Self { prefix: network.to_prefix_byte() }
    }

    /// Converts a textual address to its hex address. Fails on empty text, on
    /// text that is not base-58, and on text that decodes to fewer than 21
    /// bytes; checks neither the prefix byte nor the checksum.
    pub fn gethexaddress(&self, address: &str) -> (hex: Result<String, InvalidAddress>)
        ensures
            match hex {
                Ok(h) => hex_address(address@) == Some(h@),
                Err(_) => hex_address(address@) is None,
            },
            hex matches Ok(h) ==> h@.len() == 2 * PAYLOAD_LEN,
    {
        if address.is_empty() {
            assert(base58_decoding(address@) matches Some(d) && d.len() == 0) by {
                assert(base58_decoding(address@)->0 =~= Seq::<u8>::empty());
            }
            return Err(InvalidAddress);
        }
        let decoded = match base58::decode(address) {
            Some(bytes) => bytes,
            None => return Err(InvalidAddress),
        };
        hex_from_decoded(decoded.as_slice())
    }

    /// Converts a hex address to the textual address of this converter's
    /// network. Fails on anything but 40 hexadecimal digits.
    pub fn fromhexaddress(&self, address: &str) -> (text: Result<String, InvalidAddress>)
        ensures
            match text {
                Ok(t) => textual_address(self@.prefix(), address@) == Some(t@),
                Err(_) => textual_address(self@.prefix(), address@) is None,
            },
            text matches Ok(t) ==> t@.len() > 0,
    {
        proof {
            use_type_invariant(self);
        }
        if address.is_empty() || address.as_bytes().len() != 2 * PAYLOAD_LEN {
            proof {
                if is_hex_address(address@) {
                    lemma_hex_text_is_ascii(address@);
                    vstd::utf8::is_ascii_chars_encode_utf8(address@);
                }
            }
            return Err(InvalidAddress);
        }
        let mut address_bytes = match hexadecimal::decode(address) {
            Ok(bytes) => bytes,
            Err(_) => return Err(InvalidAddress),
        };
        proof {
            lemma_hex_text_is_ascii(address@);
            vstd::utf8::is_ascii_chars_encode_utf8(address@);
        }
        let ghost payload = address_bytes@;
        address_bytes.insert(0, self.prefix);
        assert(address_bytes@ =~= seq![self.prefix] + payload);
        let checksum = digest::double_sha256(address_bytes.as_slice());
        let sealed = match append_checksum(address_bytes, checksum.as_slice()) {
            Ok(bytes) => bytes,
            Err(e) => return Err(e),
        };
        assert(sealed@ == envelope(self.prefix, payload));
        proof {
            base58::lemma_encoding_is_not_empty(sealed@);
        }
        let encode = base58::encode(sealed.as_slice());
        Ok(encode)
    }

    /// Puts `0x` before a hex address.
    pub fn addprefix(address: &str) -> (prefixed: String)
        ensures
            prefixed@ == seq!['0', 'x'] + address@,
    {
        let mut prefixed = String::from_str("0x");
        prefixed.append(address);
        proof {
            reveal_strlit("0x");
            assert("0x"@ =~= seq!['0', 'x']);
        }
        prefixed
    }
}

/// Hexadecimal digits are ASCII characters.
proof fn lemma_hex_text_is_ascii(text: Seq<char>)
    requires
        is_hex_text(text),
    ensures
        vstd::utf8::is_ascii_chars(text),
{
    assert forall|i: int| 0 <= i < text.len() implies '\0' <= #[trigger] text[i] <= '\u{7f}' by {
        assert(hexadecimal::is_hex_digit(text[i]));
    }
}

} // verus!
