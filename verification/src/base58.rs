//! Base-58 text in the Bitcoin alphabet: what it denotes, and the calls that
//! produce and read it.

use basex_rs::{BaseX, Decode, Encode, BITCOIN};
use vstd::prelude::*;

verus! {

/// The most bytes that `encode` takes.
pub const MAX_ENCODE_LEN: usize = 0x4000_0000;

/// The fifty-eight digits, in order of value.
pub open spec fn alphabet() -> Seq<char> {
    "123456789ABCDEFGHJKLMNPQRSTUVWXYZabcdefghijkmnopqrstuvwxyz"@
}

/// The value of a digit: its place in the alphabet.
pub open spec fn digit_value(c: char) -> nat
    recommends
        alphabet().contains(c),
{
    alphabet().index_of(c) as nat
}

/// Text made of digits of the alphabet only.
pub open spec fn is_base58(text: Seq<char>) -> bool {
    forall|i: int| 0 <= i < text.len() ==> alphabet().contains(#[trigger] text[i])
}

/// The number that `bytes` write in base 256, the most significant byte first.
pub open spec fn be_value(bytes: Seq<u8>) -> nat
    decreases bytes.len(),
{
    if bytes.len() == 0 {
        0
    } else {
        256 * be_value(bytes.drop_last()) + bytes.last() as nat
    }
}

/// The shortest bytes that write `n` in base 256: none for zero.
pub open spec fn be_bytes(n: nat) -> Seq<u8>
    decreases n,
{
    if n == 0 {
        Seq::empty()
    } else {
        be_bytes(n / 256).push((n % 256) as u8)
    }
}

/// The number that `text` writes in base 58, the most significant digit first.
pub open spec fn base58_value(text: Seq<char>) -> nat
    decreases text.len(),
{
    if text.len() == 0 {
        0
    } else {
        58 * base58_value(text.drop_last()) + digit_value(text.last())
    }
}

/// The shortest digits that write `n` in base 58: none for zero.
pub open spec fn base58_digits(n: nat) -> Seq<char>
    decreases n,
{
    if n == 0 {
        Seq::empty()
    } else {
        base58_digits(n / 58).push(alphabet()[(n % 58) as int])
    }
}

/// How many items equal to `x` stand at the front of `s`.
pub open spec fn leading<T>(s: Seq<T>, x: T) -> nat
    decreases s.len(),
{
    if s.len() > 0 && s[0] == x {
        1 + leading(s.drop_first(), x)
    } else {
        0
    }
}

/// `n` times `x`.
pub open spec fn repeat<T>(x: T, n: nat) -> Seq<T> {
    Seq::new(n, |i: int| x)
}

/// The text for `bytes`: a `1` for each leading zero byte, then the digits of
/// the number that the bytes write.
pub open spec fn base58_encoding(bytes: Seq<u8>) -> Seq<char> {
    repeat('1', leading(bytes, 0u8)) + base58_digits(be_value(bytes))
}

/// The bytes for `text`, if it is base-58 text: a zero byte for each leading
/// `1`, then the bytes of the number that the digits write.
pub open spec fn base58_decoding(text: Seq<char>) -> Option<Seq<u8>> {
    if is_base58(text) {
        Some(repeat(0u8, leading(text, '1')) + be_bytes(base58_value(text)))
    } else {
        None
    }
}

/// What the decoder of `basex_rs` gives: nothing for empty text and for text
/// with a character outside the alphabet; otherwise the bytes of
/// `base58_decoding`, but one zero byte short where the text is made of `1`
/// digits only.
pub open spec fn short_decoding(text: Seq<char>) -> Option<Seq<u8>> {
    if text.len() > 0 && is_base58(text) {
        let ones = leading(text, '1');
        let zeros = if ones < text.len() {
            ones
        } else {
            (text.len() - 1) as nat
        };
        Some(repeat(0u8, zeros) + be_bytes(base58_value(text)))
    } else {
        None
    }
}

/// `BaseX::new(BITCOIN).encode`: the base-58 text of `bytes`. The crate reads
/// the first byte of an empty input and fails, and it counts its digits in an
/// `i32`: both kinds of input are kept out.
#[verifier::external_body]
fn basex_encode(bytes: &[u8]) -> (text: String)
    requires
        0 < bytes@.len() <= MAX_ENCODE_LEN,
    ensures
        text@ == base58_encoding(bytes@),
{
    BaseX::new(BITCOIN).encode(bytes)
}

/// `BaseX::new(BITCOIN).decode`: nothing for empty text and for text with a
/// character outside the alphabet; otherwise the bytes that the text denotes,
/// except that the crate restores a zero byte for each leading `1` only up to
/// the last digit but one.
#[verifier::external_body]
fn basex_decode(text: &str) -> (bytes: Option<Vec<u8>>)
    ensures
        match bytes {
            Some(b) => short_decoding(text@) == Some(b@),
            None => short_decoding(text@) is None,
        },
{
    BaseX::new(BITCOIN).decode(text.to_string())
}

/// Encodes `bytes` as base-58 text.
pub fn encode(bytes: &[u8]) -> (text: String)
    requires
        bytes@.len() <= MAX_ENCODE_LEN,
    ensures
        text@ == base58_encoding(bytes@),
{
    if bytes.len() == 0 {
        assert(base58_encoding(bytes@) =~= Seq::empty());
        String::new()
    } else {
        basex_encode(bytes)
    }
}

/// Whether every byte is zero.
fn all_zero(bytes: &Vec<u8>) -> (zero: bool)
    ensures
        zero <==> forall|i: int| 0 <= i < bytes@.len() ==> bytes@[i] == 0,
{
    let mut i: usize = 0;
    while i < bytes.len()
        invariant
            i <= bytes@.len(),
            forall|j: int| 0 <= j < i ==> bytes@[j] == 0,
        decreases bytes@.len() - i,
    {
        if bytes[i] != 0 {
            return false;
        }
        i += 1;
    }
    true
}

/// Decodes base-58 text: `None` exactly where a character is outside the
/// alphabet. The crate's decoder leaves out empty text and stops one zero
/// byte short on text of `1` digits only; both are made good here.
pub fn decode(text: &str) -> (bytes: Option<Vec<u8>>)
    ensures
        match bytes {
            Some(b) => base58_decoding(text@) == Some(b@),
            None => base58_decoding(text@) is None,
        },
{
    if text.is_empty() {
        assert(base58_decoding(text@) == Some(Seq::<u8>::empty())) by {
            assert(repeat(0u8, leading(text@, '1')) + be_bytes(base58_value(text@))
                =~= Seq::<u8>::empty());
        }
        return Some(Vec::new());
    }
    match basex_decode(text) {
        None => None,
        Some(mut bytes) => {
            let zero = all_zero(&bytes);
            let ghost found = bytes@;
            proof {
                let len = text@.len();
                let number = base58_value(text@);
                lemma_split_leading(text@, '1');
                if number == 0 {
                    lemma_zero_is_all_ones(text@);
                    assert(text@ =~= repeat('1', len) + Seq::<char>::empty());
                    lemma_leading_of_run('1', len, Seq::<char>::empty());
                    assert(zero);
                    assert(found.push(0u8) =~= repeat(0u8, len) + be_bytes(number));
                } else {
                    lemma_bytes_of_positive(number);
                    if leading(text@, '1') == len {
                        assert(text@ =~= repeat('1', len) + Seq::<char>::empty());
                        lemma_value_after_ones(len, Seq::<char>::empty());
                    }
                    assert(found[leading(text@, '1') as int] == be_bytes(number)[0]);
                    assert(!zero);
                }
            }
            if zero {
                bytes.push(0);
            }
            Some(bytes)
        },
    }
}

/// The alphabet has fifty-eight digits, no two alike, and `1` is worth zero.
pub proof fn lemma_alphabet()
    ensures
        alphabet().len() == 58,
        alphabet()[0] == '1',
        forall|k: int| 0 <= k < 58 ==> alphabet().contains(#[trigger] alphabet()[k]),
        forall|k: int| 0 <= k < 58 ==> digit_value(#[trigger] alphabet()[k]) == k,
        forall|c: char| #[trigger]
            alphabet().contains(c) ==> digit_value(c) < 58 && alphabet()[digit_value(c) as int]
                == c,
{
    reveal_strlit("123456789ABCDEFGHJKLMNPQRSTUVWXYZabcdefghijkmnopqrstuvwxyz");
    let a = alphabet();
    assert(a.len() == 58);
    assert forall|i: int, j: int| 0 <= i < j < 58 implies a[i] < a[j] by {
        lemma_alphabet_ascends(i, j);
    }
    assert forall|k: int| 0 <= k < 58 implies digit_value(#[trigger] a[k]) == k by {
        let c = a[k];
        assert(a.contains(c));
        let i = a.index_of(c);
        if i < k {
            assert(a[i] < a[k]);
        } else if k < i {
            assert(a[k] < a[i]);
        }
    }
}

/// The digits of the alphabet stand in ascending order of their code.
proof fn lemma_alphabet_ascends(i: int, j: int)
    requires
        0 <= i < j < 58,
    ensures
        alphabet()[i] < alphabet()[j],
    decreases j - i,
{
    reveal_strlit("123456789ABCDEFGHJKLMNPQRSTUVWXYZabcdefghijkmnopqrstuvwxyz");
    if j == i + 1 {
        assert(alphabet()[i] < alphabet()[i + 1]);
    } else {
        lemma_alphabet_ascends(i, j - 1);
        assert(alphabet()[j - 1] < alphabet()[j]);
    }
}

/// A sequence is its leading run of `x` followed by the rest, and the rest
/// does not begin with `x`.
pub proof fn lemma_split_leading<T>(s: Seq<T>, x: T)
    ensures
        leading(s, x) <= s.len(),
        s == repeat(x, leading(s, x)) + s.skip(leading(s, x) as int),
        leading(s, x) < s.len() ==> s[leading(s, x) as int] != x,
    decreases s.len(),
{
    if s.len() > 0 && s[0] == x {
        let t = s.drop_first();
        lemma_split_leading(t, x);
        let n = leading(t, x);
        let joined = repeat(x, n + 1) + s.skip(n as int + 1);
        assert(s.skip(n as int + 1) =~= t.skip(n as int));
        assert forall|i: int| 0 <= i < s.len() implies s[i] == joined[i] by {
            if i > 0 {
                assert(s[i] == t[i - 1]);
                assert(t[i - 1] == (repeat(x, n) + t.skip(n as int))[i - 1]);
            }
        }
        assert(s =~= joined);
    } else {
        assert(s =~= repeat(x, 0) + s.skip(0));
    }
}

/// A run of `n` times `x` before a rest that does not begin with `x` has `n`
/// leading `x`.
pub proof fn lemma_leading_of_run<T>(x: T, n: nat, rest: Seq<T>)
    requires
        rest.len() == 0 || rest[0] != x,
    ensures
        leading(repeat(x, n) + rest, x) == n,
    decreases n,
{
    let s = repeat(x, n) + rest;
    if n == 0 {
        assert(s =~= rest);
    } else {
        assert(s.drop_first() =~= repeat(x, (n - 1) as nat) + rest);
        lemma_leading_of_run(x, (n - 1) as nat, rest);
    }
}

/// Leading zero bytes add nothing to the number.
pub proof fn lemma_value_after_zeros(n: nat, rest: Seq<u8>)
    ensures
        be_value(repeat(0u8, n) + rest) == be_value(rest),
    decreases rest.len(), n,
{
    let s = repeat(0u8, n) + rest;
    if rest.len() > 0 {
        assert(s.drop_last() =~= repeat(0u8, n) + rest.drop_last());
        lemma_value_after_zeros(n, rest.drop_last());
    } else if n > 0 {
        assert(s.drop_last() =~= repeat(0u8, (n - 1) as nat) + rest);
        lemma_value_after_zeros((n - 1) as nat, rest);
    } else {
        assert(s =~= rest);
    }
}

/// Leading `1` digits add nothing to the number.
pub proof fn lemma_value_after_ones(n: nat, rest: Seq<char>)
    ensures
        base58_value(repeat('1', n) + rest) == base58_value(rest),
    decreases rest.len(), n,
{
    let s = repeat('1', n) + rest;
    lemma_alphabet();
    if rest.len() > 0 {
        assert(s.drop_last() =~= repeat('1', n) + rest.drop_last());
        lemma_value_after_ones(n, rest.drop_last());
    } else if n > 0 {
        assert(s.drop_last() =~= repeat('1', (n - 1) as nat) + rest);
        lemma_value_after_ones((n - 1) as nat, rest);
    } else {
        assert(s =~= rest);
    }
}

/// Bytes that begin with a byte other than zero write a number above zero.
pub proof fn lemma_value_positive(bytes: Seq<u8>)
    requires
        bytes.len() > 0,
        bytes[0] != 0,
    ensures
        be_value(bytes) > 0,
    decreases bytes.len(),
{
    if bytes.len() > 1 {
        lemma_value_positive(bytes.drop_last());
    }
}

/// The bytes of a number above zero begin with a byte other than zero.
pub proof fn lemma_bytes_of_positive(n: nat)
    requires
        n > 0,
    ensures
        be_bytes(n).len() > 0,
        be_bytes(n)[0] != 0,
    decreases n,
{
    let front = be_bytes(n / 256);
    if n / 256 > 0 {
        lemma_bytes_of_positive(n / 256);
        assert(be_bytes(n)[0] == front[0]);
    } else {
        assert(front.len() == 0);
        assert(be_bytes(n)[0] == (n % 256) as u8);
    }
}

/// Bytes without a leading zero are the bytes of the number they write.
pub proof fn lemma_bytes_of_value(bytes: Seq<u8>)
    requires
        bytes.len() == 0 || bytes[0] != 0,
    ensures
        be_bytes(be_value(bytes)) == bytes,
    decreases bytes.len(),
{
    if bytes.len() > 0 {
        let front = bytes.drop_last();
        let n = be_value(bytes);
        lemma_value_positive(bytes);
        lemma_bytes_of_value(front);
        assert(n / 256 == be_value(front));
        assert(n % 256 == bytes.last());
        assert(be_bytes(n) =~= bytes);
    }
}

/// The digits of a number are base-58 text that writes that number, and those
/// of a number above zero begin with a digit other than `1`.
pub proof fn lemma_digits_of_number(n: nat)
    ensures
        is_base58(base58_digits(n)),
        base58_value(base58_digits(n)) == n,
        n > 0 ==> base58_digits(n).len() > 0 && base58_digits(n)[0] != '1',
    decreases n,
{
    lemma_alphabet();
    if n > 0 {
        let front = base58_digits(n / 58);
        let digits = base58_digits(n);
        lemma_digits_of_number(n / 58);
        assert(digits.drop_last() =~= front);
        assert(digits.last() == alphabet()[(n % 58) as int]);
        if n / 58 == 0 {
            assert(digit_value(digits[0]) == n);
        }
    }
}

/// Base-58 text that writes zero is made of `1` digits only.
pub proof fn lemma_zero_is_all_ones(text: Seq<char>)
    requires
        is_base58(text),
        base58_value(text) == 0,
    ensures
        text == repeat('1', text.len()),
    decreases text.len(),
{
    lemma_alphabet();
    if text.len() > 0 {
        let front = text.drop_last();
        assert forall|i: int| 0 <= i < front.len() implies alphabet().contains(
            #[trigger] front[i],
        ) by {
            assert(front[i] == text[i]);
        }
        lemma_zero_is_all_ones(front);
        assert(alphabet().contains(text.last()));
        assert(digit_value(text.last()) == 0);
        assert forall|i: int| 0 <= i < text.len() implies text[i] == '1' by {
            if i < front.len() {
                assert(text[i] == front[i]);
            }
        }
        assert(text =~= repeat('1', text.len()));
    }
}

/// Decoding the encoding of `bytes` gives `bytes` back.
pub proof fn lemma_decode_encode(bytes: Seq<u8>)
    ensures
        base58_decoding(base58_encoding(bytes)) == Some(bytes),
{
    let zeros = leading(bytes, 0u8);
    let rest = bytes.skip(zeros as int);
    let number = be_value(bytes);
    let digits = base58_digits(number);
    let text = base58_encoding(bytes);
    lemma_alphabet();
    lemma_split_leading(bytes, 0u8);
    lemma_value_after_zeros(zeros, rest);
    lemma_bytes_of_value(rest);
    lemma_digits_of_number(number);
    lemma_leading_of_run('1', zeros, digits);
    lemma_value_after_ones(zeros, digits);
    assert(is_base58(text));
    assert(repeat(0u8, zeros) + be_bytes(number) == bytes);
}

/// Base-58 text that begins with a digit other than `1` writes a number
/// above zero.
pub proof fn lemma_text_value_positive(text: Seq<char>)
    requires
        is_base58(text),
        text.len() > 0,
        text[0] != '1',
    ensures
        base58_value(text) > 0,
    decreases text.len(),
{
    lemma_alphabet();
    if text.len() > 1 {
        let front = text.drop_last();
        assert forall|i: int| 0 <= i < front.len() implies alphabet().contains(
            #[trigger] front[i],
        ) by {
            assert(front[i] == text[i]);
        }
        lemma_text_value_positive(front);
    } else {
        assert(alphabet().contains(text[0]));
    }
}

/// Base-58 text without a leading `1` is the digits of the number it writes.
pub proof fn lemma_digits_of_value(text: Seq<char>)
    requires
        is_base58(text),
        text.len() == 0 || text[0] != '1',
    ensures
        base58_digits(base58_value(text)) == text,
    decreases text.len(),
{
    lemma_alphabet();
    if text.len() > 0 {
        let front = text.drop_last();
        let n = base58_value(text);
        assert forall|i: int| 0 <= i < front.len() implies alphabet().contains(
            #[trigger] front[i],
        ) by {
            assert(front[i] == text[i]);
        }
        assert(alphabet().contains(text.last()));
        lemma_text_value_positive(text);
        lemma_digits_of_value(front);
        assert(n / 58 == base58_value(front));
        assert(n % 58 == digit_value(text.last()));
        assert(base58_digits(n) =~= text);
    }
}

/// The bytes of a number write that number.
pub proof fn lemma_value_of_bytes(n: nat)
    ensures
        be_value(be_bytes(n)) == n,
    decreases n,
{
    if n > 0 {
        lemma_value_of_bytes(n / 256);
        assert(be_bytes(n).drop_last() =~= be_bytes(n / 256));
    }
}

/// Encoding the decoding of base-58 text gives the text back.
pub proof fn lemma_encode_decode(text: Seq<char>)
    requires
        is_base58(text),
    ensures
        base58_decoding(text) matches Some(bytes) && base58_encoding(bytes) == text,
{
    let ones = leading(text, '1');
    let rest = text.skip(ones as int);
    let number = base58_value(text);
    let bytes = repeat(0u8, ones) + be_bytes(number);
    lemma_split_leading(text, '1');
    lemma_value_after_ones(ones, rest);
    assert forall|i: int| 0 <= i < rest.len() implies alphabet().contains(#[trigger] rest[i]) by {
        assert(rest[i] == text[ones + i]);
    }
    lemma_digits_of_value(rest);
    if number > 0 {
        lemma_bytes_of_positive(number);
    }
    lemma_leading_of_run(0u8, ones, be_bytes(number));
    lemma_value_after_zeros(ones, be_bytes(number));
    lemma_value_of_bytes(number);
    assert(repeat('1', ones) + base58_digits(number) == text);
}

/// Two byte strings with one encoding are one byte string.
pub proof fn lemma_encoding_is_injective(a: Seq<u8>, b: Seq<u8>)
    requires
        base58_encoding(a) == base58_encoding(b),
    ensures
        a == b,
{
    lemma_decode_encode(a);
    lemma_decode_encode(b);
}

/// Only the empty byte string has an empty encoding.
pub proof fn lemma_encoding_is_not_empty(bytes: Seq<u8>)
    requires
        bytes.len() > 0,
    ensures
        base58_encoding(bytes).len() > 0,
{
    if bytes[0] != 0 {
        lemma_value_positive(bytes);
        lemma_digits_of_number(be_value(bytes));
    }
}

} // verus!
