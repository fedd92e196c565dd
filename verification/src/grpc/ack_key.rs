//! Keys of leased tasks as text.

use vstd::prelude::*;
use vstd::utf8::*;

use crate::text;

verus! {

/// The value of a hexadecimal digit of either case.
pub open spec fn digit_value(c: u8) -> Option<u8> {
    if 0x30 <= c <= 0x39 {
        Some((c - 0x30) as u8)
    } else if 0x41 <= c <= 0x46 {
        Some((c - 0x41 + 10) as u8)
    } else if 0x61 <= c <= 0x66 {
        Some((c - 0x61 + 10) as u8)
    } else {
        None
    }
}

/// The lower-case hexadecimal digit of a number below sixteen.
pub open spec fn digit_char(v: int) -> char {
    if v < 10 {
        (0x30 + v) as char
    } else {
        (0x61 + v - 10) as char
    }
}

/// All bytes are hexadecimal digits, and their number is even.
pub open spec fn is_hex(b: Seq<u8>) -> bool {
    &&& b.len() % 2 == 0
    &&& forall|i: int| 0 <= i < b.len() ==> digit_value(#[trigger] b[i]) is Some
}

/// The bytes that pairs of digits stand for.
pub open spec fn hex_bytes(b: Seq<u8>) -> Seq<u8> {
    Seq::new(
        b.len() / 2,
        |i: int| (digit_value(b[2 * i])->0 * 16 + digit_value(b[2 * i + 1])->0) as u8,
    )
}

/// Bytes as pairs of digits.
pub open spec fn hex_text(b: Seq<u8>) -> Seq<char> {
    Seq::new(
        2 * b.len(),
        |i: int|
            if i % 2 == 0 {
                digit_char(b[i / 2] as int / 16)
            } else {
                digit_char(b[i / 2] as int % 16)
            },
    )
}

/// Why a text is no key.
#[derive(Debug, Clone, Copy, PartialEq, Eq)]
pub enum KeyFault {
    OddLength,
    InvalidCharacter { c: char, index: usize },
    InvalidLength,
}

/// What is wrong with the bytes: their number, or else the first of them that
/// is no digit.
pub open spec fn is_fault(b: Seq<u8>, f: KeyFault) -> bool {
    match f {
        KeyFault::OddLength => b.len() % 2 == 1,
        KeyFault::InvalidCharacter { c, index } => {
            &&& b.len() % 2 == 0
            &&& index < b.len()
            &&& digit_value(b[index as int]) is None
            &&& c == b[index as int] as char
            &&& forall|i: int| 0 <= i < index ==> digit_value(#[trigger] b[i]) is Some
        },
        KeyFault::InvalidLength => false,
    }
}

/// `hex::encode`: two lower-case digits for each byte.
#[verifier::external_body]
fn encode_hex(b: &[u8]) -> (r: String)
    ensures
        r@ == hex_text(b@),
{
    hex::encode(b)
}

/// `hex::decode`: the bytes that pairs of digits of either case stand for; an
/// odd number of bytes is an error, and so is the first byte that is no digit.
#[verifier::external_body]
fn decode_hex(s: &str) -> (r: Result<Vec<u8>, KeyFault>)
    ensures
        match r {
            Ok(v) => is_hex(encode_utf8(s@)) && v@ == hex_bytes(encode_utf8(s@)),
            Err(f) => is_fault(encode_utf8(s@), f),
        },
{
    match hex::decode(s) {
        Ok(v) => Ok(v),
        Err(hex::FromHexError::OddLength) => Err(KeyFault::OddLength),
        Err(hex::FromHexError::InvalidHexCharacter { c, index }) => {
            Err(KeyFault::InvalidCharacter { c, index })
        }
        Err(hex::FromHexError::InvalidStringLength) => Err(KeyFault::InvalidLength),
    }
}

/// A character in quotes, as `Debug` shows it.
pub uninterp spec fn quoted_char(c: char) -> Seq<char>;

/// `Debug` of `char`: the character in quotes, escaped where it has to be.
#[verifier::external_body]
fn quote(c: char) -> (r: String)
    ensures
        r@ == quoted_char(c),
{
    format!("{:?}", c)
}

/// What is wrong with a text, in words.
pub open spec fn fault_words(f: KeyFault) -> Seq<char> {
    match f {
        KeyFault::OddLength => "Odd number of digits"@,
        KeyFault::InvalidCharacter { c, index } => "Invalid character "@ + quoted_char(c)
            + " at position "@ + text::decimal(index as nat),
        KeyFault::InvalidLength => "Invalid string length"@,
    }
}

impl KeyFault {
    /// What is wrong, in words.
    pub fn words(&self) -> (r: String)
        ensures
            r@ == fault_words(*self),
    {
        match self {
            KeyFault::OddLength => "Odd number of digits".to_owned(),
            KeyFault::InvalidCharacter { c, index } => {
                let mut r = text::join("Invalid character ", quote(*c).as_str());
                r.append(" at position ");
                r.append(text::decimal_text(*index as u64).as_str());
                r
            },
            KeyFault::InvalidLength => "Invalid string length".to_owned(),
        }
    }
}

/// A key as text.
pub fn encode_ack_key(key: &[u8]) -> (r: String)
    ensures
        r@ == hex_text(key@),
{
    encode_hex(key)
}

/// The key that a text stands for.
pub fn parse_ack_key(ack_key: &str) -> (r: Result<Vec<u8>, KeyFault>)
    ensures
        match r {
            Ok(v) => is_hex(encode_utf8(ack_key@)) && v@ == hex_bytes(encode_utf8(ack_key@)),
            Err(f) => is_fault(encode_utf8(ack_key@), f),
        },
{
    decode_hex(ack_key)
}

/// A number below sixteen is found again in its digit.
proof fn lemma_digit(v: int)
    requires
        0 <= v < 16,
    ensures
        digit_value(digit_char(v) as u8) == Some(v as u8),
        '\0' <= digit_char(v) <= '\u{7f}',
{
}

/// A key is read back from its text: what a worker got with a task names that
/// task when it comes back.
pub proof fn law_ack_key_roundtrip(key: Seq<u8>)
    ensures
        is_hex(encode_utf8(hex_text(key))),
        hex_bytes(encode_utf8(hex_text(key))) == key,
{
    let t = hex_text(key);
    let b = encode_utf8(t);
    assert forall|i: int| 0 <= i < t.len() implies '\0' <= #[trigger] t[i] <= '\u{7f}' by {
        lemma_digit(key[i / 2] as int / 16);
        lemma_digit(key[i / 2] as int % 16);
    }
    is_ascii_chars_encode_utf8(t);
    assert forall|i: int| 0 <= i < b.len() implies digit_value(#[trigger] b[i]) == Some(
        (if i % 2 == 0 {
            key[i / 2] as int / 16
        } else {
            key[i / 2] as int % 16
        }) as u8,
    ) by {
        assert(t[i] as u8 == b[i]);
        lemma_digit(key[i / 2] as int / 16);
        lemma_digit(key[i / 2] as int % 16);
    }
    assert forall|i: int| 0 <= i < key.len() implies hex_bytes(b)[i] == key[i] by {
        assert(digit_value(b[2 * i]) == Some((key[i] as int / 16) as u8));
        assert(digit_value(b[2 * i + 1]) == Some((key[i] as int % 16) as u8));
    }
    assert(hex_bytes(b) =~= key);
}

/// Different keys have different texts.
pub proof fn law_ack_keys_differ(a: Seq<u8>, b: Seq<u8>)
    requires
        hex_text(a) == hex_text(b),
    ensures
        a == b,
{
    law_ack_key_roundtrip(a);
    law_ack_key_roundtrip(b);
}

} // verus!
