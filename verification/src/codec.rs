//! The byte format of stored records.
//!
//! Integers are fixed-width little-endian, a string or a byte string is its
//! length as eight bytes and then its content, an option is a tag byte and
//! then its content. This is the format of `bincode::serialize`, which does
//! the work field by field.

use vstd::bytes::*;
use vstd::prelude::*;
use vstd::slice::*;
use vstd::utf8::*;

use crate::error::QueueError;
use crate::text;

verus! {

/// The encoding of a byte string.
pub open spec fn bytes_code(b: Seq<u8>) -> Seq<u8> {
    spec_u64_to_le_bytes(b.len() as u64) + b
}

/// The encoding of a string.
pub open spec fn str_code(s: Seq<char>) -> Seq<u8> {
    bytes_code(encode_utf8(s))
}

/// The encoding of a truth value.
pub open spec fn bool_code(b: bool) -> Seq<u8> {
    seq![if b { 1u8 } else { 0u8 }]
}

/// The encoding of an optional number.
pub open spec fn opt_code(o: Option<u64>) -> Seq<u8> {
    match o {
        None => seq![0u8],
        Some(x) => seq![1u8] + spec_u64_to_le_bytes(x),
    }
}

/// Reads a `u32` from the front: the value and what follows it.
pub open spec fn read_u32(b: Seq<u8>) -> Option<(u32, Seq<u8>)> {
    if b.len() < 4 {
        None
    } else {
        Some((spec_u32_from_le_bytes(b.take(4)), b.skip(4)))
    }
}

/// Reads a `u64` from the front: the value and what follows it.
pub open spec fn read_u64(b: Seq<u8>) -> Option<(u64, Seq<u8>)> {
    if b.len() < 8 {
        None
    } else {
        Some((spec_u64_from_le_bytes(b.take(8)), b.skip(8)))
    }
}

/// Reads a byte string from the front.
pub open spec fn read_bytes(b: Seq<u8>) -> Option<(Seq<u8>, Seq<u8>)> {
    match read_u64(b) {
        None => None,
        Some((n, r)) => if n > r.len() {
            None
        } else {
            Some((r.take(n as int), r.skip(n as int)))
        },
    }
}

/// Reads a string from the front; its content must be UTF-8.
pub open spec fn read_str(b: Seq<u8>) -> Option<(Seq<char>, Seq<u8>)> {
    match read_bytes(b) {
        None => None,
        Some((s, r)) => if valid_utf8(s) {
            Some((decode_utf8(s), r))
        } else {
            None
        },
    }
}

/// Reads a truth value from the front: a byte that is 0 or 1.
pub open spec fn read_bool(b: Seq<u8>) -> Option<(bool, Seq<u8>)> {
    if b.len() < 1 || b[0] > 1 {
        None
    } else {
        Some((b[0] == 1, b.skip(1)))
    }
}

/// Reads an optional number from the front.
pub open spec fn read_opt(b: Seq<u8>) -> Option<(Option<u64>, Seq<u8>)> {
    match read_bool(b) {
        None => None,
        Some((false, r)) => Some((None, r)),
        Some((true, r)) => match read_u64(r) {
            None => None,
            Some((x, r2)) => Some((Some(x), r2)),
        },
    }
}

/// `bincode::serialize` of a `u32`: four little-endian bytes, without fail.
#[verifier::external_body]
fn encode_u32(x: u32) -> (r: Result<Vec<u8>, Box<bincode::ErrorKind>>)
    ensures
        r is Ok,
        r->Ok_0@ == spec_u32_to_le_bytes(x),
{
    bincode::serialize(&x)
}

/// `bincode::serialize` of a `u64`: eight little-endian bytes, without fail.
#[verifier::external_body]
fn encode_u64(x: u64) -> (r: Result<Vec<u8>, Box<bincode::ErrorKind>>)
    ensures
        r is Ok,
        r->Ok_0@ == spec_u64_to_le_bytes(x),
{
    bincode::serialize(&x)
}

/// `bincode::serialize` of a slice of bytes: the length as eight
/// little-endian bytes and the bytes themselves, without fail.
#[verifier::external_body]
fn encode_bytes(x: &[u8]) -> (r: Result<Vec<u8>, Box<bincode::ErrorKind>>)
    ensures
        r is Ok,
        r->Ok_0@ == bytes_code(x@),
{
    bincode::serialize(x)
}

/// `bincode::serialize` of a string: the length of its UTF-8 form as eight
/// little-endian bytes and that form, without fail.
#[verifier::external_body]
fn encode_str(x: &str) -> (r: Result<Vec<u8>, Box<bincode::ErrorKind>>)
    ensures
        r is Ok,
        r->Ok_0@ == str_code(x@),
{
    bincode::serialize(x)
}

/// `bincode::serialize` of a `bool`: one byte, 1 or 0, without fail.
#[verifier::external_body]
fn encode_bool(x: bool) -> (r: Result<Vec<u8>, Box<bincode::ErrorKind>>)
    ensures
        r is Ok,
        r->Ok_0@ == bool_code(x),
{
    bincode::serialize(&x)
}

/// `bincode::serialize` of an `Option<u64>`: a byte 0, or a byte 1 and the
/// number as eight little-endian bytes, without fail.
#[verifier::external_body]
fn encode_opt(x: Option<u64>) -> (r: Result<Vec<u8>, Box<bincode::ErrorKind>>)
    ensures
        r is Ok,
        r->Ok_0@ == opt_code(x),
{
    bincode::serialize(&x)
}

/// `bincode::deserialize` of a `u32`: the first four bytes, little-endian;
/// an error if there are fewer. What follows is not looked at.
#[verifier::external_body]
fn decode_u32(b: &[u8]) -> (r: Result<u32, Box<bincode::ErrorKind>>)
    ensures
        match r {
            Ok(v) => read_u32(b@) matches Some(p) && p.0 == v,
            Err(_) => read_u32(b@) is None,
        },
{
    bincode::deserialize(b)
}

/// `bincode::deserialize` of a `u64`: the first eight bytes, little-endian;
/// an error if there are fewer. What follows is not looked at.
#[verifier::external_body]
fn decode_u64(b: &[u8]) -> (r: Result<u64, Box<bincode::ErrorKind>>)
    ensures
        match r {
            Ok(v) => read_u64(b@) matches Some(p) && p.0 == v,
            Err(_) => read_u64(b@) is None,
        },
{
    bincode::deserialize(b)
}

/// `bincode::deserialize` of a `Vec<u8>`: eight bytes of length, then as many
/// bytes; an error if there are fewer. What follows is not looked at.
#[verifier::external_body]
fn decode_bytes(b: &[u8]) -> (r: Result<Vec<u8>, Box<bincode::ErrorKind>>)
    ensures
        match r {
            Ok(v) => read_bytes(b@) matches Some(p) && p.0 == v@,
            Err(_) => read_bytes(b@) is None,
        },
{
    bincode::deserialize(b)
}

/// `bincode::deserialize` of a `String`: eight bytes of length, then as many
/// bytes of UTF-8; an error if there are fewer or they are not UTF-8. What
/// follows is not looked at.
#[verifier::external_body]
fn decode_str(b: &[u8]) -> (r: Result<String, Box<bincode::ErrorKind>>)
    ensures
        match r {
            Ok(v) => read_str(b@) matches Some(p) && p.0 == v@,
            Err(_) => read_str(b@) is None,
        },
{
    bincode::deserialize(b)
}

/// `bincode::deserialize` of a `bool`: a first byte of 1 or 0, an error
/// otherwise. What follows is not looked at.
#[verifier::external_body]
fn decode_bool(b: &[u8]) -> (r: Result<bool, Box<bincode::ErrorKind>>)
    ensures
        match r {
            Ok(v) => read_bool(b@) matches Some(p) && p.0 == v,
            Err(_) => read_bool(b@) is None,
        },
{
    bincode::deserialize(b)
}

/// `bincode::deserialize` of an `Option<u64>`: a first byte of 0, or a first
/// byte of 1 and eight little-endian bytes, an error otherwise. What follows
/// is not looked at.
#[verifier::external_body]
fn decode_opt(b: &[u8]) -> (r: Result<Option<u64>, Box<bincode::ErrorKind>>)
    ensures
        match r {
            Ok(v) => read_opt(b@) matches Some(p) && p.0 == v,
            Err(_) => read_opt(b@) is None,
        },
{
    bincode::deserialize(b)
}

/// `bincode::ErrorKind::Custom` with the given words. An error is carried
/// unread, so nothing is said of the value.
#[verifier::external_body]
fn custom_error(message: String) -> Box<bincode::ErrorKind> {
    Box::new(bincode::ErrorKind::Custom(message))
}

/// The decoding error for an integer where `expected` was expected. Its words
/// are those of `integer_message`; the error is carried unread, so only that it
/// is a decoding error is stated of it.
pub(crate) fn invalid_integer(value: u64, expected: &str) -> (r: QueueError)
    ensures
        r is Serialization,
{
    QueueError::Serialization(custom_error(integer_message(value, expected)))
}

/// What is said of an integer where something else was expected.
pub open spec fn integer_words(value: u64, expected: Seq<char>) -> Seq<char> {
    "invalid value: integer `"@ + text::decimal(value as nat) + "`, expected "@ + expected
}

/// The words for an integer where `expected` was expected.
pub fn integer_message(value: u64, expected: &str) -> (r: String)
    ensures
        r@ == integer_words(value, expected@),
{
    let mut message = text::join("invalid value: integer `", text::decimal_text(value).as_str());
    message.append("`, expected ");
    message.append(expected);
    message
}

/// Builds a record field by field.
pub struct Encoder {
    bytes: Vec<u8>,
}

impl View for Encoder {
    type V = Seq<u8>;

    closed spec fn view(&self) -> Seq<u8> {
        self.bytes@
    }
}

impl Encoder {
    /// An empty record.
    pub fn new() -> (r: Encoder)
        ensures
            r@ == Seq::<u8>::empty(),
    {
        Encoder { bytes: Vec::new() }
    }

    /// Appends a `u32`.
    pub fn put_u32(&mut self, x: u32) -> (r: Result<(), QueueError>)
        ensures
            r is Ok,
            final(self)@ == old(self)@ + spec_u32_to_le_bytes(x),
    {
        match encode_u32(x) {
            Ok(mut v) => {
                self.bytes.append(&mut v);
                Ok(())
            },
            Err(e) => Err(QueueError::Serialization(e)),
        }
    }

    /// Appends a `u64`.
    pub fn put_u64(&mut self, x: u64) -> (r: Result<(), QueueError>)
        ensures
            r is Ok,
            final(self)@ == old(self)@ + spec_u64_to_le_bytes(x),
    {
        match encode_u64(x) {
            Ok(mut v) => {
                self.bytes.append(&mut v);
                Ok(())
            },
            Err(e) => Err(QueueError::Serialization(e)),
        }
    }

    /// Appends a byte string.
    pub fn put_bytes(&mut self, x: &[u8]) -> (r: Result<(), QueueError>)
        ensures
            r is Ok,
            final(self)@ == old(self)@ + bytes_code(x@),
    {
        match encode_bytes(x) {
            Ok(mut v) => {
                self.bytes.append(&mut v);
                Ok(())
            },
            Err(e) => Err(QueueError::Serialization(e)),
        }
    }

    /// Appends a string.
    pub fn put_str(&mut self, x: &str) -> (r: Result<(), QueueError>)
        ensures
            r is Ok,
            final(self)@ == old(self)@ + str_code(x@),
    {
        match encode_str(x) {
            Ok(mut v) => {
                self.bytes.append(&mut v);
                Ok(())
            },
            Err(e) => Err(QueueError::Serialization(e)),
        }
    }

    /// Appends a truth value.
    pub fn put_bool(&mut self, x: bool) -> (r: Result<(), QueueError>)
        ensures
            r is Ok,
            final(self)@ == old(self)@ + bool_code(x),
    {
        match encode_bool(x) {
            Ok(mut v) => {
                self.bytes.append(&mut v);
                Ok(())
            },
            Err(e) => Err(QueueError::Serialization(e)),
        }
    }

    /// Appends an optional number.
    pub fn put_opt(&mut self, x: Option<u64>) -> (r: Result<(), QueueError>)
        ensures
            r is Ok,
            final(self)@ == old(self)@ + opt_code(x),
    {
        match encode_opt(x) {
            Ok(mut v) => {
                self.bytes.append(&mut v);
                Ok(())
            },
            Err(e) => Err(QueueError::Serialization(e)),
        }
    }

    /// The finished record.
    pub fn finish(self) -> (r: Vec<u8>)
        ensures
            r@ == self@,
    {
        self.bytes
    }
}

/// Reads a record field by field; the view is what is left to read.
pub struct Decoder<'a> {
    rest: &'a [u8],
}

impl<'a> View for Decoder<'a> {
    type V = Seq<u8>;

    closed spec fn view(&self) -> Seq<u8> {
        self.rest@
    }
}

impl<'a> Decoder<'a> {
    /// Starts at the front of `bytes`.
    pub fn new(bytes: &'a [u8]) -> (r: Decoder<'a>)
        ensures
            r@ == bytes@,
    {
        Decoder { rest: bytes }
    }

    /// Takes a `u32` off the front.
    pub fn take_u32(&mut self) -> (r: Result<u32, QueueError>)
        ensures
            match r {
                Ok(v) => read_u32(old(self)@) == Some((v, final(self)@)),
                Err(e) => read_u32(old(self)@) is None && e is Serialization,
            },
    {
        match decode_u32(self.rest) {
            Ok(v) => {
                self.rest = slice_subrange(self.rest, 4, self.rest.len());
                proof {
                    assert(self@ =~= old(self)@.skip(4));
                }
                Ok(v)
            },
            Err(e) => Err(QueueError::Serialization(e)),
        }
    }

    /// Takes a `u64` off the front.
    pub fn take_u64(&mut self) -> (r: Result<u64, QueueError>)
        ensures
            match r {
                Ok(v) => read_u64(old(self)@) == Some((v, final(self)@)),
                Err(e) => read_u64(old(self)@) is None && e is Serialization,
            },
    {
        match decode_u64(self.rest) {
            Ok(v) => {
                self.rest = slice_subrange(self.rest, 8, self.rest.len());
                proof {
                    assert(self@ =~= old(self)@.skip(8));
                }
                Ok(v)
            },
            Err(e) => Err(QueueError::Serialization(e)),
        }
    }

    /// Takes a byte string off the front.
    pub fn take_bytes(&mut self) -> (r: Result<Vec<u8>, QueueError>)
        ensures
            match r {
                Ok(v) => read_bytes(old(self)@) == Some((v@, final(self)@)),
                Err(e) => read_bytes(old(self)@) is None && e is Serialization,
            },
    {
        match decode_bytes(self.rest) {
            Ok(v) => {
                let total: usize = self.rest.len();
                proof {
                    lemma_read_bytes_len(self@);
                    assert(8 + v@.len() <= total);
                }
                self.rest = slice_subrange(self.rest, 8 + v.len(), total);
                proof {
                    assert(self@ =~= old(self)@.skip(8).skip(v@.len() as int));
                }
                Ok(v)
            },
            Err(e) => Err(QueueError::Serialization(e)),
        }
    }

    /// Takes a string off the front.
    pub fn take_str(&mut self) -> (r: Result<String, QueueError>)
        ensures
            match r {
                Ok(v) => read_str(old(self)@) == Some((v@, final(self)@)),
                Err(e) => read_str(old(self)@) is None && e is Serialization,
            },
    {
        match decode_str(self.rest) {
            Ok(v) => {
                let total: usize = self.rest.len();
                proof {
                    lemma_read_bytes_len(self@);
                    decode_utf8_encode_utf8((read_bytes(self@)->0).0);
                }
                let n: usize = v.as_str().len();
                assert(8 + n <= total);
                self.rest = slice_subrange(self.rest, 8 + n, total);
                proof {
                    assert(self@ =~= old(self)@.skip(8).skip(n as int));
                }
                Ok(v)
            },
            Err(e) => Err(QueueError::Serialization(e)),
        }
    }

    /// Takes a truth value off the front.
    pub fn take_bool(&mut self) -> (r: Result<bool, QueueError>)
        ensures
            match r {
                Ok(v) => read_bool(old(self)@) == Some((v, final(self)@)),
                Err(e) => read_bool(old(self)@) is None && e is Serialization,
            },
    {
        match decode_bool(self.rest) {
            Ok(v) => {
                self.rest = slice_subrange(self.rest, 1, self.rest.len());
                proof {
                    assert(self@ =~= old(self)@.skip(1));
                }
                Ok(v)
            },
            Err(e) => Err(QueueError::Serialization(e)),
        }
    }

    /// Takes an optional number off the front.
    pub fn take_opt(&mut self) -> (r: Result<Option<u64>, QueueError>)
        ensures
            match r {
                Ok(v) => read_opt(old(self)@) == Some((v, final(self)@)),
                Err(e) => read_opt(old(self)@) is None && e is Serialization,
            },
    {
        match decode_opt(self.rest) {
            Ok(v) => {
                let n: usize = if v.is_some() {
                    9
                } else {
                    1
                };
                self.rest = slice_subrange(self.rest, n, self.rest.len());
                proof {
                    if v is Some {
                        assert(old(self)@.skip(1).skip(8) =~= old(self)@.skip(9));
                    }
                    assert(self@ =~= old(self)@.skip(n as int));
                }
                Ok(v)
            },
            Err(e) => Err(QueueError::Serialization(e)),
        }
    }
}

/// A byte string that is read lies within what was there.
proof fn lemma_read_bytes_len(b: Seq<u8>)
    requires
        read_bytes(b) is Some,
    ensures
        8 + (read_bytes(b)->0).0.len() <= b.len(),
        (read_bytes(b)->0).1 == b.skip(8).skip((read_bytes(b)->0).0.len() as int),
{
}

/// A `u32` is read back as it was written, whatever follows it.
pub proof fn lemma_read_u32(x: u32, rest: Seq<u8>)
    ensures
        read_u32(spec_u32_to_le_bytes(x) + rest) == Some((x, rest)),
{
    lemma_auto_spec_u32_to_from_le_bytes();
    let b = spec_u32_to_le_bytes(x) + rest;
    assert(b.take(4) =~= spec_u32_to_le_bytes(x));
    assert(b.skip(4) =~= rest);
}

/// A `u64` is read back as it was written, whatever follows it.
pub proof fn lemma_read_u64(x: u64, rest: Seq<u8>)
    ensures
        read_u64(spec_u64_to_le_bytes(x) + rest) == Some((x, rest)),
{
    lemma_auto_spec_u64_to_from_le_bytes();
    let b = spec_u64_to_le_bytes(x) + rest;
    assert(b.take(8) =~= spec_u64_to_le_bytes(x));
    assert(b.skip(8) =~= rest);
}

/// A byte string is read back as it was written, whatever follows it.
pub proof fn lemma_read_bytes(x: Seq<u8>, rest: Seq<u8>)
    requires
        x.len() <= u64::MAX,
    ensures
        read_bytes(bytes_code(x) + rest) == Some((x, rest)),
{
    let n = spec_u64_to_le_bytes(x.len() as u64);
    assert(bytes_code(x) + rest =~= n + (x + rest));
    lemma_read_u64(x.len() as u64, x + rest);
    assert((x + rest).take(x.len() as int) =~= x);
    assert((x + rest).skip(x.len() as int) =~= rest);
}

/// A string is read back as it was written, whatever follows it.
pub proof fn lemma_read_str(x: Seq<char>, rest: Seq<u8>)
    requires
        encode_utf8(x).len() <= u64::MAX,
    ensures
        read_str(str_code(x) + rest) == Some((x, rest)),
{
    lemma_read_bytes(encode_utf8(x), rest);
    encode_utf8_valid_utf8(x);
    encode_utf8_decode_utf8(x);
}

/// A truth value is read back as it was written, whatever follows it.
pub proof fn lemma_read_bool(x: bool, rest: Seq<u8>)
    ensures
        read_bool(bool_code(x) + rest) == Some((x, rest)),
{
    assert((bool_code(x) + rest).skip(1) =~= rest);
}

/// An optional number is read back as it was written, whatever follows it.
pub proof fn lemma_read_opt(x: Option<u64>, rest: Seq<u8>)
    ensures
        read_opt(opt_code(x) + rest) == Some((x, rest)),
{
    match x {
        None => {
            assert((opt_code(x) + rest).skip(1) =~= rest);
        },
        Some(v) => {
            assert((opt_code(x) + rest).skip(1) =~= spec_u64_to_le_bytes(v) + rest);
            lemma_read_u64(v, rest);
        },
    }
}

} // verus!
