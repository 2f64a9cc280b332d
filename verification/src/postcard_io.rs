//! The calls into postcard that the codecs make.
use vstd::prelude::*;
use crate::varint::{
    is_rest_of, parse_bool, parse_i128, parse_i32, parse_i64, parse_isize, parse_u32, parse_u64,
    parse_u8, parse_usize, parse_u16, parse_i16, parse_u128, taken, truncated, varint, zigzag,
};

verus! {

/// Why a read failed: the bytes ended inside the value, or anything else.
#[derive(Debug)]
pub enum ReadFailure {
    End(postcard::Error),
    Other(postcard::Error),
}

impl ReadFailure {
    /// The bytes ended inside the value.
    pub fn is_end(&self) -> (r: bool)
        ensures
            r == (self is End),
    {
        match self {
            ReadFailure::End(_) => true,
            ReadFailure::Other(_) => false,
        }
    }

    /// The error postcard reported.
    pub fn into_error(self) -> (r: postcard::Error)
        ensures
            r == match self {
                ReadFailure::End(e) => e,
                ReadFailure::Other(e) => e,
            },
    {
        match self {
            ReadFailure::End(e) => e,
            ReadFailure::Other(e) => e,
        }
    }
}

/// postcard's error type, carried through unchanged.
#[verifier::external_type_specification]
#[verifier::external_body]
pub struct ExPostcardError(postcard::Error);

/// `postcard::to_allocvec` on a `usize`: the LEB128 bytes of the value.
/// Serializing into an `AllocVec` cannot fail, so the result is `Ok`.
#[verifier::external_body]
pub(crate) fn usize_to_bytes(v: usize) -> (r: Result<Vec<u8>, postcard::Error>)
    ensures
        r is Ok,
        r matches Ok(b) ==> b@ == varint(v as nat),
{
    postcard::to_allocvec(&v)
}

/// `postcard::take_from_bytes::<usize>`: reads a LEB128 value of at most ten bytes that fits in 64 bits and in a `usize`. It hands back the bytes
/// after the value, and fails exactly when no such value stands at the front;
/// the failure is `End` (postcard's `DeserializeUnexpectedEnd`) exactly when the
/// bytes run out before the value ends.
#[verifier::external_body]
pub(crate) fn usize_take_from_bytes<'a>(s: &'a [u8]) -> (r: Result<(usize, &'a [u8]), ReadFailure>)
    ensures
        r is Ok <==> parse_usize(s@) is Some,
        r matches Ok((v, rest)) ==> parse_usize(s@) == Some((v as nat, taken(s@, rest@)))
            && is_rest_of(s@, rest@),
        r matches Err(f) ==> (f is End <==> truncated(s@, 10)),
{
    match postcard::take_from_bytes::<usize>(s) {
        Ok(x) => Ok(x),
        Err(e @ postcard::Error::DeserializeUnexpectedEnd) => Err(ReadFailure::End(e)),
        Err(e) => Err(ReadFailure::Other(e)),
    }
}

/// `postcard::to_allocvec` on a `u64`: the LEB128 bytes of the value.
/// Serializing into an `AllocVec` cannot fail, so the result is `Ok`.
#[verifier::external_body]
pub(crate) fn u64_to_bytes(v: u64) -> (r: Result<Vec<u8>, postcard::Error>)
    ensures
        r is Ok,
        r matches Ok(b) ==> b@ == varint(v as nat),
{
    postcard::to_allocvec(&v)
}

/// `postcard::take_from_bytes::<u64>`: reads a LEB128 value of at most ten bytes that fits in 64 bits. It hands back the bytes
/// after the value, and fails exactly when no such value stands at the front;
/// the failure is `End` (postcard's `DeserializeUnexpectedEnd`) exactly when the
/// bytes run out before the value ends.
#[verifier::external_body]
pub(crate) fn u64_take_from_bytes<'a>(s: &'a [u8]) -> (r: Result<(u64, &'a [u8]), ReadFailure>)
    ensures
        r is Ok <==> parse_u64(s@) is Some,
        r matches Ok((v, rest)) ==> parse_u64(s@) == Some((v as nat, taken(s@, rest@)))
            && is_rest_of(s@, rest@),
        r matches Err(f) ==> (f is End <==> truncated(s@, 10)),
{
    match postcard::take_from_bytes::<u64>(s) {
        Ok(x) => Ok(x),
        Err(e @ postcard::Error::DeserializeUnexpectedEnd) => Err(ReadFailure::End(e)),
        Err(e) => Err(ReadFailure::Other(e)),
    }
}

/// `postcard::to_allocvec` on a `u32`: the LEB128 bytes of the value.
/// Serializing into an `AllocVec` cannot fail, so the result is `Ok`.
#[verifier::external_body]
pub(crate) fn u32_to_bytes(v: u32) -> (r: Result<Vec<u8>, postcard::Error>)
    ensures
        r is Ok,
        r matches Ok(b) ==> b@ == varint(v as nat),
{
    postcard::to_allocvec(&v)
}

/// `postcard::take_from_bytes::<u32>`: reads a LEB128 value of at most five bytes that fits in 32 bits. It hands back the bytes
/// after the value, and fails exactly when no such value stands at the front;
/// the failure is `End` (postcard's `DeserializeUnexpectedEnd`) exactly when the
/// bytes run out before the value ends.
#[verifier::external_body]
pub(crate) fn u32_take_from_bytes<'a>(s: &'a [u8]) -> (r: Result<(u32, &'a [u8]), ReadFailure>)
    ensures
        r is Ok <==> parse_u32(s@) is Some,
        r matches Ok((v, rest)) ==> parse_u32(s@) == Some((v as nat, taken(s@, rest@)))
            && is_rest_of(s@, rest@),
        r matches Err(f) ==> (f is End <==> truncated(s@, 5)),
{
    match postcard::take_from_bytes::<u32>(s) {
        Ok(x) => Ok(x),
        Err(e @ postcard::Error::DeserializeUnexpectedEnd) => Err(ReadFailure::End(e)),
        Err(e) => Err(ReadFailure::Other(e)),
    }
}

/// `postcard::to_allocvec` on a `isize`: the LEB128 bytes of the zigzagged value.
/// Serializing into an `AllocVec` cannot fail, so the result is `Ok`.
#[verifier::external_body]
pub(crate) fn isize_to_bytes(v: isize) -> (r: Result<Vec<u8>, postcard::Error>)
    ensures
        r is Ok,
        r matches Ok(b) ==> b@ == varint(zigzag(v as int)),
{
    postcard::to_allocvec(&v)
}

/// `postcard::take_from_bytes::<isize>`: reads an `i64` as a zigzagged `u64`, which must fit in an `isize`. It hands back the bytes
/// after the value, and fails exactly when no such value stands at the front;
/// the failure is `End` (postcard's `DeserializeUnexpectedEnd`) exactly when the
/// bytes run out before the value ends.
#[verifier::external_body]
pub(crate) fn isize_take_from_bytes<'a>(s: &'a [u8]) -> (r: Result<(isize, &'a [u8]), ReadFailure>)
    ensures
        r is Ok <==> parse_isize(s@) is Some,
        r matches Ok((v, rest)) ==> parse_isize(s@) == Some((v as int, taken(s@, rest@)))
            && is_rest_of(s@, rest@),
        r matches Err(f) ==> (f is End <==> truncated(s@, 10)),
{
    match postcard::take_from_bytes::<isize>(s) {
        Ok(x) => Ok(x),
        Err(e @ postcard::Error::DeserializeUnexpectedEnd) => Err(ReadFailure::End(e)),
        Err(e) => Err(ReadFailure::Other(e)),
    }
}

/// `postcard::to_allocvec` on a `i64`: the LEB128 bytes of the zigzagged value.
/// Serializing into an `AllocVec` cannot fail, so the result is `Ok`.
#[verifier::external_body]
pub(crate) fn i64_to_bytes(v: i64) -> (r: Result<Vec<u8>, postcard::Error>)
    ensures
        r is Ok,
        r matches Ok(b) ==> b@ == varint(zigzag(v as int)),
{
    postcard::to_allocvec(&v)
}

/// `postcard::take_from_bytes::<i64>`: reads a zigzagged LEB128 value of at most ten bytes that fits in 64 bits. It hands back the bytes
/// after the value, and fails exactly when no such value stands at the front;
/// the failure is `End` (postcard's `DeserializeUnexpectedEnd`) exactly when the
/// bytes run out before the value ends.
#[verifier::external_body]
pub(crate) fn i64_take_from_bytes<'a>(s: &'a [u8]) -> (r: Result<(i64, &'a [u8]), ReadFailure>)
    ensures
        r is Ok <==> parse_i64(s@) is Some,
        r matches Ok((v, rest)) ==> parse_i64(s@) == Some((v as int, taken(s@, rest@)))
            && is_rest_of(s@, rest@),
        r matches Err(f) ==> (f is End <==> truncated(s@, 10)),
{
    match postcard::take_from_bytes::<i64>(s) {
        Ok(x) => Ok(x),
        Err(e @ postcard::Error::DeserializeUnexpectedEnd) => Err(ReadFailure::End(e)),
        Err(e) => Err(ReadFailure::Other(e)),
    }
}

/// `postcard::to_allocvec` on a `i32`: the LEB128 bytes of the zigzagged value.
/// Serializing into an `AllocVec` cannot fail, so the result is `Ok`.
#[verifier::external_body]
pub(crate) fn i32_to_bytes(v: i32) -> (r: Result<Vec<u8>, postcard::Error>)
    ensures
        r is Ok,
        r matches Ok(b) ==> b@ == varint(zigzag(v as int)),
{
    postcard::to_allocvec(&v)
}

/// `postcard::take_from_bytes::<i32>`: reads a zigzagged LEB128 value of at most five bytes that fits in 32 bits. It hands back the bytes
/// after the value, and fails exactly when no such value stands at the front;
/// the failure is `End` (postcard's `DeserializeUnexpectedEnd`) exactly when the
/// bytes run out before the value ends.
#[verifier::external_body]
pub(crate) fn i32_take_from_bytes<'a>(s: &'a [u8]) -> (r: Result<(i32, &'a [u8]), ReadFailure>)
    ensures
        r is Ok <==> parse_i32(s@) is Some,
        r matches Ok((v, rest)) ==> parse_i32(s@) == Some((v as int, taken(s@, rest@)))
            && is_rest_of(s@, rest@),
        r matches Err(f) ==> (f is End <==> truncated(s@, 5)),
{
    match postcard::take_from_bytes::<i32>(s) {
        Ok(x) => Ok(x),
        Err(e @ postcard::Error::DeserializeUnexpectedEnd) => Err(ReadFailure::End(e)),
        Err(e) => Err(ReadFailure::Other(e)),
    }
}

/// `postcard::to_allocvec` on a `i128`: the LEB128 bytes of the zigzagged value.
/// Serializing into an `AllocVec` cannot fail, so the result is `Ok`.
#[verifier::external_body]
pub(crate) fn i128_to_bytes(v: i128) -> (r: Result<Vec<u8>, postcard::Error>)
    ensures
        r is Ok,
        r matches Ok(b) ==> b@ == varint(zigzag(v as int)),
{
    postcard::to_allocvec(&v)
}

/// `postcard::take_from_bytes::<i128>`: reads a zigzagged LEB128 value of at most nineteen bytes that fits in 128 bits. It hands back the bytes
/// after the value, and fails exactly when no such value stands at the front;
/// the failure is `End` (postcard's `DeserializeUnexpectedEnd`) exactly when the
/// bytes run out before the value ends.
#[verifier::external_body]
pub(crate) fn i128_take_from_bytes<'a>(s: &'a [u8]) -> (r: Result<(i128, &'a [u8]), ReadFailure>)
    ensures
        r is Ok <==> parse_i128(s@) is Some,
        r matches Ok((v, rest)) ==> parse_i128(s@) == Some((v as int, taken(s@, rest@)))
            && is_rest_of(s@, rest@),
        r matches Err(f) ==> (f is End <==> truncated(s@, 19)),
{
    match postcard::take_from_bytes::<i128>(s) {
        Ok(x) => Ok(x),
        Err(e @ postcard::Error::DeserializeUnexpectedEnd) => Err(ReadFailure::End(e)),
        Err(e) => Err(ReadFailure::Other(e)),
    }
}

/// `postcard::to_allocvec` on a `u8`: the byte itself.
/// Serializing into an `AllocVec` cannot fail, so the result is `Ok`.
#[verifier::external_body]
pub(crate) fn u8_to_bytes(v: u8) -> (r: Result<Vec<u8>, postcard::Error>)
    ensures
        r is Ok,
        r matches Ok(b) ==> b@ == seq![v],
{
    postcard::to_allocvec(&v)
}

/// `postcard::take_from_bytes::<u8>`: reads one byte as it stands. It hands back the bytes
/// after the value, and fails exactly when no such value stands at the front;
/// the failure is `End` (postcard's `DeserializeUnexpectedEnd`) exactly when the
/// bytes run out before the value ends.
#[verifier::external_body]
pub(crate) fn u8_take_from_bytes<'a>(s: &'a [u8]) -> (r: Result<(u8, &'a [u8]), ReadFailure>)
    ensures
        r is Ok <==> parse_u8(s@) is Some,
        r matches Ok((v, rest)) ==> parse_u8(s@) == Some((v as nat, taken(s@, rest@)))
            && is_rest_of(s@, rest@),
        r matches Err(f) ==> (f is End <==> truncated(s@, 1)),
{
    match postcard::take_from_bytes::<u8>(s) {
        Ok(x) => Ok(x),
        Err(e @ postcard::Error::DeserializeUnexpectedEnd) => Err(ReadFailure::End(e)),
        Err(e) => Err(ReadFailure::Other(e)),
    }
}

/// `postcard::to_allocvec` on a `bool`: one byte, 1 for `true` and 0 for `false`.
/// Serializing into an `AllocVec` cannot fail, so the result is `Ok`.
#[verifier::external_body]
pub(crate) fn bool_to_bytes(v: bool) -> (r: Result<Vec<u8>, postcard::Error>)
    ensures
        r is Ok,
        r matches Ok(b) ==> b@ == seq![if v { 1u8 } else { 0u8 }],
{
    postcard::to_allocvec(&v)
}

/// `postcard::take_from_bytes::<bool>`: reads one byte, which must be 0 or 1. It hands back the bytes
/// after the value, and fails exactly when no such value stands at the front;
/// the failure is `End` (postcard's `DeserializeUnexpectedEnd`) exactly when the
/// bytes run out before the value ends.
#[verifier::external_body]
pub(crate) fn bool_take_from_bytes<'a>(s: &'a [u8]) -> (r: Result<(bool, &'a [u8]), ReadFailure>)
    ensures
        r is Ok <==> parse_bool(s@) is Some,
        r matches Ok((v, rest)) ==> parse_bool(s@) == Some((v, taken(s@, rest@)))
            && is_rest_of(s@, rest@),
        r matches Err(f) ==> (f is End <==> truncated(s@, 1)),
{
    match postcard::take_from_bytes::<bool>(s) {
        Ok(x) => Ok(x),
        Err(e @ postcard::Error::DeserializeUnexpectedEnd) => Err(ReadFailure::End(e)),
        Err(e) => Err(ReadFailure::Other(e)),
    }
}

/// `postcard::to_allocvec` on a `u16`: the LEB128 bytes of the value.
/// Serializing into an `AllocVec` cannot fail, so the result is `Ok`.
#[verifier::external_body]
pub(crate) fn u16_to_bytes(v: u16) -> (r: Result<Vec<u8>, postcard::Error>)
    ensures
        r is Ok,
        r matches Ok(b) ==> b@ == varint(v as nat),
{
    postcard::to_allocvec(&v)
}

/// `postcard::take_from_bytes::<u16>`: reads a LEB128 value of at most three bytes that fits in 16 bits. It hands back the bytes
/// after the value, and fails exactly when no such value stands at the front;
/// the failure is `End` (postcard's `DeserializeUnexpectedEnd`) exactly when the
/// bytes run out before the value ends.
#[verifier::external_body]
pub(crate) fn u16_take_from_bytes<'a>(s: &'a [u8]) -> (r: Result<(u16, &'a [u8]), ReadFailure>)
    ensures
        r is Ok <==> parse_u16(s@) is Some,
        r matches Ok((v, rest)) ==> parse_u16(s@) == Some((v as nat, taken(s@, rest@)))
            && is_rest_of(s@, rest@),
        r matches Err(f) ==> (f is End <==> truncated(s@, 3)),
{
    match postcard::take_from_bytes::<u16>(s) {
        Ok(x) => Ok(x),
        Err(e @ postcard::Error::DeserializeUnexpectedEnd) => Err(ReadFailure::End(e)),
        Err(e) => Err(ReadFailure::Other(e)),
    }
}

/// `postcard::to_allocvec` on a `i16`: the LEB128 bytes of the zigzagged value.
/// Serializing into an `AllocVec` cannot fail, so the result is `Ok`.
#[verifier::external_body]
pub(crate) fn i16_to_bytes(v: i16) -> (r: Result<Vec<u8>, postcard::Error>)
    ensures
        r is Ok,
        r matches Ok(b) ==> b@ == varint(zigzag(v as int)),
{
    postcard::to_allocvec(&v)
}

/// `postcard::take_from_bytes::<i16>`: reads a zigzagged LEB128 value of at most three bytes that fits in 16 bits. It hands back the bytes
/// after the value, and fails exactly when no such value stands at the front;
/// the failure is `End` (postcard's `DeserializeUnexpectedEnd`) exactly when the
/// bytes run out before the value ends.
#[verifier::external_body]
pub(crate) fn i16_take_from_bytes<'a>(s: &'a [u8]) -> (r: Result<(i16, &'a [u8]), ReadFailure>)
    ensures
        r is Ok <==> parse_i16(s@) is Some,
        r matches Ok((v, rest)) ==> parse_i16(s@) == Some((v as int, taken(s@, rest@)))
            && is_rest_of(s@, rest@),
        r matches Err(f) ==> (f is End <==> truncated(s@, 3)),
{
    match postcard::take_from_bytes::<i16>(s) {
        Ok(x) => Ok(x),
        Err(e @ postcard::Error::DeserializeUnexpectedEnd) => Err(ReadFailure::End(e)),
        Err(e) => Err(ReadFailure::Other(e)),
    }
}

/// `postcard::to_allocvec` on a `u128`: the LEB128 bytes of the value.
/// Serializing into an `AllocVec` cannot fail, so the result is `Ok`.
#[verifier::external_body]
pub(crate) fn u128_to_bytes(v: u128) -> (r: Result<Vec<u8>, postcard::Error>)
    ensures
        r is Ok,
        r matches Ok(b) ==> b@ == varint(v as nat),
{
    postcard::to_allocvec(&v)
}

/// `postcard::take_from_bytes::<u128>`: reads a LEB128 value of at most nineteen bytes that fits in 128 bits. It hands back the bytes
/// after the value, and fails exactly when no such value stands at the front;
/// the failure is `End` (postcard's `DeserializeUnexpectedEnd`) exactly when the
/// bytes run out before the value ends.
#[verifier::external_body]
pub(crate) fn u128_take_from_bytes<'a>(s: &'a [u8]) -> (r: Result<(u128, &'a [u8]), ReadFailure>)
    ensures
        r is Ok <==> parse_u128(s@) is Some,
        r matches Ok((v, rest)) ==> parse_u128(s@) == Some((v as nat, taken(s@, rest@)))
            && is_rest_of(s@, rest@),
        r matches Err(f) ==> (f is End <==> truncated(s@, 19)),
{
    match postcard::take_from_bytes::<u128>(s) {
        Ok(x) => Ok(x),
        Err(e @ postcard::Error::DeserializeUnexpectedEnd) => Err(ReadFailure::End(e)),
        Err(e) => Err(ReadFailure::Other(e)),
    }
}

/// `postcard::to_allocvec` on a `i8`: the byte of its two's complement.
/// Serializing into an `AllocVec` cannot fail, so the result is `Ok`.
#[verifier::external_body]
pub(crate) fn i8_to_bytes(v: i8) -> (r: Result<Vec<u8>, postcard::Error>)
    ensures
        r is Ok,
        r matches Ok(b) ==> b@ == seq![v as u8],
{
    postcard::to_allocvec(&v)
}

/// `postcard::take_from_bytes::<i8>`: reads one byte as the two's complement of the value. It hands back the bytes
/// after the value, and fails exactly when no such value stands at the front;
/// the failure is `End` (postcard's `DeserializeUnexpectedEnd`) exactly when the
/// bytes run out before the value ends.
#[verifier::external_body]
pub(crate) fn i8_take_from_bytes<'a>(s: &'a [u8]) -> (r: Result<(i8, &'a [u8]), ReadFailure>)
    ensures
        r is Ok <==> parse_u8(s@) is Some,
        r matches Ok((v, rest)) ==> parse_u8(s@) == Some((v as u8 as nat, taken(s@, rest@)))
            && is_rest_of(s@, rest@),
        r matches Err(f) ==> (f is End <==> truncated(s@, 1)),
{
    match postcard::take_from_bytes::<i8>(s) {
        Ok(x) => Ok(x),
        Err(e @ postcard::Error::DeserializeUnexpectedEnd) => Err(ReadFailure::End(e)),
        Err(e) => Err(ReadFailure::Other(e)),
    }
}

} // verus!
