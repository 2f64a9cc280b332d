//! The values that the run-length codecs carry, each with the bytes that
//! postcard gives it.
use vstd::prelude::*;
use crate::postcard_io::{
    ReadFailure, u16_take_from_bytes, u16_to_bytes, i16_take_from_bytes, i16_to_bytes,
    u128_take_from_bytes, u128_to_bytes, i8_take_from_bytes, i8_to_bytes,
    bool_take_from_bytes, bool_to_bytes, i128_take_from_bytes, i128_to_bytes,
    i32_take_from_bytes, i32_to_bytes, i64_take_from_bytes, i64_to_bytes, isize_take_from_bytes,
    isize_to_bytes, u32_take_from_bytes, u32_to_bytes, u64_take_from_bytes, u64_to_bytes,
    u8_take_from_bytes, u8_to_bytes, usize_take_from_bytes, usize_to_bytes,
};
use crate::varint::{
    is_rest_of, lemma_parse_len, lemma_parse_u128_varint, lemma_parse_u32_varint,
    lemma_parse_u64_varint, lemma_parse_usize_varint, lemma_parse_u16_varint, parse_u16, parse_i16, parse_u128, lemma_zigzag_bounds, parse_bool, parse_i128,
    parse_i32, parse_i64, parse_isize, parse_u32, parse_u64, parse_u8, parse_usize, taken, truncated, varint,
    zigzag,
};

verus! {

/// A value that a column can hold: postcard writes it as `spec_encode` and
/// reads it back with `spec_decode`.
pub trait Rleable: Sized {
    /// The bytes postcard writes for `v`.
    spec fn spec_encode(v: Self) -> Seq<u8>;

    /// What postcard reads from the front of `s`: the value and the number of
    /// bytes it took, or `None` where no value of this type stands there.
    spec fn spec_decode(s: Seq<u8>) -> Option<(Self, nat)>;

    /// Equality of two values.
    fn same(&self, other: &Self) -> (r: bool)
        ensures
            r == (*self == *other),
    ;

    /// A copy of the value.
    fn duplicate(&self) -> (r: Self)
        ensures
            r == *self,
    ;

    /// The bytes of the value.
    fn encode(&self) -> (r: Result<Vec<u8>, postcard::Error>)
        ensures
            r is Ok,
            r matches Ok(b) ==> b@ == Self::spec_encode(*self),
    ;

    /// The bytes of `s` end inside a value.
    spec fn spec_truncated(s: Seq<u8>) -> bool;

    /// Reads a value from the front of `s` and hands back the bytes after it;
    /// the failure tells whether the bytes ended inside the value.
    fn decode<'a>(s: &'a [u8]) -> (r: Result<(Self, &'a [u8]), ReadFailure>)
        ensures
            r is Ok <==> Self::spec_decode(s@) is Some,
            r matches Ok((v, rest)) ==> Self::spec_decode(s@) == Some((v, taken(s@, rest@)))
                && is_rest_of(s@, rest@),
            r matches Err(f) ==> (f is End <==> Self::spec_truncated(s@)),
    ;

    /// Reading the bytes of a value, whatever follows them, gives back the
    /// value and takes exactly its bytes.
    proof fn lemma_roundtrip(v: Self, rest: Seq<u8>)
        ensures
            Self::spec_encode(v).len() >= 1,
            Self::spec_decode(Self::spec_encode(v) + rest) == Some((v, Self::spec_encode(v).len())),
    ;

    /// A read takes at least one byte and no more than it was given.
    proof fn lemma_decode_len(s: Seq<u8>)
        ensures
            Self::spec_decode(s) matches Some((v, n)) ==> 1 <= n <= s.len(),
    ;
}

impl Rleable for u64 {
    open spec fn spec_encode(v: u64) -> Seq<u8> {
        varint(v as nat)
    }

    open spec fn spec_decode(s: Seq<u8>) -> Option<(u64, nat)> {
        match parse_u64(s) {
            Some((v, n)) => Some((v as u64, n)),
            None => None,
        }
    }

    fn same(&self, other: &u64) -> (r: bool) {
        *self == *other
    }

    fn duplicate(&self) -> (r: u64) {
        *self
    }

    fn encode(&self) -> (r: Result<Vec<u8>, postcard::Error>) {
        u64_to_bytes(*self)
    }

    open spec fn spec_truncated(s: Seq<u8>) -> bool {
        truncated(s, 10)
    }

    fn decode<'a>(s: &'a [u8]) -> (r: Result<(u64, &'a [u8]), ReadFailure>) {
        u64_take_from_bytes(s)
    }

    proof fn lemma_roundtrip(v: u64, rest: Seq<u8>) {
        lemma_parse_u64_varint(v as nat, rest);
    }

    proof fn lemma_decode_len(s: Seq<u8>) {
        lemma_parse_len(s);
    }
}

impl Rleable for u32 {
    open spec fn spec_encode(v: u32) -> Seq<u8> {
        varint(v as nat)
    }

    open spec fn spec_decode(s: Seq<u8>) -> Option<(u32, nat)> {
        match parse_u32(s) {
            Some((v, n)) => Some((v as u32, n)),
            None => None,
        }
    }

    fn same(&self, other: &u32) -> (r: bool) {
        *self == *other
    }

    fn duplicate(&self) -> (r: u32) {
        *self
    }

    fn encode(&self) -> (r: Result<Vec<u8>, postcard::Error>) {
        u32_to_bytes(*self)
    }

    open spec fn spec_truncated(s: Seq<u8>) -> bool {
        truncated(s, 5)
    }

    fn decode<'a>(s: &'a [u8]) -> (r: Result<(u32, &'a [u8]), ReadFailure>) {
        u32_take_from_bytes(s)
    }

    proof fn lemma_roundtrip(v: u32, rest: Seq<u8>) {
        lemma_parse_u32_varint(v as nat, rest);
    }

    proof fn lemma_decode_len(s: Seq<u8>) {
        lemma_parse_len(s);
    }
}

impl Rleable for usize {
    open spec fn spec_encode(v: usize) -> Seq<u8> {
        varint(v as nat)
    }

    open spec fn spec_decode(s: Seq<u8>) -> Option<(usize, nat)> {
        match parse_usize(s) {
            Some((v, n)) => Some((v as usize, n)),
            None => None,
        }
    }

    fn same(&self, other: &usize) -> (r: bool) {
        *self == *other
    }

    fn duplicate(&self) -> (r: usize) {
        *self
    }

    fn encode(&self) -> (r: Result<Vec<u8>, postcard::Error>) {
        usize_to_bytes(*self)
    }

    open spec fn spec_truncated(s: Seq<u8>) -> bool {
        truncated(s, 10)
    }

    fn decode<'a>(s: &'a [u8]) -> (r: Result<(usize, &'a [u8]), ReadFailure>) {
        usize_take_from_bytes(s)
    }

    proof fn lemma_roundtrip(v: usize, rest: Seq<u8>) {
        lemma_parse_usize_varint(v as nat, rest);
    }

    proof fn lemma_decode_len(s: Seq<u8>) {
        lemma_parse_len(s);
    }
}

impl Rleable for i64 {
    open spec fn spec_encode(v: i64) -> Seq<u8> {
        varint(zigzag(v as int))
    }

    open spec fn spec_decode(s: Seq<u8>) -> Option<(i64, nat)> {
        match parse_i64(s) {
            Some((v, n)) => Some((v as i64, n)),
            None => None,
        }
    }

    fn same(&self, other: &i64) -> (r: bool) {
        *self == *other
    }

    fn duplicate(&self) -> (r: i64) {
        *self
    }

    fn encode(&self) -> (r: Result<Vec<u8>, postcard::Error>) {
        i64_to_bytes(*self)
    }

    open spec fn spec_truncated(s: Seq<u8>) -> bool {
        truncated(s, 10)
    }

    fn decode<'a>(s: &'a [u8]) -> (r: Result<(i64, &'a [u8]), ReadFailure>) {
        i64_take_from_bytes(s)
    }

    proof fn lemma_roundtrip(v: i64, rest: Seq<u8>) {
        lemma_zigzag_bounds(v as int);
        lemma_parse_u64_varint(zigzag(v as int), rest);
    }

    proof fn lemma_decode_len(s: Seq<u8>) {
        lemma_parse_len(s);
    }
}

impl Rleable for i32 {
    open spec fn spec_encode(v: i32) -> Seq<u8> {
        varint(zigzag(v as int))
    }

    open spec fn spec_decode(s: Seq<u8>) -> Option<(i32, nat)> {
        match parse_i32(s) {
            Some((v, n)) => Some((v as i32, n)),
            None => None,
        }
    }

    fn same(&self, other: &i32) -> (r: bool) {
        *self == *other
    }

    fn duplicate(&self) -> (r: i32) {
        *self
    }

    fn encode(&self) -> (r: Result<Vec<u8>, postcard::Error>) {
        i32_to_bytes(*self)
    }

    open spec fn spec_truncated(s: Seq<u8>) -> bool {
        truncated(s, 5)
    }

    fn decode<'a>(s: &'a [u8]) -> (r: Result<(i32, &'a [u8]), ReadFailure>) {
        i32_take_from_bytes(s)
    }

    proof fn lemma_roundtrip(v: i32, rest: Seq<u8>) {
        lemma_zigzag_bounds(v as int);
        lemma_parse_u32_varint(zigzag(v as int), rest);
    }

    proof fn lemma_decode_len(s: Seq<u8>) {
        lemma_parse_len(s);
    }
}

impl Rleable for isize {
    open spec fn spec_encode(v: isize) -> Seq<u8> {
        varint(zigzag(v as int))
    }

    open spec fn spec_decode(s: Seq<u8>) -> Option<(isize, nat)> {
        match parse_isize(s) {
            Some((v, n)) => Some((v as isize, n)),
            None => None,
        }
    }

    fn same(&self, other: &isize) -> (r: bool) {
        *self == *other
    }

    fn duplicate(&self) -> (r: isize) {
        *self
    }

    fn encode(&self) -> (r: Result<Vec<u8>, postcard::Error>) {
        isize_to_bytes(*self)
    }

    open spec fn spec_truncated(s: Seq<u8>) -> bool {
        truncated(s, 10)
    }

    fn decode<'a>(s: &'a [u8]) -> (r: Result<(isize, &'a [u8]), ReadFailure>) {
        isize_take_from_bytes(s)
    }

    proof fn lemma_roundtrip(v: isize, rest: Seq<u8>) {
        lemma_zigzag_bounds(v as int);
        lemma_parse_u64_varint(zigzag(v as int), rest);
    }

    proof fn lemma_decode_len(s: Seq<u8>) {
        lemma_parse_len(s);
    }
}

impl Rleable for i128 {
    open spec fn spec_encode(v: i128) -> Seq<u8> {
        varint(zigzag(v as int))
    }

    open spec fn spec_decode(s: Seq<u8>) -> Option<(i128, nat)> {
        match parse_i128(s) {
            Some((v, n)) => Some((v as i128, n)),
            None => None,
        }
    }

    fn same(&self, other: &i128) -> (r: bool) {
        *self == *other
    }

    fn duplicate(&self) -> (r: i128) {
        *self
    }

    fn encode(&self) -> (r: Result<Vec<u8>, postcard::Error>) {
        i128_to_bytes(*self)
    }

    open spec fn spec_truncated(s: Seq<u8>) -> bool {
        truncated(s, 19)
    }

    fn decode<'a>(s: &'a [u8]) -> (r: Result<(i128, &'a [u8]), ReadFailure>) {
        i128_take_from_bytes(s)
    }

    proof fn lemma_roundtrip(v: i128, rest: Seq<u8>) {
        lemma_zigzag_bounds(v as int);
        lemma_parse_u128_varint(zigzag(v as int), rest);
    }

    proof fn lemma_decode_len(s: Seq<u8>) {
        lemma_parse_len(s);
    }
}

impl Rleable for u8 {
    open spec fn spec_encode(v: u8) -> Seq<u8> {
        seq![v]
    }

    open spec fn spec_decode(s: Seq<u8>) -> Option<(u8, nat)> {
        match parse_u8(s) {
            Some((v, n)) => Some((v as u8, n)),
            None => None,
        }
    }

    fn same(&self, other: &u8) -> (r: bool) {
        *self == *other
    }

    fn duplicate(&self) -> (r: u8) {
        *self
    }

    fn encode(&self) -> (r: Result<Vec<u8>, postcard::Error>) {
        u8_to_bytes(*self)
    }

    open spec fn spec_truncated(s: Seq<u8>) -> bool {
        truncated(s, 1)
    }

    fn decode<'a>(s: &'a [u8]) -> (r: Result<(u8, &'a [u8]), ReadFailure>) {
        u8_take_from_bytes(s)
    }

    proof fn lemma_roundtrip(v: u8, rest: Seq<u8>) {
        assert((seq![v] + rest)[0] == v);
    }

    proof fn lemma_decode_len(s: Seq<u8>) {
        lemma_parse_len(s);
    }
}

impl Rleable for bool {
    open spec fn spec_encode(v: bool) -> Seq<u8> {
        seq![if v { 1u8 } else { 0u8 }]
    }

    open spec fn spec_decode(s: Seq<u8>) -> Option<(bool, nat)> {
        parse_bool(s)
    }

    fn same(&self, other: &bool) -> (r: bool) {
        *self == *other
    }

    fn duplicate(&self) -> (r: bool) {
        *self
    }

    fn encode(&self) -> (r: Result<Vec<u8>, postcard::Error>) {
        bool_to_bytes(*self)
    }

    open spec fn spec_truncated(s: Seq<u8>) -> bool {
        truncated(s, 1)
    }

    fn decode<'a>(s: &'a [u8]) -> (r: Result<(bool, &'a [u8]), ReadFailure>) {
        bool_take_from_bytes(s)
    }

    proof fn lemma_roundtrip(v: bool, rest: Seq<u8>) {
        assert((seq![if v { 1u8 } else { 0u8 }] + rest)[0] == if v { 1u8 } else { 0u8 });
    }

    proof fn lemma_decode_len(s: Seq<u8>) {
        lemma_parse_len(s);
    }
}

impl Rleable for u16 {
    open spec fn spec_encode(v: u16) -> Seq<u8> {
        varint(v as nat)
    }

    open spec fn spec_decode(s: Seq<u8>) -> Option<(u16, nat)> {
        match parse_u16(s) {
            Some((v, n)) => Some((v as u16, n)),
            None => None,
        }
    }

    fn same(&self, other: &u16) -> (r: bool) {
        *self == *other
    }

    fn duplicate(&self) -> (r: u16) {
        *self
    }

    fn encode(&self) -> (r: Result<Vec<u8>, postcard::Error>) {
        u16_to_bytes(*self)
    }

    open spec fn spec_truncated(s: Seq<u8>) -> bool {
        truncated(s, 3)
    }

    fn decode<'a>(s: &'a [u8]) -> (r: Result<(u16, &'a [u8]), ReadFailure>) {
        u16_take_from_bytes(s)
    }

    proof fn lemma_roundtrip(v: u16, rest: Seq<u8>) {
        lemma_parse_u16_varint(v as nat, rest);
    }

    proof fn lemma_decode_len(s: Seq<u8>) {
        lemma_parse_len(s);
    }
}

impl Rleable for i16 {
    open spec fn spec_encode(v: i16) -> Seq<u8> {
        varint(zigzag(v as int))
    }

    open spec fn spec_decode(s: Seq<u8>) -> Option<(i16, nat)> {
        match parse_i16(s) {
            Some((v, n)) => Some((v as i16, n)),
            None => None,
        }
    }

    fn same(&self, other: &i16) -> (r: bool) {
        *self == *other
    }

    fn duplicate(&self) -> (r: i16) {
        *self
    }

    fn encode(&self) -> (r: Result<Vec<u8>, postcard::Error>) {
        i16_to_bytes(*self)
    }

    open spec fn spec_truncated(s: Seq<u8>) -> bool {
        truncated(s, 3)
    }

    fn decode<'a>(s: &'a [u8]) -> (r: Result<(i16, &'a [u8]), ReadFailure>) {
        i16_take_from_bytes(s)
    }

    proof fn lemma_roundtrip(v: i16, rest: Seq<u8>) {
        lemma_zigzag_bounds(v as int);
        lemma_parse_u16_varint(zigzag(v as int), rest);
    }

    proof fn lemma_decode_len(s: Seq<u8>) {
        lemma_parse_len(s);
    }
}

impl Rleable for u128 {
    open spec fn spec_encode(v: u128) -> Seq<u8> {
        varint(v as nat)
    }

    open spec fn spec_decode(s: Seq<u8>) -> Option<(u128, nat)> {
        match parse_u128(s) {
            Some((v, n)) => Some((v as u128, n)),
            None => None,
        }
    }

    fn same(&self, other: &u128) -> (r: bool) {
        *self == *other
    }

    fn duplicate(&self) -> (r: u128) {
        *self
    }

    fn encode(&self) -> (r: Result<Vec<u8>, postcard::Error>) {
        u128_to_bytes(*self)
    }

    open spec fn spec_truncated(s: Seq<u8>) -> bool {
        truncated(s, 19)
    }

    fn decode<'a>(s: &'a [u8]) -> (r: Result<(u128, &'a [u8]), ReadFailure>) {
        u128_take_from_bytes(s)
    }

    proof fn lemma_roundtrip(v: u128, rest: Seq<u8>) {
        lemma_parse_u128_varint(v as nat, rest);
    }

    proof fn lemma_decode_len(s: Seq<u8>) {
        lemma_parse_len(s);
    }
}

impl Rleable for i8 {
    open spec fn spec_encode(v: i8) -> Seq<u8> {
        seq![v as u8]
    }

    open spec fn spec_decode(s: Seq<u8>) -> Option<(i8, nat)> {
        match parse_u8(s) {
            Some((v, n)) => Some(((v as u8) as i8, n)),
            None => None,
        }
    }

    fn same(&self, other: &i8) -> (r: bool) {
        *self == *other
    }

    fn duplicate(&self) -> (r: i8) {
        *self
    }

    fn encode(&self) -> (r: Result<Vec<u8>, postcard::Error>) {
        i8_to_bytes(*self)
    }

    open spec fn spec_truncated(s: Seq<u8>) -> bool {
        truncated(s, 1)
    }

    fn decode<'a>(s: &'a [u8]) -> (r: Result<(i8, &'a [u8]), ReadFailure>) {
        let r = i8_take_from_bytes(s);
        proof {
            if let Ok((v, _)) = r {
                assert(((v as u8) as i8) == v) by (bit_vector);
            }
        }
        r
    }

    proof fn lemma_roundtrip(v: i8, rest: Seq<u8>) {
        assert((seq![v as u8] + rest)[0] == v as u8);
        assert(((v as u8) as i8) == v) by (bit_vector);
    }

    proof fn lemma_decode_len(s: Seq<u8>) {
        lemma_parse_len(s);
    }
}

/// A number that the delta run-length codec carries: it is written as the
/// difference from the number before it, as an `i128`.
pub trait DeltaRleable: Rleable + Copy {
    /// The number a value stands for.
    spec fn spec_value(v: Self) -> int;

    /// Whether a number can be held by this type.
    spec fn spec_in_range(i: int) -> bool;

    /// The value as an `i128`, where it fits in one.
    fn to_i128(self) -> (r: Option<i128>)
        ensures
            r is Some <==> i128::MIN <= Self::spec_value(self) <= i128::MAX,
            r matches Some(x) ==> x as int == Self::spec_value(self),
    ;

    /// The value that stands for `v`, where this type can hold it.
    fn from_i128(v: i128) -> (r: Option<Self>)
        ensures
            r is Some <==> Self::spec_in_range(v as int),
            r matches Some(x) ==> Self::spec_value(x) == v as int,
    ;

    /// Every value is in range, and no two values stand for the same number.
    proof fn lemma_value(v: Self)
        ensures
            Self::spec_in_range(Self::spec_value(v)),
            forall|w: Self| Self::spec_value(w) == Self::spec_value(v) ==> w == v,
    ;
}

impl DeltaRleable for u64 {
    open spec fn spec_value(v: u64) -> int {
        v as int
    }

    open spec fn spec_in_range(i: int) -> bool {
        u64::MIN <= i <= u64::MAX
    }

    fn to_i128(self) -> (r: Option<i128>) {
        Some(self as i128)
    }

    fn from_i128(v: i128) -> (r: Option<u64>) {
        if u64::MIN as i128 <= v && v <= u64::MAX as i128 {
            Some(v as u64)
        } else {
            None
        }
    }

    proof fn lemma_value(v: u64) {
    }
}

impl DeltaRleable for u32 {
    open spec fn spec_value(v: u32) -> int {
        v as int
    }

    open spec fn spec_in_range(i: int) -> bool {
        u32::MIN <= i <= u32::MAX
    }

    fn to_i128(self) -> (r: Option<i128>) {
        Some(self as i128)
    }

    fn from_i128(v: i128) -> (r: Option<u32>) {
        if u32::MIN as i128 <= v && v <= u32::MAX as i128 {
            Some(v as u32)
        } else {
            None
        }
    }

    proof fn lemma_value(v: u32) {
    }
}

impl DeltaRleable for u8 {
    open spec fn spec_value(v: u8) -> int {
        v as int
    }

    open spec fn spec_in_range(i: int) -> bool {
        u8::MIN <= i <= u8::MAX
    }

    fn to_i128(self) -> (r: Option<i128>) {
        Some(self as i128)
    }

    fn from_i128(v: i128) -> (r: Option<u8>) {
        if u8::MIN as i128 <= v && v <= u8::MAX as i128 {
            Some(v as u8)
        } else {
            None
        }
    }

    proof fn lemma_value(v: u8) {
    }
}

impl DeltaRleable for usize {
    open spec fn spec_value(v: usize) -> int {
        v as int
    }

    open spec fn spec_in_range(i: int) -> bool {
        usize::MIN <= i <= usize::MAX
    }

    fn to_i128(self) -> (r: Option<i128>) {
        Some(self as i128)
    }

    fn from_i128(v: i128) -> (r: Option<usize>) {
        if usize::MIN as i128 <= v && v <= usize::MAX as i128 {
            Some(v as usize)
        } else {
            None
        }
    }

    proof fn lemma_value(v: usize) {
    }
}

impl DeltaRleable for i64 {
    open spec fn spec_value(v: i64) -> int {
        v as int
    }

    open spec fn spec_in_range(i: int) -> bool {
        i64::MIN <= i <= i64::MAX
    }

    fn to_i128(self) -> (r: Option<i128>) {
        Some(self as i128)
    }

    fn from_i128(v: i128) -> (r: Option<i64>) {
        if i64::MIN as i128 <= v && v <= i64::MAX as i128 {
            Some(v as i64)
        } else {
            None
        }
    }

    proof fn lemma_value(v: i64) {
    }
}

impl DeltaRleable for i32 {
    open spec fn spec_value(v: i32) -> int {
        v as int
    }

    open spec fn spec_in_range(i: int) -> bool {
        i32::MIN <= i <= i32::MAX
    }

    fn to_i128(self) -> (r: Option<i128>) {
        Some(self as i128)
    }

    fn from_i128(v: i128) -> (r: Option<i32>) {
        if i32::MIN as i128 <= v && v <= i32::MAX as i128 {
            Some(v as i32)
        } else {
            None
        }
    }

    proof fn lemma_value(v: i32) {
    }
}

impl DeltaRleable for isize {
    open spec fn spec_value(v: isize) -> int {
        v as int
    }

    open spec fn spec_in_range(i: int) -> bool {
        isize::MIN <= i <= isize::MAX
    }

    fn to_i128(self) -> (r: Option<i128>) {
        Some(self as i128)
    }

    fn from_i128(v: i128) -> (r: Option<isize>) {
        if isize::MIN as i128 <= v && v <= isize::MAX as i128 {
            Some(v as isize)
        } else {
            None
        }
    }

    proof fn lemma_value(v: isize) {
    }
}

impl DeltaRleable for i128 {
    open spec fn spec_value(v: i128) -> int {
        v as int
    }

    open spec fn spec_in_range(i: int) -> bool {
        i128::MIN <= i <= i128::MAX
    }

    fn to_i128(self) -> (r: Option<i128>) {
        Some(self)
    }

    fn from_i128(v: i128) -> (r: Option<i128>) {
        Some(v)
    }

    proof fn lemma_value(v: i128) {
    }
}

impl DeltaRleable for u16 {
    open spec fn spec_value(v: u16) -> int {
        v as int
    }

    open spec fn spec_in_range(i: int) -> bool {
        u16::MIN <= i <= u16::MAX
    }

    fn to_i128(self) -> (r: Option<i128>) {
        Some(self as i128)
    }

    fn from_i128(v: i128) -> (r: Option<u16>) {
        if u16::MIN as i128 <= v && v <= u16::MAX as i128 {
            Some(v as u16)
        } else {
            None
        }
    }

    proof fn lemma_value(v: u16) {
    }
}

impl DeltaRleable for i16 {
    open spec fn spec_value(v: i16) -> int {
        v as int
    }

    open spec fn spec_in_range(i: int) -> bool {
        i16::MIN <= i <= i16::MAX
    }

    fn to_i128(self) -> (r: Option<i128>) {
        Some(self as i128)
    }

    fn from_i128(v: i128) -> (r: Option<i16>) {
        if i16::MIN as i128 <= v && v <= i16::MAX as i128 {
            Some(v as i16)
        } else {
            None
        }
    }

    proof fn lemma_value(v: i16) {
    }
}

impl DeltaRleable for i8 {
    open spec fn spec_value(v: i8) -> int {
        v as int
    }

    open spec fn spec_in_range(i: int) -> bool {
        i8::MIN <= i <= i8::MAX
    }

    fn to_i128(self) -> (r: Option<i128>) {
        Some(self as i128)
    }

    fn from_i128(v: i128) -> (r: Option<i8>) {
        if i8::MIN as i128 <= v && v <= i8::MAX as i128 {
            Some(v as i8)
        } else {
            None
        }
    }

    proof fn lemma_value(v: i8) {
    }
}

impl DeltaRleable for u128 {
    open spec fn spec_value(v: u128) -> int {
        v as int
    }

    open spec fn spec_in_range(i: int) -> bool {
        u128::MIN <= i <= u128::MAX
    }

    fn to_i128(self) -> (r: Option<i128>) {
        if self <= i128::MAX as u128 {
            Some(self as i128)
        } else {
            None
        }
    }

    fn from_i128(v: i128) -> (r: Option<u128>) {
        if 0 <= v {
            Some(v as u128)
        } else {
            None
        }
    }

    proof fn lemma_value(v: u128) {
    }
}

/// A number that the delta-of-delta codec carries, as an `i64`.
pub trait DeltaOfDeltable: Copy {
    /// The number a value stands for.
    spec fn spec_value(v: Self) -> int;

    /// Whether a number can be held by this type.
    spec fn spec_in_range(i: int) -> bool;

    /// The value as an `i64`, where it fits in one.
    fn to_i64(self) -> (r: Option<i64>)
        ensures
            r is Some <==> i64::MIN <= Self::spec_value(self) <= i64::MAX,
            r matches Some(x) ==> x as int == Self::spec_value(self),
    ;

    /// The value as an `i128`, which holds every value of the type.
    fn widen(self) -> (r: i128)
        ensures
            r as int == Self::spec_value(self),
    ;

    /// The value that stands for `v`, where this type can hold it.
    fn from_i64(v: i64) -> (r: Option<Self>)
        ensures
            r is Some <==> Self::spec_in_range(v as int),
            r matches Some(x) ==> Self::spec_value(x) == v as int,
    ;

    /// Every value is in range, and no two values stand for the same number.
    proof fn lemma_value(v: Self)
        ensures
            Self::spec_in_range(Self::spec_value(v)),
            forall|w: Self| Self::spec_value(w) == Self::spec_value(v) ==> w == v,
    ;
}

impl DeltaOfDeltable for i64 {
    open spec fn spec_value(v: i64) -> int {
        v as int
    }

    open spec fn spec_in_range(i: int) -> bool {
        i64::MIN <= i <= i64::MAX
    }

    fn to_i64(self) -> (r: Option<i64>) {
        Some(self as i64)
    }

    fn widen(self) -> (r: i128) {
        self as i128
    }

    fn from_i64(v: i64) -> (r: Option<i64>) {
        Some(v)
    }

    proof fn lemma_value(v: i64) {
    }
}

impl DeltaOfDeltable for i32 {
    open spec fn spec_value(v: i32) -> int {
        v as int
    }

    open spec fn spec_in_range(i: int) -> bool {
        i32::MIN <= i <= i32::MAX
    }

    fn to_i64(self) -> (r: Option<i64>) {
        Some(self as i64)
    }

    fn widen(self) -> (r: i128) {
        self as i128
    }

    fn from_i64(v: i64) -> (r: Option<i32>) {
        if i32::MIN as i64 <= v && v <= i32::MAX as i64 {
            Some(v as i32)
        } else {
            None
        }
    }

    proof fn lemma_value(v: i32) {
    }
}

impl DeltaOfDeltable for u32 {
    open spec fn spec_value(v: u32) -> int {
        v as int
    }

    open spec fn spec_in_range(i: int) -> bool {
        u32::MIN <= i <= u32::MAX
    }

    fn to_i64(self) -> (r: Option<i64>) {
        Some(self as i64)
    }

    fn widen(self) -> (r: i128) {
        self as i128
    }

    fn from_i64(v: i64) -> (r: Option<u32>) {
        if 0 <= v && v <= u32::MAX as i64 {
            Some(v as u32)
        } else {
            None
        }
    }

    proof fn lemma_value(v: u32) {
    }
}

impl DeltaOfDeltable for u64 {
    open spec fn spec_value(v: u64) -> int {
        v as int
    }

    open spec fn spec_in_range(i: int) -> bool {
        u64::MIN <= i <= u64::MAX
    }

    fn to_i64(self) -> (r: Option<i64>) {
        if self <= i64::MAX as u64 {
            Some(self as i64)
        } else {
            None
        }
    }

    fn widen(self) -> (r: i128) {
        self as i128
    }

    fn from_i64(v: i64) -> (r: Option<u64>) {
        if 0 <= v {
            Some(v as u64)
        } else {
            None
        }
    }

    proof fn lemma_value(v: u64) {
    }
}

impl DeltaOfDeltable for isize {
    open spec fn spec_value(v: isize) -> int {
        v as int
    }

    open spec fn spec_in_range(i: int) -> bool {
        isize::MIN <= i <= isize::MAX
    }

    fn to_i64(self) -> (r: Option<i64>) {
        Some(self as i64)
    }

    fn widen(self) -> (r: i128) {
        self as i128
    }

    fn from_i64(v: i64) -> (r: Option<isize>) {
        if isize::MIN as i64 <= v && v <= isize::MAX as i64 {
            Some(v as isize)
        } else {
            None
        }
    }

    proof fn lemma_value(v: isize) {
    }
}

impl DeltaOfDeltable for usize {
    open spec fn spec_value(v: usize) -> int {
        v as int
    }

    open spec fn spec_in_range(i: int) -> bool {
        usize::MIN <= i <= usize::MAX
    }

    fn to_i64(self) -> (r: Option<i64>) {
        if (self as u64) <= (i64::MAX as u64) {
            Some(self as i64)
        } else {
            None
        }
    }

    fn widen(self) -> (r: i128) {
        self as i128
    }

    fn from_i64(v: i64) -> (r: Option<usize>) {
        if 0 <= v && v as u64 <= usize::MAX as u64 {
            Some(v as usize)
        } else {
            None
        }
    }

    proof fn lemma_value(v: usize) {
    }
}

impl DeltaOfDeltable for u16 {
    open spec fn spec_value(v: u16) -> int {
        v as int
    }

    open spec fn spec_in_range(i: int) -> bool {
        u16::MIN <= i <= u16::MAX
    }

    fn to_i64(self) -> (r: Option<i64>) {
        Some(self as i64)
    }

    fn widen(self) -> (r: i128) {
        self as i128
    }

    fn from_i64(v: i64) -> (r: Option<u16>) {
        if 0 <= v && v <= u16::MAX as i64 {
            Some(v as u16)
        } else {
            None
        }
    }

    proof fn lemma_value(v: u16) {
    }
}

impl DeltaOfDeltable for u8 {
    open spec fn spec_value(v: u8) -> int {
        v as int
    }

    open spec fn spec_in_range(i: int) -> bool {
        u8::MIN <= i <= u8::MAX
    }

    fn to_i64(self) -> (r: Option<i64>) {
        Some(self as i64)
    }

    fn widen(self) -> (r: i128) {
        self as i128
    }

    fn from_i64(v: i64) -> (r: Option<u8>) {
        if 0 <= v && v <= u8::MAX as i64 {
            Some(v as u8)
        } else {
            None
        }
    }

    proof fn lemma_value(v: u8) {
    }
}

impl DeltaOfDeltable for i16 {
    open spec fn spec_value(v: i16) -> int {
        v as int
    }

    open spec fn spec_in_range(i: int) -> bool {
        i16::MIN <= i <= i16::MAX
    }

    fn to_i64(self) -> (r: Option<i64>) {
        Some(self as i64)
    }

    fn widen(self) -> (r: i128) {
        self as i128
    }

    fn from_i64(v: i64) -> (r: Option<i16>) {
        if i16::MIN as i64 <= v && v <= i16::MAX as i64 {
            Some(v as i16)
        } else {
            None
        }
    }

    proof fn lemma_value(v: i16) {
    }
}

impl DeltaOfDeltable for i8 {
    open spec fn spec_value(v: i8) -> int {
        v as int
    }

    open spec fn spec_in_range(i: int) -> bool {
        i8::MIN <= i <= i8::MAX
    }

    fn to_i64(self) -> (r: Option<i64>) {
        Some(self as i64)
    }

    fn widen(self) -> (r: i128) {
        self as i128
    }

    fn from_i64(v: i64) -> (r: Option<i8>) {
        if i8::MIN as i64 <= v && v <= i8::MAX as i64 {
            Some(v as i8)
        } else {
            None
        }
    }

    proof fn lemma_value(v: i8) {
    }
}

} // verus!
