//! The column codecs: run-length encoding of booleans and of any value,
//! delta run-length encoding and delta-of-delta bit packing.
use vstd::prelude::*;
use crate::codec::Rleable;
use crate::err::ColumnarError;
use crate::varint::{is_rest_of, taken};

pub mod bool_rle;
pub mod any_rle;
pub mod delta_rle;
pub mod bits;
pub mod delta_of_delta;
pub mod delta_of_delta_decoder;

verus! {

/// The largest run count that a decoder accepts; larger ones are taken for
/// corrupt data.
pub const MAX_RLE_COUNT: usize = 1_000_000_000;

/// `n` copies of `v`.
pub open spec fn repeat<T>(v: T, n: nat) -> Seq<T> {
    Seq::new(n, |_i: int| v)
}

/// Appends the bytes of `v` to `out`.
pub fn write_value<T: Rleable>(out: &mut Vec<u8>, v: &T) -> (r: Result<(), ColumnarError>)
    ensures
        r is Ok,
        final(out)@ == old(out)@ + T::spec_encode(*v),
{
    match v.encode() {
        Ok(mut bytes) => {
            out.append(&mut bytes);
            Ok(())
        },
        Err(e) => Err(ColumnarError::SerializeError(e)),
    }
}

/// Reads a value from the front of `s`; on success hands back the bytes
/// after it.
pub fn read_value<'a, T: Rleable>(s: &'a [u8]) -> (r: Result<(T, &'a [u8]), ColumnarError>)
    ensures
        r is Ok <==> T::spec_decode(s@) is Some,
        r matches Ok((v, rest)) ==> T::spec_decode(s@) == Some((v, taken(s@, rest@)))
            && is_rest_of(s@, rest@),
        r matches Err(e) ==> e is SerializeError,
{
    match T::decode(s) {
        Ok((v, rest)) => Ok((v, rest)),
        Err(f) => Err(ColumnarError::SerializeError(f.into_error())),
    }
}

} // verus!
