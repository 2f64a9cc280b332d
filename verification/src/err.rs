//! The error type of the crate.
use vstd::prelude::*;

verus! {

/// What can go wrong while encoding or decoding columns.
#[derive(Debug)]
pub enum ColumnarError {
    /// postcard could not write or read a value.
    SerializeError(postcard::Error),
    /// A value could not be encoded.
    RleEncodeError(String),
    /// The bytes do not hold a valid encoding.
    RleDecodeError(String),
    /// A strategy code that no strategy has.
    InvalidStrategy(u8),
    Unknown,
}

/// The message of a run count above the limit that the decoders accept,
/// written with `format!`; nothing is stated of the text.
#[verifier::external_body]
pub(crate) fn count_too_large_message(count: i128) -> String {
    format!("decode Rle count is too large : {}", count)
}

/// The message of a decoded number that the target type cannot hold,
/// written with `format!`; nothing is stated of the text.
#[verifier::external_body]
pub(crate) fn conversion_message(value: i128) -> String {
    format!("{} cannot be safely converted from i128", value)
}

/// The message of a number that does not fit in an `i64`, written with
/// `format!`; nothing is stated of the text.
#[verifier::external_body]
pub(crate) fn i64_conversion_message(value: i128) -> String {
    format!("{} cannot be safely converted from i64", value)
}

} // verus!
