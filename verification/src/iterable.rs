//! Reading the values of a column one at a time, straight from its bytes.
//! Unlike the decoders, these readers take bytes that cannot be read as a
//! run length for an error, unless the bytes end inside it.
use vstd::prelude::*;
use crate::codec::{DeltaRleable, Rleable};
use crate::err::{conversion_message, ColumnarError};
use crate::strategy::any_rle::{decode_stream, AnyRleDecoder, DecodeEnd};
use crate::strategy::bool_rle::{spec_bool_rle_decode_strict, BoolRleDecoder};
use crate::strategy::delta_rle::{spec_delta_rle_decode_strict, DeltaRleDecoder};

verus! {

/// Reads values from runs and literal runs.
pub struct AnyRleIter<'de, T> {
    rle: AnyRleDecoder<'de, T>,
}

impl<'de, T: Rleable> AnyRleIter<'de, T> {
    /// The values still to come, and how the reader stops after them.
    pub closed spec fn pending(&self) -> (Seq<T>, DecodeEnd) {
        self.rle.pending()
    }

    /// The reader's counters are in range.
    pub closed spec fn wf(&self) -> bool {
        self.rle.wf()
    }

    /// No run is under way whose value could not be read (see
    /// [`AnyRleDecoder::steady`]).
    pub closed spec fn steady(&self) -> bool {
        self.rle.steady()
    }

    pub fn new(bytes: &'de [u8]) -> (r: Self)
        ensures
            r.wf(),
            r.steady(),
            r.pending() == decode_stream::<T>(bytes@, true),
    {
        AnyRleIter { rle: AnyRleDecoder::new_strict(bytes) }
    }

    /// The next value: `Ok(None)` at the end, an error on a bad run length or
    /// on bytes that do not hold a value.
    pub fn try_next(&mut self) -> (r: Result<Option<T>, ColumnarError>)
        requires
            old(self).wf(),
        ensures
            final(self).wf(),
            old(self).pending().0.len() > 0 ==> r == Ok::<Option<T>, ColumnarError>(Some(old(self).pending().0[0]))
                && final(self).pending() == (old(self).pending().0.drop_first(), old(self).pending().1),
            old(self).pending().0.len() == 0 && old(self).pending().1 == DecodeEnd::Done ==> r == Ok::<Option<T>, ColumnarError>(None),
            old(self).pending().0.len() == 0 && old(self).pending().1 == DecodeEnd::RleError ==> (r matches Err(e) && e is RleDecodeError),
            old(self).pending().0.len() == 0 && old(self).pending().1 == DecodeEnd::ZeroCount ==> (r matches Err(
                ColumnarError::RleDecodeError(m),
            ) && m@ == "Invalid count"@),
            old(self).pending().0.len() == 0 && old(self).pending().1 == DecodeEnd::ValueError ==> (r matches Err(e) && e is SerializeError),
            old(self).steady() && r is Ok ==> final(self).steady(),
            old(self).steady() && old(self).pending().0.len() == 0 && old(self).pending().1 == DecodeEnd::Done
                ==> final(self).pending() == old(self).pending(),
    {
        self.rle.try_next()
    }
}

/// Reads numbers of type `T` from run-length encoded differences.
pub struct DeltaRleIter<'de, T> {
    rle: DeltaRleDecoder<'de, T>,
}

impl<'de, T: DeltaRleable> DeltaRleIter<'de, T> {
    /// The numbers still to come, and how the reader stops after them.
    pub closed spec fn pending(&self) -> (Seq<int>, DecodeEnd) {
        self.rle.pending()
    }

    /// The reader's counters are in range.
    pub closed spec fn wf(&self) -> bool {
        self.rle.wf()
    }

    /// No run is under way whose value could not be read (see
    /// [`AnyRleDecoder::steady`]).
    pub closed spec fn steady(&self) -> bool {
        self.rle.steady()
    }

    pub fn new(bytes: &'de [u8]) -> (r: Self)
        ensures
            r.wf(),
            r.steady(),
            r.pending() == spec_delta_rle_decode_strict(bytes@),
    {
        DeltaRleIter { rle: DeltaRleDecoder::new_strict(bytes) }
    }

    /// The next number as a `T`: `Ok(None)` at the end, an error where `T`
    /// cannot hold it, on a bad run length, or on bytes that do not hold a
    /// number.
    pub fn try_next(&mut self) -> (r: Result<Option<T>, ColumnarError>)
        requires
            old(self).wf(),
        ensures
            final(self).wf(),
            old(self).pending().0.len() > 0 ==> final(self).pending() == (old(self).pending().0.drop_first(), old(self).pending().1),
            old(self).pending().0.len() > 0 && T::spec_in_range(old(self).pending().0[0]) ==> (r matches Ok(Some(v))
                && T::spec_value(v) == old(self).pending().0[0]),
            old(self).pending().0.len() > 0 && !T::spec_in_range(old(self).pending().0[0]) ==> (r matches Err(e) && e is RleDecodeError),
            old(self).pending().0.len() == 0 && old(self).pending().1 == DecodeEnd::Done ==> r == Ok::<Option<T>, ColumnarError>(None),
            old(self).pending().0.len() == 0 && old(self).pending().1 == DecodeEnd::RleError ==> (r matches Err(e) && e is RleDecodeError),
            old(self).pending().0.len() == 0 && old(self).pending().1 == DecodeEnd::ZeroCount ==> (r matches Err(
                ColumnarError::RleDecodeError(m),
            ) && m@ == "Invalid count"@),
            old(self).pending().0.len() == 0 && old(self).pending().1 == DecodeEnd::ValueError ==> (r matches Err(e) && e is SerializeError),
            old(self).steady() && r is Ok ==> final(self).steady(),
            old(self).steady() && old(self).pending().0.len() == 0 && old(self).pending().1 == DecodeEnd::Done
                ==> final(self).pending() == old(self).pending(),
    {
        match self.rle.try_next()? {
            Some(value) => match T::from_i128(value) {
                Some(v) => Ok(Some(v)),
                None => Err(ColumnarError::RleDecodeError(conversion_message(value))),
            },
            None => Ok(None),
        }
    }
}

/// Reads booleans from the lengths of their alternating runs.
pub struct BoolRleIter<'de> {
    rle: BoolRleDecoder<'de>,
}

impl<'de> BoolRleIter<'de> {
    /// The values still to come, and whether an error stops them.
    pub closed spec fn pending(&self) -> (Seq<bool>, bool) {
        self.rle.pending()
    }

    /// The reader takes a bad count for an error.
    pub closed spec fn wf(&self) -> bool {
        self.rle.is_strict()
    }

    pub fn new(bytes: &'de [u8]) -> (r: Self)
        ensures
            r.wf(),
            r.pending() == spec_bool_rle_decode_strict(bytes@),
    {
        BoolRleIter { rle: BoolRleDecoder::new_strict(bytes) }
    }

    /// The next value: `Ok(None)` at the end, an error on a count above the
    /// limit or on bytes that cannot be read as a count.
    pub fn try_next(&mut self) -> (r: Result<Option<bool>, ColumnarError>)
        requires
            old(self).wf(),
        ensures
            final(self).wf(),
            old(self).pending().0.len() > 0 ==> r == Ok::<Option<bool>, ColumnarError>(Some(old(self).pending().0[0]))
                && final(self).pending() == (old(self).pending().0.drop_first(), old(self).pending().1),
            old(self).pending().0.len() == 0 && !old(self).pending().1 ==> r == Ok::<Option<bool>, ColumnarError>(None),
            old(self).pending().0.len() == 0 && !old(self).pending().1 ==> final(self).pending() == old(self).pending(),
            old(self).pending().0.len() == 0 && old(self).pending().1 ==> (r matches Err(e) && (e is RleDecodeError || e is SerializeError)),
    {
        self.rle.try_next()
    }
}

} // verus!
