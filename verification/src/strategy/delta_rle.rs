//! Delta run-length encoding: each number is written as its difference from
//! the number before it (from 0 for the first), and the differences are
//! run-length encoded as `i128`s. Differences saturate at the bounds of
//! `i128`.
use vstd::prelude::*;
use crate::codec::{DeltaRleable, Rleable};
use crate::err::{conversion_message, ColumnarError};
use crate::strategy::any_rle::{
    decode_stream, lemma_rle_roundtrip, rle_within_limit, spec_rle_encode, AnyRleDecoder,
    AnyRleEncoder, DecodeEnd,
};

verus! {

/// `x` clamped to the range of `i128`.
pub open spec fn saturate(x: int) -> int {
    if x > i128::MAX {
        i128::MAX as int
    } else if x < i128::MIN {
        i128::MIN as int
    } else {
        x
    }
}

/// The differences the encoder writes for `xs`: each number less the one
/// before it (0 before the first), saturated.
pub open spec fn spec_deltas(xs: Seq<int>) -> Seq<i128>
    decreases xs.len(),
{
    if xs.len() == 0 {
        seq![]
    } else {
        let prev = if xs.len() == 1 {
            0
        } else {
            xs[xs.len() - 2]
        };
        spec_deltas(xs.drop_last()).push(saturate(xs.last() - prev) as i128)
    }
}

/// What the delta run-length encoder writes for `xs`.
pub open spec fn spec_delta_rle_encode(xs: Seq<int>) -> Seq<u8> {
    spec_rle_encode(spec_deltas(xs))
}

/// The running sums of `ds` from `start`, each saturated.
pub open spec fn running_sums(start: int, ds: Seq<i128>) -> Seq<int>
    decreases ds.len(),
{
    if ds.len() == 0 {
        seq![]
    } else {
        let x = saturate(start + ds[0]);
        seq![x] + running_sums(x, ds.drop_first())
    }
}

/// What the delta run-length decoder reads from `bytes`: the numbers, and
/// how it stops after them.
pub open spec fn spec_delta_rle_decode(bytes: Seq<u8>) -> (Seq<int>, DecodeEnd) {
    let (ds, e) = decode_stream::<i128>(bytes, false);
    (running_sums(0, ds), e)
}

/// What a decoder that takes a bad run length for an error reads from
/// `bytes`.
pub open spec fn spec_delta_rle_decode_strict(bytes: Seq<u8>) -> (Seq<int>, DecodeEnd) {
    let (ds, e) = decode_stream::<i128>(bytes, true);
    (running_sums(0, ds), e)
}

/// Every number is an `i128`, and no difference between neighbours (or from
/// 0 for the first) leaves the range of `i128`.
pub open spec fn deltas_within_i128(xs: Seq<int>) -> bool {
    &&& forall|i: int| 0 <= i < xs.len() ==> i128::MIN <= #[trigger] xs[i] <= i128::MAX
    &&& xs.len() > 0 ==> i128::MIN <= xs[0] <= i128::MAX
    &&& forall|i: int| 1 <= i < xs.len() ==> i128::MIN <= #[trigger] xs[i] - xs[i - 1] <= i128::MAX
}

/// Decoding what the delta run-length encoder wrote gives back the numbers,
/// whenever no difference leaves the range of `i128` and no run is longer
/// than the decoder accepts.
pub proof fn lemma_delta_rle_roundtrip(xs: Seq<int>)
    requires
        deltas_within_i128(xs),
        rle_within_limit(spec_deltas(xs)),
    ensures
        spec_delta_rle_decode(spec_delta_rle_encode(xs)) == (xs, DecodeEnd::Done),
        spec_delta_rle_decode_strict(spec_delta_rle_encode(xs)) == (xs, DecodeEnd::Done),
{
    lemma_rle_roundtrip(spec_deltas(xs), false);
    lemma_rle_roundtrip(spec_deltas(xs), true);
    lemma_running_sums_deltas(xs);
}

/// The running sums of the differences of `xs` give back `xs`.
proof fn lemma_running_sums_deltas(xs: Seq<int>)
    requires
        deltas_within_i128(xs),
    ensures
        running_sums(0, spec_deltas(xs)) == xs,
        spec_deltas(xs).len() == xs.len(),
    decreases xs.len(),
{
    if xs.len() > 0 {
        let prefix = xs.drop_last();
        assert(deltas_within_i128(prefix)) by {
            assert forall|i: int| 0 <= i < prefix.len() implies i128::MIN <= #[trigger] prefix[i] <= i128::MAX by {
                assert(prefix[i] == xs[i]);
            }
            assert forall|i: int| 1 <= i < prefix.len() implies i128::MIN <= #[trigger] prefix[i] - prefix[i - 1] <= i128::MAX by {
                assert(prefix[i] == xs[i]);
                assert(prefix[i - 1] == xs[i - 1]);
            }
        }
        lemma_running_sums_deltas(prefix);
        let prev = if xs.len() == 1 { 0 } else { xs[xs.len() - 2] };
        let d = saturate(xs.last() - prev) as i128;
        assert(xs[xs.len() - 1] == xs.last());
        if xs.len() > 1 {
            assert(i128::MIN <= xs[xs.len() - 1] - xs[xs.len() - 2] <= i128::MAX);
        }
        lemma_running_sums_push(0, spec_deltas(prefix), d);
        assert(prefix.push(xs.last()) =~= xs);
    }
}

/// Running sums over one more difference end with one more sum.
proof fn lemma_running_sums_push(start: int, ds: Seq<i128>, d: i128)
    ensures
        running_sums(start, ds.push(d)) == running_sums(start, ds).push(
            saturate(if ds.len() == 0 { start } else { running_sums(start, ds).last() } + d),
        ),
        running_sums(start, ds).len() == ds.len(),
    decreases ds.len(),
{
    if ds.len() == 0 {
        assert(ds.push(d) =~= seq![d]);
        assert(seq![d].drop_first() =~= Seq::<i128>::empty());
        assert(seq![d][0] == d);
        assert(running_sums(saturate(start + d), Seq::<i128>::empty()) == Seq::<int>::empty());
        assert(running_sums(start, seq![d]) =~= seq![saturate(start + d)] + Seq::<int>::empty());
        assert(Seq::<int>::empty().push(saturate(start + d)) =~= seq![saturate(start + d)] + Seq::<int>::empty());
    } else {
        let x = saturate(start + ds[0]);
        let tail = ds.drop_first();
        assert(ds.push(d).drop_first() =~= tail.push(d));
        assert(ds.push(d)[0] == ds[0]);
        lemma_running_sums_push(x, tail, d);
        let rt = running_sums(x, tail);
        let last = if tail.len() == 0 { x } else { rt.last() };
        assert(running_sums(start, ds) == seq![x] + rt);
        assert(running_sums(start, ds).last() == last);
        assert(seq![x] + rt.push(saturate(last + d)) =~= (seq![x] + rt).push(saturate(last + d)));
    }
}

/// Encodes numbers as run-length encoded differences.
pub struct DeltaRleEncoder {
    rle: AnyRleEncoder<i128>,
    absolute_value: i128,
    values: Ghost<Seq<int>>,
}

impl View for DeltaRleEncoder {
    type V = Seq<int>;

    /// The numbers appended so far.
    closed spec fn view(&self) -> Seq<int> {
        self.values@
    }
}

impl DeltaRleEncoder {
    /// The encoder's state agrees with the numbers appended so far.
    pub closed spec fn wf(&self) -> bool {
        &&& self.rle.wf()
        &&& self.rle@ == spec_deltas(self.values@)
        &&& self.rle@.len() == self.values@.len()
        &&& self.absolute_value as int == if self.values@.len() == 0 {
            0
        } else {
            self.values@.last()
        }
    }

    pub fn new() -> (r: Self)
        ensures
            r.wf(),
            r@ == Seq::<int>::empty(),
    {
        DeltaRleEncoder { rle: AnyRleEncoder::new(), absolute_value: 0, values: Ghost(Seq::empty()) }
    }

    /// Appends a number; an error where it does not fit in an `i128`.
    pub fn append<T: DeltaRleable>(&mut self, value: T) -> (r: Result<(), ColumnarError>)
        requires
            old(self).wf(),
            old(self)@.len() < isize::MAX,
        ensures
            final(self).wf(),
            r is Ok <==> i128::MIN <= T::spec_value(value) <= i128::MAX,
            r is Ok ==> final(self)@ == old(self)@.push(T::spec_value(value)),
            r is Err ==> final(self)@ == old(self)@,
            r matches Err(e) ==> e is RleEncodeError,
            !(i128::MIN <= T::spec_value(value) <= i128::MAX) ==> (r matches Err(
                ColumnarError::RleEncodeError(m),
            ) && m@ == "cannot into i128"@),
    {
        let v: i128 = match value.to_i128() {
            Some(v) => v,
            None => {
                return Err(ColumnarError::RleEncodeError("cannot into i128".to_owned()));
            },
        };
        let delta = match v.checked_sub(self.absolute_value) {
            Some(d) => d,
            None => if self.absolute_value > 0 {
                i128::MIN
            } else {
                i128::MAX
            },
        };
        let ghost new_values = self.values@.push(v as int);
        proof {
            assert(new_values.drop_last() =~= self.values@);
            assert(delta as int == saturate(v - self.absolute_value));
        }
        self.absolute_value = v;
        self.rle.append(&delta)?;
        self.values = Ghost(new_values);
        Ok(())
    }

    pub fn finish(self) -> (r: Result<Vec<u8>, ColumnarError>)
        requires
            self.wf(),
            self@.len() <= isize::MAX,
        ensures
            r is Ok,
            r matches Ok(bytes) ==> bytes@ == spec_delta_rle_encode(self@),
    {
        self.rle.finish()
    }
}

impl Default for DeltaRleEncoder {
    fn default() -> (r: Self)
        ensures
            r.wf(),
            r@ == Seq::<int>::empty(),
    {
        Self::new()
    }
}

/// Decodes numbers of type `T` from run-length encoded differences.
pub struct DeltaRleDecoder<'de, T> {
    rle: AnyRleDecoder<'de, i128>,
    absolute_value: i128,
    _t: std::marker::PhantomData<T>,
}

impl<'de, T: DeltaRleable> DeltaRleDecoder<'de, T> {
    /// The numbers still to come, and how the decoder stops after them.
    pub closed spec fn pending(&self) -> (Seq<int>, DecodeEnd) {
        let (ds, e) = self.rle.pending();
        (running_sums(self.absolute_value as int, ds), e)
    }

    /// The decoder's counters are in range.
    pub closed spec fn wf(&self) -> bool {
        self.rle.wf()
    }

    /// No run is under way whose value could not be read (see
    /// [`AnyRleDecoder::steady`]).
    pub closed spec fn steady(&self) -> bool {
        self.rle.steady()
    }

    /// The bytes not read yet.
    pub closed spec fn remaining(&self) -> Seq<u8> {
        self.rle.remaining()
    }

    pub fn new(bytes: &'de [u8]) -> (r: Self)
        ensures
            r.wf(),
            r.steady(),
            r.pending() == spec_delta_rle_decode(bytes@),
            r.remaining() == bytes@,
    {
        DeltaRleDecoder { rle: AnyRleDecoder::new(bytes), absolute_value: 0, _t: std::marker::PhantomData }
    }

    /// A decoder that takes a run length that cannot be read, where the
    /// bytes do not end inside it, for an error.
    pub(crate) fn new_strict(bytes: &'de [u8]) -> (r: Self)
        ensures
            r.wf(),
            r.steady(),
            r.pending() == spec_delta_rle_decode_strict(bytes@),
            r.remaining() == bytes@,
    {
        DeltaRleDecoder { rle: AnyRleDecoder::new_strict(bytes), absolute_value: 0, _t: std::marker::PhantomData }
    }

    /// The next number: `Ok(None)` at the end, an error on a bad run length
    /// or on bytes that do not hold a number.
    pub(crate) fn try_next(&mut self) -> (r: Result<Option<i128>, ColumnarError>)
        requires
            old(self).wf(),
        ensures
            final(self).wf(),
            old(self).pending().0.len() > 0 ==> (r matches Ok(Some(x)) && x as int == old(self).pending().0[0])
                && final(self).pending() == (old(self).pending().0.drop_first(), old(self).pending().1),
            old(self).pending().0.len() == 0 && old(self).pending().1 == DecodeEnd::Done ==> r == Ok::<Option<i128>, ColumnarError>(None),
            old(self).pending().0.len() == 0 && old(self).pending().1 == DecodeEnd::RleError ==> (r matches Err(e) && e is RleDecodeError),
            old(self).pending().0.len() == 0 && old(self).pending().1 == DecodeEnd::ZeroCount ==> (r matches Err(
                ColumnarError::RleDecodeError(m),
            ) && m@ == "Invalid count"@),
            old(self).pending().0.len() == 0 && old(self).pending().1 == DecodeEnd::ValueError ==> (r matches Err(e) && e is SerializeError),
            old(self).steady() && r is Ok ==> final(self).steady(),
            old(self).steady() && old(self).pending().0.len() == 0 && old(self).pending().1 == DecodeEnd::Done
                ==> final(self).pending() == old(self).pending(),
    {
        let ghost ds = self.rle.pending().0;
        let next = self.rle.try_next()?;
        if let Some(delta) = next {
            let sum = match self.absolute_value.checked_add(delta) {
                Some(x) => x,
                None => if delta > 0 {
                    i128::MAX
                } else {
                    i128::MIN
                },
            };
            proof {
                assert(sum as int == saturate(self.absolute_value + delta));
                assert(ds[0] == delta);
            }
            self.absolute_value = sum;
            Ok(Some(self.absolute_value))
        } else {
            Ok(None)
        }
    }

    /// All the numbers still to come, each as a `T`; an error on a number
    /// that `T` cannot hold, on a bad run length, or on bytes that do not
    /// hold a number.
    pub fn decode(&mut self) -> (r: Result<Vec<T>, ColumnarError>)
        requires
            old(self).wf(),
        ensures
            r is Ok <==> (forall|i: int| 0 <= i < old(self).pending().0.len() ==> T::spec_in_range(#[trigger] old(self).pending().0[i]))
                && old(self).pending().1 == DecodeEnd::Done,
            r matches Ok(v) ==> v@.len() == old(self).pending().0.len()
                && forall|i: int| 0 <= i < v@.len() ==> T::spec_value(#[trigger] v@[i]) == old(self).pending().0[i],
            r matches Err(e) ==> ((exists|i: int| 0 <= i < old(self).pending().0.len() && !T::spec_in_range(#[trigger] old(self).pending().0[i]))
                || old(self).pending().1 == DecodeEnd::RleError || old(self).pending().1 == DecodeEnd::ZeroCount ==> e is RleDecodeError),
            r matches Err(e) ==> ((forall|i: int| 0 <= i < old(self).pending().0.len() ==> T::spec_in_range(#[trigger] old(self).pending().0[i]))
                && old(self).pending().1 == DecodeEnd::ZeroCount ==> (e matches ColumnarError::RleDecodeError(m) && m@ == "Invalid count"@)),
            r matches Err(e) ==> ((forall|i: int| 0 <= i < old(self).pending().0.len() ==> T::spec_in_range(#[trigger] old(self).pending().0[i]))
                && old(self).pending().1 == DecodeEnd::ValueError ==> e is SerializeError),
            old(self).steady() && r is Ok ==> final(self).steady() && final(self).pending() == (
                Seq::<int>::empty(),
                DecodeEnd::Done,
            ),
    {
        let mut values: Vec<T> = Vec::new();
        let ghost p0 = self.pending();
        loop
            invariant
                self.wf(),
                old(self).steady() ==> self.steady(),
                p0 == old(self).pending(),
                self.pending().1 == p0.1,
                values@.len() + self.pending().0.len() == p0.0.len(),
                forall|i: int| 0 <= i < values@.len() ==> T::spec_value(#[trigger] values@[i]) == p0.0[i],
                forall|i: int| 0 <= i < values@.len() ==> T::spec_in_range(#[trigger] p0.0[i]),
                forall|i: int| 0 <= i < self.pending().0.len() ==> #[trigger] self.pending().0[i] == p0.0[values@.len() + i],
            decreases self.pending().0.len(),
        {
            let ghost before = self.pending();
            let ghost k = values@.len();
            match self.try_next() {
                Ok(Some(value)) => {
                    proof {
                        assert(before.0[0] == p0.0[k as int]);
                    }
                    match T::from_i128(value) {
                        Some(v) => {
                            values.push(v);
                            proof {
                                assert forall|i: int| 0 <= i < self.pending().0.len() implies #[trigger] self.pending().0[i] == p0.0[values@.len() + i] by {
                                    assert(self.pending().0[i] == before.0[i + 1]);
                                }
                            }
                        },
                        None => {
                            return Err(ColumnarError::RleDecodeError(conversion_message(value)));
                        },
                    }
                },
                Ok(None) => {
                    proof {
                        assert(values@.len() == p0.0.len());
                    }
                    return Ok(values);
                },
                Err(e) => {
                    return Err(e);
                },
            }
        }
    }

    /// The bytes that the decoder has not read.
    pub fn finalize(self) -> (r: Result<&'de [u8], ColumnarError>)
        ensures
            r matches Ok(rest),
            r matches Ok(rest) ==> rest@ == self.remaining(),
    {
        self.rle.finalize()
    }
}

} // verus!
