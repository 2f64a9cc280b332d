//! A column of numbers stored as delta-of-delta bit codes.
use vstd::prelude::*;
use crate::codec::{DeltaOfDeltable, Rleable};
use crate::column::{ColumnAttr, ColumnTrait};
use crate::err::{i64_conversion_message, ColumnarError};
use crate::strategy::delta_of_delta::{
    dod_encodable, is_dod_encoding, lemma_encodable_prefix,
    lemma_stream_len, DeltaOfDeltaEncoder,
};
use crate::strategy::delta_of_delta_decoder::{
    dod_header_ok, in_i64, lemma_dod_roundtrip, spec_dod_decode, DeltaOfDeltaDecoder,
};
use crate::varint::{lemma_pow128_values, lemma_varint_len, lemma_zigzag_bounds, zigzag};

verus! {

/// Numbers that are stored as the changes of their differences.
#[derive(Debug)]
pub struct DeltaOfDeltaColumn<T> {
    pub data: Vec<T>,
    pub attr: ColumnAttr,
}

impl<T: DeltaOfDeltable> View for DeltaOfDeltaColumn<T> {
    type V = Seq<int>;

    /// The numbers the values stand for.
    open spec fn view(&self) -> Seq<int> {
        self.data@.map_values(|x: T| T::spec_value(x))
    }
}

impl<T> DeltaOfDeltaColumn<T> {
    pub fn new(data: Vec<T>, attr: ColumnAttr) -> (r: Self)
        ensures
            r.data == data,
            r.attr == attr,
    {
        DeltaOfDeltaColumn { data, attr }
    }
}

/// The numbers as `i64`s.
pub open spec fn as_i64s(data: Seq<int>) -> Seq<i64> {
    data.map_values(|x: int| x as i64)
}

/// Every number is an `i64`, and the delta-of-delta encoder takes them.
pub open spec fn dod_column_encodable(data: Seq<int>) -> bool {
    &&& forall|i: int| 0 <= i < data.len() ==> in_i64(#[trigger] data[i])
    &&& dod_encodable(as_i64s(data))
}

impl<T: DeltaOfDeltable> From<Vec<T>> for DeltaOfDeltaColumn<T> {
    /// A column of the values with no attribute.
    fn from(value: Vec<T>) -> (r: Self) {
        DeltaOfDeltaColumn { data: value, attr: ColumnAttr::empty() }
    }
}

impl<T: DeltaOfDeltable> vstd::std_specs::convert::FromSpecImpl<Vec<T>> for DeltaOfDeltaColumn<T> {
    open spec fn obeys_from_spec() -> bool {
        true
    }

    open spec fn from_spec(value: Vec<T>) -> DeltaOfDeltaColumn<T> {
        DeltaOfDeltaColumn { data: value, attr: ColumnAttr::spec_empty() }
    }
}

impl<T: DeltaOfDeltable> DeltaOfDeltaColumn<T> {
    /// Decodes `bytes` as [`ColumnTrait::decode`] does where they can be
    /// decoded; `None` where they cannot: the header cannot be read, or the
    /// reading breaks down before a number that `T` cannot hold.
    pub fn decode_checked(bytes: &[u8]) -> (r: Option<Result<Self, ColumnarError>>)
        ensures
            r is Some <==> Self::spec_decodable(bytes@),
            r matches Some(x) ==> (x is Ok <==> Self::spec_decode(bytes@) is Some),
            r matches Some(Ok(c)) ==> Self::spec_decode(bytes@) == Some(c@) && c.spec_attr() == ColumnAttr::spec_empty(),
    {
        if bytes.len() >= 2 {
            match <i64 as Rleable>::decode(bytes) {
                Ok((_, rest)) => {
                    if rest.len() == 0 {
                        return None;
                    }
                },
                Err(_) => {
                    return None;
                },
            }
        }
        let mut probe = DeltaOfDeltaDecoder::<T>::new(bytes);
        let ghost p0 = probe.pending();
        let ghost mut k: int = 0;
        proof {
            assert(p0.0.skip(0) =~= p0.0);
        }
        loop
            invariant
                probe.wf(),
                dod_header_ok(bytes@),
                p0 == spec_dod_decode(bytes@),
                probe.pending().1 == p0.1,
                0 <= k <= p0.0.len(),
                probe.pending().0 == p0.0.skip(k),
                forall|i: int| 0 <= i < k ==> T::spec_in_range(#[trigger] p0.0[i] as int),
            decreases probe.pending().0.len(),
        {
            let ghost before = probe.pending();
            match probe.try_step() {
                None => {
                    proof {
                        assert(k == p0.0.len());
                    }
                    return None;
                },
                Some(Err(_)) => {
                    proof {
                        assert(before.0[0] == p0.0[k]);
                    }
                    return Some(Self::decode(bytes));
                },
                Some(Ok(None)) => {
                    return Some(Self::decode(bytes));
                },
                Some(Ok(Some(_))) => {
                    proof {
                        assert(before.0[0] == p0.0[k]);
                        assert(p0.0.skip(k).drop_first() =~= p0.0.skip(k + 1));
                        k = k + 1;
                    }
                },
            }
        }
    }
}

impl<T: DeltaOfDeltable> ColumnTrait for DeltaOfDeltaColumn<T> {
    open spec fn spec_len(&self) -> nat {
        self.data@.len()
    }

    open spec fn spec_attr(&self) -> ColumnAttr {
        self.attr
    }

    open spec fn spec_encodable(data: Seq<int>) -> bool {
        dod_column_encodable(data)
    }

    open spec fn spec_encodes(data: Seq<int>, bytes: Seq<u8>) -> bool {
        &&& dod_column_encodable(data)
        &&& is_dod_encoding(bytes, as_i64s(data), data.len() >= 2)
    }

    /// The header can be read, and the reading does not break down before a
    /// number that `T` cannot hold.
    open spec fn spec_decodable(bytes: Seq<u8>) -> bool {
        let (vs, broke) = spec_dod_decode(bytes);
        &&& dod_header_ok(bytes)
        &&& !broke || exists|i: int| 0 <= i < vs.len() && !T::spec_in_range(#[trigger] vs[i] as int)
    }

    open spec fn spec_decode(bytes: Seq<u8>) -> Option<Seq<int>> {
        let vs = spec_dod_decode(bytes).0;
        if forall|i: int| 0 <= i < vs.len() ==> T::spec_in_range(#[trigger] vs[i] as int) {
            Some(vs.map_values(|x: i64| x as int))
        } else {
            None
        }
    }

    /// `T` holds every number.
    open spec fn spec_within_limits(data: Seq<int>) -> bool {
        forall|i: int| 0 <= i < data.len() ==> T::spec_in_range(#[trigger] data[i])
    }

    fn attr(&self) -> (r: ColumnAttr) {
        self.attr
    }

    fn encode(&self) -> (r: Result<Vec<u8>, ColumnarError>) {
        let mut delta_of_delta_rle = DeltaOfDeltaEncoder::new();
        let n = self.data.len();
        let mut i: usize = 0;
        while i < n
            invariant
                n == self.data@.len(),
                i <= n,
                delta_of_delta_rle.wf(),
                delta_of_delta_rle@ == as_i64s(self@.take(i as int)),
                delta_of_delta_rle.use_bit() == (i >= 2),
                dod_column_encodable(self@.take(i as int)),
            decreases n - i,
        {
            let ghost x = self@[i as int];
            let ghost before = delta_of_delta_rle@;
            proof {
                assert(self@.take(i + 1) =~= self@.take(i as int).push(x));
                assert(as_i64s(self@.take(i + 1)) =~= before.push(x as i64));
            }
            let value = match self.data[i].to_i64() {
                Some(v) => v,
                None => {
                    proof {
                        assert(!in_i64(self@.take(i + 1)[i as int]));
                        assert(!in_i64(self@[i as int]));
                    }
                    return Err(ColumnarError::RleDecodeError(i64_conversion_message(self.data[i].widen())));
                },
            };
            match delta_of_delta_rle.append(value) {
                Ok(()) => {},
                Err(e) => {
                    proof {
                        let vs = as_i64s(self@.take(i + 1));
                        assert(vs.drop_last() =~= before);
                        assert(!dod_encodable(vs));
                        if dod_column_encodable(self@) {
                            lemma_encodable_prefix(as_i64s(self@), i + 1);
                            assert(as_i64s(self@).take(i + 1) =~= vs);
                        }
                    }
                    return Err(e);
                },
            }
            proof {
                let vs = as_i64s(self@.take(i + 1));
                assert(vs.drop_last() =~= before);
                assert(vs =~= before.push(value));
            }
            i = i + 1;
        }
        proof {
            assert(self@.take(n as int) =~= self@);
        }
        delta_of_delta_rle.finish()
    }

    fn decode(bytes: &[u8]) -> (r: Result<Self, ColumnarError>) {
        let mut delta_of_delta_decoder = DeltaOfDeltaDecoder::<T>::new(bytes);
        let data = delta_of_delta_decoder.decode()?;
        let r = DeltaOfDeltaColumn { data, attr: ColumnAttr::empty() };
        proof {
            assert(r@ =~= spec_dod_decode(bytes@).0.map_values(|x: i64| x as int));
        }
        Ok(r)
    }

    fn len(&self) -> (r: usize) {
        self.data.len()
    }

    proof fn lemma_roundtrip(data: Seq<int>, bytes: Seq<u8>) {
        let vs = as_i64s(data);
        lemma_dod_roundtrip(vs, bytes, data.len() >= 2);
        assert(vs.map_values(|x: i64| x as int) =~= data);
        lemma_stream_len(vs);
        if vs.len() > 0 {
            lemma_zigzag_bounds(vs[0] as int);
            lemma_pow128_values();
            lemma_varint_len(zigzag(vs[0] as int), 10);
        }
    }
}

/// Every number is an `i64`, and so is every difference between neighbours
/// and every change of that difference (from a difference of 0 before the
/// second number).
pub open spec fn differences_fit_i64(xs: Seq<int>) -> bool {
    &&& forall|i: int| 0 <= i < xs.len() ==> in_i64(#[trigger] xs[i])
    &&& forall|i: int| 1 <= i < xs.len() ==> in_i64(#[trigger] xs[i] - xs[i - 1])
    &&& forall|i: int|
        1 <= i < xs.len() ==> in_i64((#[trigger] xs[i] - xs[i - 1]) - (if i >= 2 {
            xs[i - 1] - xs[i - 2]
        } else {
            0
        }))
}

/// A delta-of-delta column encodes its numbers exactly where each number, each
/// difference between neighbours and each change of difference fits in an
/// `i64`, however many numbers there are.
pub proof fn lemma_dod_column_encodable<T: DeltaOfDeltable>(data: Seq<int>)
    ensures
        DeltaOfDeltaColumn::<T>::spec_encodable(data) <==> differences_fit_i64(data),
    decreases data.len(),
{
    let vs = as_i64s(data);
    if data.len() >= 2 {
        let prev = data.drop_last();
        lemma_dod_column_encodable::<T>(prev);
        assert(as_i64s(prev) =~= vs.drop_last());
        let n = data.len() as int;
        if differences_fit_i64(data) {
            assert(differences_fit_i64(prev)) by {
                assert forall|i: int| 1 <= i < prev.len() implies in_i64((#[trigger] prev[i] - prev[i - 1]) - (if i >= 2 {
                    prev[i - 1] - prev[i - 2]
                } else {
                    0
                })) by {
                    assert(in_i64((data[i] - data[i - 1]) - (if i >= 2 { data[i - 1] - data[i - 2] } else { 0 })));
                }
                assert forall|i: int| 1 <= i < prev.len() implies in_i64(#[trigger] prev[i] - prev[i - 1]) by {
                    assert(in_i64(data[i] - data[i - 1]));
                }
            }
            assert(in_i64(data[n - 1] - data[n - 2]));
            assert(in_i64((data[n - 1] - data[n - 2]) - (if n - 1 >= 2 { data[n - 2] - data[n - 3] } else { 0 })));
            assert(vs[n - 1] as int == data[n - 1] && vs[n - 2] as int == data[n - 2]);
            if n >= 3 {
                assert(vs[n - 3] as int == data[n - 3]);
            }
        }
        if DeltaOfDeltaColumn::<T>::spec_encodable(data) {
            assert(vs[n - 1] as int == data[n - 1] && vs[n - 2] as int == data[n - 2]);
            if n >= 3 {
                assert(vs[n - 3] as int == data[n - 3]);
            }
            assert(DeltaOfDeltaColumn::<T>::spec_encodable(prev));
            assert forall|i: int| 1 <= i < data.len() implies in_i64((#[trigger] data[i] - data[i - 1]) - (if i >= 2 {
                data[i - 1] - data[i - 2]
            } else {
                0
            })) by {
                if i < n - 1 {
                    assert(in_i64((prev[i] - prev[i - 1]) - (if i >= 2 { prev[i - 1] - prev[i - 2] } else { 0 })));
                }
            }
            assert forall|i: int| 1 <= i < data.len() implies in_i64(#[trigger] data[i] - data[i - 1]) by {
                if i < n - 1 {
                    assert(in_i64(prev[i] - prev[i - 1]));
                }
            }
        }
    }
}

} // verus!
