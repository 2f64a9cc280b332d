//! A column of numbers stored as run-length encoded differences.
use vstd::prelude::*;
use crate::codec::DeltaRleable;
use crate::column::{ColumnAttr, ColumnTrait};
use crate::err::ColumnarError;
use crate::strategy::any_rle::{rle_within_limit, DecodeEnd};
use crate::strategy::delta_rle::{
    deltas_within_i128, lemma_delta_rle_roundtrip, spec_delta_rle_decode, spec_delta_rle_encode,
    spec_deltas, DeltaRleDecoder, DeltaRleEncoder,
};

verus! {

/// Numbers that are stored as the run-length encoding of their
/// differences.
#[derive(Debug)]
pub struct DeltaRleColumn<T> {
    pub data: Vec<T>,
    pub attr: ColumnAttr,
}

impl<T: DeltaRleable> View for DeltaRleColumn<T> {
    type V = Seq<int>;

    /// The numbers the values stand for.
    open spec fn view(&self) -> Seq<int> {
        self.data@.map_values(|x: T| T::spec_value(x))
    }
}

impl<T> DeltaRleColumn<T> {
    pub fn new(data: Vec<T>, attr: ColumnAttr) -> (r: Self)
        ensures
            r.data == data,
            r.attr == attr,
    {
        DeltaRleColumn { data, attr }
    }
}

impl<T: DeltaRleable> From<Vec<T>> for DeltaRleColumn<T> {
    /// A column of the values with no attribute.
    fn from(value: Vec<T>) -> (r: Self) {
        DeltaRleColumn { data: value, attr: ColumnAttr::empty() }
    }
}

impl<T: DeltaRleable> vstd::std_specs::convert::FromSpecImpl<Vec<T>> for DeltaRleColumn<T> {
    open spec fn obeys_from_spec() -> bool {
        true
    }

    open spec fn from_spec(value: Vec<T>) -> DeltaRleColumn<T> {
        DeltaRleColumn { data: value, attr: ColumnAttr::spec_empty() }
    }
}

impl<T: DeltaRleable> ColumnTrait for DeltaRleColumn<T> {
    open spec fn spec_len(&self) -> nat {
        self.data@.len()
    }

    open spec fn spec_attr(&self) -> ColumnAttr {
        self.attr
    }

    open spec fn spec_encodable(data: Seq<int>) -> bool {
        forall|i: int| 0 <= i < data.len() ==> i128::MIN <= #[trigger] data[i] <= i128::MAX
    }

    open spec fn spec_encodes(data: Seq<int>, bytes: Seq<u8>) -> bool {
        bytes == spec_delta_rle_encode(data)
    }

    open spec fn spec_decodable(bytes: Seq<u8>) -> bool {
        true
    }

    open spec fn spec_decode(bytes: Seq<u8>) -> Option<Seq<int>> {
        let (xs, end) = spec_delta_rle_decode(bytes);
        if end == DecodeEnd::Done && forall|i: int| 0 <= i < xs.len() ==> T::spec_in_range(#[trigger] xs[i]) {
            Some(xs)
        } else {
            None
        }
    }

    open spec fn spec_within_limits(data: Seq<int>) -> bool {
        &&& deltas_within_i128(data)
        &&& rle_within_limit(spec_deltas(data))
        &&& forall|i: int| 0 <= i < data.len() ==> T::spec_in_range(#[trigger] data[i])
    }

    fn attr(&self) -> (r: ColumnAttr) {
        self.attr
    }

    fn encode(&self) -> (r: Result<Vec<u8>, ColumnarError>)
        ensures
            r is Ok <==> forall|i: int| 0 <= i < self@.len() ==> i128::MIN <= #[trigger] self@[i] <= i128::MAX,
            r matches Ok(bytes) ==> bytes@ == spec_delta_rle_encode(self@),
    {
        let mut delta_rle = DeltaRleEncoder::new();
        let n = self.data.len();
        let mut i: usize = 0;
        while i < n
            invariant
                n == self.data@.len(),
                n < isize::MAX,
                i <= n,
                delta_rle.wf(),
                delta_rle@ == self@.take(i as int),
                forall|k: int| 0 <= k < i ==> i128::MIN <= #[trigger] self@[k] <= i128::MAX,
            decreases n - i,
        {
            let ghost x = self@[i as int];
            match delta_rle.append(self.data[i]) {
                Ok(()) => {},
                Err(e) => {
                    proof {
                        assert(!(i128::MIN <= x <= i128::MAX));
                    }
                    return Err(e);
                },
            }
            proof {
                assert(self@.take(i as int).push(self@[i as int]) =~= self@.take(i + 1));
            }
            i = i + 1;
        }
        proof {
            assert(self@.take(n as int) =~= self@);
        }
        delta_rle.finish()
    }

    fn decode(bytes: &[u8]) -> (r: Result<Self, ColumnarError>) {
        let mut delta_rle_decoder = DeltaRleDecoder::<T>::new(bytes);
        let data = delta_rle_decoder.decode()?;
        let r = DeltaRleColumn { data, attr: ColumnAttr::empty() };
        proof {
            assert(r@ =~= spec_delta_rle_decode(bytes@).0);
        }
        Ok(r)
    }

    fn len(&self) -> (r: usize) {
        self.data.len()
    }

    proof fn lemma_roundtrip(data: Seq<int>, bytes: Seq<u8>) {
        lemma_delta_rle_roundtrip(data);
    }
}

/// A delta run-length column fails to encode exactly where one of its
/// numbers leaves the range of `i128`, whatever their count, and otherwise
/// writes the run-length encoding of their differences.
pub proof fn lemma_delta_column_encodable<T: DeltaRleable>(data: Seq<int>)
    ensures
        DeltaRleColumn::<T>::spec_encodable(data) <==> forall|i: int| 0 <= i < data.len() ==> i128::MIN <= #[trigger] data[i] <= i128::MAX,
        forall|bytes: Seq<u8>| DeltaRleColumn::<T>::spec_encodes(data, bytes) <==> bytes == spec_delta_rle_encode(data),
{
}

} // verus!
