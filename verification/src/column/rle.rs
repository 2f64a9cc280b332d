//! A column of values stored as runs and literal runs.
use vstd::prelude::*;
use crate::codec::Rleable;
use crate::column::{ColumnAttr, ColumnTrait};
use crate::err::ColumnarError;
use crate::strategy::any_rle::{
    decode_stream, lemma_rle_roundtrip, rle_within_limit, spec_rle_encode, AnyRleDecoder,
    AnyRleEncoder, DecodeEnd,
};

verus! {

/// Values that are stored as runs of equal values and literal runs.
#[derive(Debug)]
pub struct RleColumn<T> {
    pub data: Vec<T>,
    pub attr: ColumnAttr,
}

impl<T> View for RleColumn<T> {
    type V = Seq<T>;

    open spec fn view(&self) -> Seq<T> {
        self.data@
    }
}

impl<T: Rleable> RleColumn<T> {
    pub fn new(data: Vec<T>, attr: ColumnAttr) -> (r: Self)
        ensures
            r.data == data,
            r.attr == attr,
    {
        RleColumn { data, attr }
    }
}

impl<T: Rleable> From<Vec<T>> for RleColumn<T> {
    /// A column of the values with no attribute.
    fn from(value: Vec<T>) -> (r: Self) {
        RleColumn { data: value, attr: ColumnAttr::empty() }
    }
}

impl<T: Rleable> vstd::std_specs::convert::FromSpecImpl<Vec<T>> for RleColumn<T> {
    open spec fn obeys_from_spec() -> bool {
        true
    }

    open spec fn from_spec(value: Vec<T>) -> RleColumn<T> {
        RleColumn { data: value, attr: ColumnAttr::spec_empty() }
    }
}

impl<T: Rleable> ColumnTrait for RleColumn<T> {
    open spec fn spec_len(&self) -> nat {
        self.data@.len()
    }

    open spec fn spec_attr(&self) -> ColumnAttr {
        self.attr
    }

    open spec fn spec_encodable(data: Seq<T>) -> bool {
        true
    }

    open spec fn spec_encodes(data: Seq<T>, bytes: Seq<u8>) -> bool {
        bytes == spec_rle_encode(data)
    }

    open spec fn spec_decodable(bytes: Seq<u8>) -> bool {
        true
    }

    open spec fn spec_decode(bytes: Seq<u8>) -> Option<Seq<T>> {
        let (vs, end) = decode_stream::<T>(bytes, false);
        if end == DecodeEnd::Done {
            Some(vs)
        } else {
            None
        }
    }

    open spec fn spec_within_limits(data: Seq<T>) -> bool {
        rle_within_limit(data)
    }

    fn attr(&self) -> (r: ColumnAttr) {
        self.attr
    }

    fn encode(&self) -> (r: Result<Vec<u8>, ColumnarError>)
        ensures
            r matches Ok(bytes) && bytes@ == spec_rle_encode(self@),
    {
        let mut rle_encoder = AnyRleEncoder::<T>::new();
        let n = self.data.len();
        let mut i: usize = 0;
        while i < n
            invariant
                n == self.data@.len(),
                n < isize::MAX,
                i <= n,
                rle_encoder.wf(),
                rle_encoder@ == self.data@.take(i as int),
            decreases n - i,
        {
            rle_encoder.append(&self.data[i])?;
            proof {
                assert(self.data@.take(i as int).push(self.data@[i as int]) =~= self.data@.take(i + 1));
            }
            i = i + 1;
        }
        proof {
            assert(self.data@.take(n as int) =~= self.data@);
        }
        rle_encoder.finish()
    }

    fn decode(bytes: &[u8]) -> (r: Result<Self, ColumnarError>) {
        let mut rle_decoder = AnyRleDecoder::<T>::new(bytes);
        let data = rle_decoder.decode()?;
        Ok(RleColumn { data, attr: ColumnAttr::empty() })
    }

    fn len(&self) -> (r: usize) {
        self.data.len()
    }

    proof fn lemma_roundtrip(data: Seq<T>, bytes: Seq<u8>) {
        lemma_rle_roundtrip(data, false);
    }
}

/// A run-length column holds any values: encoding never fails, whatever the
/// values and however many there are, and it writes exactly the run-length
/// encoding of the values.
pub proof fn lemma_rle_column_encodes_all<T: Rleable>(data: Seq<T>)
    ensures
        RleColumn::<T>::spec_encodable(data),
        forall|bytes: Seq<u8>| RleColumn::<T>::spec_encodes(data, bytes) <==> bytes == spec_rle_encode(data),
{
}

} // verus!
