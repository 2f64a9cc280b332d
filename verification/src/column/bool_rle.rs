//! A column of booleans stored as run lengths.
use vstd::prelude::*;
use crate::column::{ColumnAttr, ColumnTrait};
use crate::err::ColumnarError;
use crate::strategy::bool_rle::{
    bool_runs, lemma_bool_rle_roundtrip, runs_within_limit, spec_bool_rle_decode,
    spec_bool_rle_encode, BoolRleDecoder, BoolRleEncoder,
};

verus! {

/// Booleans that are stored as the lengths of their alternating runs.
#[derive(Debug)]
pub struct BoolRleColumn {
    pub data: Vec<bool>,
    pub attr: ColumnAttr,
}

impl View for BoolRleColumn {
    type V = Seq<bool>;

    open spec fn view(&self) -> Seq<bool> {
        self.data@
    }
}

impl BoolRleColumn {
    pub fn new(data: Vec<bool>, attr: ColumnAttr) -> (r: Self)
        ensures
            r.data == data,
            r.attr == attr,
    {
        BoolRleColumn { data, attr }
    }
}

impl From<Vec<bool>> for BoolRleColumn {
    /// A column of the values with no attribute.
    fn from(value: Vec<bool>) -> (r: Self) {
        BoolRleColumn { data: value, attr: ColumnAttr::empty() }
    }
}

impl vstd::std_specs::convert::FromSpecImpl<Vec<bool>> for BoolRleColumn {
    open spec fn obeys_from_spec() -> bool {
        true
    }

    open spec fn from_spec(value: Vec<bool>) -> BoolRleColumn {
        BoolRleColumn { data: value, attr: ColumnAttr::spec_empty() }
    }
}

impl ColumnTrait for BoolRleColumn {
    open spec fn spec_len(&self) -> nat {
        self.data@.len()
    }

    open spec fn spec_attr(&self) -> ColumnAttr {
        self.attr
    }

    open spec fn spec_encodable(data: Seq<bool>) -> bool {
        true
    }

    open spec fn spec_encodes(data: Seq<bool>, bytes: Seq<u8>) -> bool {
        bytes == spec_bool_rle_encode(data)
    }

    open spec fn spec_decodable(bytes: Seq<u8>) -> bool {
        true
    }

    open spec fn spec_decode(bytes: Seq<u8>) -> Option<Seq<bool>> {
        let (bs, failed) = spec_bool_rle_decode(bytes);
        if failed {
            None
        } else {
            Some(bs)
        }
    }

    open spec fn spec_within_limits(data: Seq<bool>) -> bool {
        runs_within_limit(bool_runs(data))
    }

    fn attr(&self) -> (r: ColumnAttr) {
        self.attr
    }

    fn encode(&self) -> (r: Result<Vec<u8>, ColumnarError>)
        ensures
            r matches Ok(bytes) && bytes@ == spec_bool_rle_encode(self@),
    {
        let mut rle_encoder = BoolRleEncoder::new();
        let n = self.data.len();
        let mut i: usize = 0;
        while i < n
            invariant
                n == self.data@.len(),
                n < isize::MAX,
                i <= n,
                rle_encoder.wf(),
                rle_encoder@ == self.data@.take(i as int),
            decreases n - i,
        {
            rle_encoder.append(self.data[i])?;
            proof {
                assert(self.data@.take(i as int).push(self.data@[i as int]) =~= self.data@.take(i + 1));
            }
            i = i + 1;
        }
        proof {
            assert(self.data@.take(n as int) =~= self.data@);
        }
        rle_encoder.finish()
    }

    fn decode(bytes: &[u8]) -> (r: Result<Self, ColumnarError>) {
        let mut bool_rle_decoder = BoolRleDecoder::new(bytes);
        let data = bool_rle_decoder.decode()?;
        Ok(BoolRleColumn { data, attr: ColumnAttr::empty() })
    }

    fn len(&self) -> (r: usize) {
        self.data.len()
    }

    proof fn lemma_roundtrip(data: Seq<bool>, bytes: Seq<u8>) {
        lemma_bool_rle_roundtrip(data);
    }
}

/// A boolean column holds any booleans: encoding never fails, however many
/// there are, and it writes exactly the lengths of their alternating runs.
pub proof fn lemma_bool_column_encodes_all(data: Seq<bool>)
    ensures
        BoolRleColumn::spec_encodable(data),
        forall|bytes: Seq<u8>| BoolRleColumn::spec_encodes(data, bytes) <==> bytes == spec_bool_rle_encode(data),
{
}

} // verus!
