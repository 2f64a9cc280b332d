//! Columns: a sequence of values together with the codec that stores it.
use vstd::prelude::*;
use crate::err::ColumnarError;

pub mod bool_rle;
pub mod rle;
pub mod delta_rle;
pub mod delta_of_delta;
pub mod generic;

verus! {

/// What a column carries besides its values.
#[derive(Debug, Clone, Copy, PartialEq, Eq, Structural)]
pub struct ColumnAttr {
    pub index: Option<usize>,
}

impl ColumnAttr {
    /// The attribute with no index.
    pub open spec fn spec_empty() -> ColumnAttr {
        ColumnAttr { index: None }
    }

    pub fn empty() -> (r: Self)
        ensures
            r == Self::spec_empty(),
    {
        ColumnAttr { index: None }
    }
}

/// A sequence of values with its attribute.
#[derive(Debug, Clone)]
pub struct Column<T: Clone> {
    pub data: Vec<T>,
    pub attr: ColumnAttr,
}

impl<T: Clone> Column<T> {
    pub fn new(data: Vec<T>, attr: ColumnAttr) -> (r: Self)
        ensures
            r.data == data,
            r.attr == attr,
    {
        Column { data, attr }
    }
}

/// A column that encodes its values into bytes and decodes them back.
pub trait ColumnTrait: Sized + View {
    /// The number of values.
    spec fn spec_len(&self) -> nat;

    /// The attribute the column reports.
    spec fn spec_attr(&self) -> ColumnAttr;

    /// Values that the encoder accepts.
    spec fn spec_encodable(data: Self::V) -> bool;

    /// `bytes` is what the encoder writes for `data`.
    spec fn spec_encodes(data: Self::V, bytes: Seq<u8>) -> bool;

    /// Bytes that the decoder reads without breaking down.
    spec fn spec_decodable(bytes: Seq<u8>) -> bool;

    /// What the decoder reads from `bytes`: the values, or `None` for an
    /// error.
    spec fn spec_decode(bytes: Seq<u8>) -> Option<Self::V>;

    /// No run in the encoding of `data` is longer than the decoder accepts.
    spec fn spec_within_limits(data: Self::V) -> bool;

    fn attr(&self) -> (r: ColumnAttr)
        ensures
            r == self.spec_attr(),
    ;

    fn encode(&self) -> (r: Result<Vec<u8>, ColumnarError>)
        requires
            self.spec_len() < isize::MAX,
        ensures
            r is Ok <==> Self::spec_encodable(self@),
            r matches Ok(bytes) ==> Self::spec_encodes(self@, bytes@),
    ;

    fn decode(bytes: &[u8]) -> (r: Result<Self, ColumnarError>)
        requires
            Self::spec_decodable(bytes@),
        ensures
            r is Ok <==> Self::spec_decode(bytes@) is Some,
            r matches Ok(c) ==> Self::spec_decode(bytes@) == Some(c@) && c.spec_attr() == ColumnAttr::spec_empty(),
    ;

    fn len(&self) -> (r: usize)
        ensures
            r == self.spec_len(),
    ;

    fn is_empty(&self) -> (r: bool)
        ensures
            r == (self.spec_len() == 0),
    {
        self.len() == 0
    }

    /// Decoding what the encoder wrote gives back the values, whenever no run
    /// is longer than the decoder accepts.
    proof fn lemma_roundtrip(data: Self::V, bytes: Seq<u8>)
        requires
            Self::spec_encodes(data, bytes),
            Self::spec_within_limits(data),
        ensures
            Self::spec_decodable(bytes),
            Self::spec_decode(bytes) == Some(data),
    ;
}

} // verus!
