//! How many bytes each field of a struct takes once encoded.
use vstd::prelude::*;

verus! {

/// The encoded size of one field.
#[derive(Debug)]
pub struct AnalyzeResult {
    pub field_name: String,
    pub binary_size: usize,
}

/// The encoded sizes of the fields of a struct.
pub struct AnalyzeResults(pub Vec<AnalyzeResult>);

impl From<Vec<AnalyzeResult>> for AnalyzeResults {
    fn from(v: Vec<AnalyzeResult>) -> (r: Self) {
        AnalyzeResults(v)
    }
}

impl vstd::std_specs::convert::FromSpecImpl<Vec<AnalyzeResult>> for AnalyzeResults {
    open spec fn obeys_from_spec() -> bool {
        true
    }

    open spec fn from_spec(v: Vec<AnalyzeResult>) -> AnalyzeResults {
        AnalyzeResults(v)
    }
}

/// A struct that reports the encoded size of each of its fields.
pub trait FieldAnalyze: Clone {
    fn analyze(&self) -> AnalyzeResults;
}

} // verus!
