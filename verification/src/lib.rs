//! Columnar storage encodings: run-length, delta and delta-of-delta codecs
//! over a postcard byte stream, the columns built on them, and the rules of
//! the `columnar` attribute.
use vstd::prelude::*;

pub mod varint;
pub mod postcard_io;
pub mod err;
pub mod codec;
pub mod strategy;
pub mod column;
pub mod args;
pub mod borrow;
pub mod lifetime_list;
pub mod type_shape;
pub mod columnar_internal;
pub mod wrap;
pub mod analyze;
pub mod iterable;

pub use analyze::{AnalyzeResult, AnalyzeResults, FieldAnalyze};
pub use args::{AsType, Strategy};
pub use borrow::{borrow_lifetimes, BorrowOverride};
pub use codec::{DeltaOfDeltable, DeltaRleable, Rleable};
pub use column::bool_rle::BoolRleColumn;
pub use column::delta_of_delta::DeltaOfDeltaColumn;
pub use column::delta_rle::DeltaRleColumn;
pub use column::generic::GenericColumn;
pub use column::rle::RleColumn;
pub use column::{Column, ColumnAttr, ColumnTrait};
pub use columnar_internal::{AllocVec, Cursor};
pub use err::ColumnarError;
pub use strategy::any_rle::{AnyRleDecoder, AnyRleEncoder};
pub use strategy::bool_rle::{BoolRleDecoder, BoolRleEncoder};
pub use strategy::delta_of_delta::DeltaOfDeltaEncoder;
pub use strategy::delta_of_delta_decoder::DeltaOfDeltaDecoder;
pub use strategy::delta_rle::{DeltaRleDecoder, DeltaRleEncoder};
pub use wrap::{ColumnarMap, ColumnarVec};
