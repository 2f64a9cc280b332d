use serde_columnar::iterable::{AnyRleIter, BoolRleIter, DeltaRleIter};
use serde_columnar::{
    AnyRleDecoder, AnyRleEncoder, BoolRleDecoder, BoolRleEncoder, ColumnarError, DeltaRleEncoder,
};

#[test]
fn any_rle_iter_reads_back() {
    let mut encoder = AnyRleEncoder::<i64>::new();
    for v in [3i64, 3, 3, -1, 5, 5] {
        encoder.append(&v).unwrap();
    }
    let bytes = encoder.finish().unwrap();
    let mut iter = AnyRleIter::<i64>::new(&bytes);
    let mut out = vec![];
    while let Some(v) = iter.try_next().unwrap() {
        out.push(v);
    }
    assert_eq!(out, vec![3, 3, 3, -1, 5, 5]);
    assert!(matches!(iter.try_next(), Ok(None)));
}

#[test]
fn any_rle_iter_truncated_count_ends() {
    // the bytes end inside the run length
    let mut iter = AnyRleIter::<u64>::new(&[0x80]);
    assert!(matches!(iter.try_next(), Ok(None)));
}

#[test]
fn any_rle_iter_bad_count_is_error() {
    // ten bytes that all announce one more: not a run length
    let bytes = [0xffu8; 10];
    let mut iter = AnyRleIter::<u64>::new(&bytes);
    assert!(matches!(iter.try_next(), Err(ColumnarError::SerializeError(_))));
    // the decoder takes the same bytes for the end
    let mut decoder = AnyRleDecoder::<u64>::new(&bytes);
    assert_eq!(decoder.decode().unwrap(), Vec::<u64>::new());
}

#[test]
fn bool_rle_iter_reads_back() {
    let mut encoder = BoolRleEncoder::new();
    for b in [false, false, true] {
        encoder.append(b).unwrap();
    }
    let bytes = encoder.finish().unwrap();
    let mut iter = BoolRleIter::new(&bytes);
    assert_eq!(iter.try_next().unwrap(), Some(false));
    assert_eq!(iter.try_next().unwrap(), Some(false));
    assert_eq!(iter.try_next().unwrap(), Some(true));
    assert_eq!(iter.try_next().unwrap(), None);
}

#[test]
fn bool_rle_iter_bad_count_is_error() {
    let bytes = [0xffu8; 10];
    let mut iter = BoolRleIter::new(&bytes);
    assert!(matches!(iter.try_next(), Err(ColumnarError::SerializeError(_))));
    let mut decoder = BoolRleDecoder::new(&bytes);
    assert_eq!(decoder.decode().unwrap(), Vec::<bool>::new());
}

#[test]
fn delta_rle_iter_reads_back_and_converts() {
    let mut encoder = DeltaRleEncoder::new();
    for v in [100i32, 200, 300] {
        encoder.append(v).unwrap();
    }
    let bytes = encoder.finish().unwrap();
    let mut iter = DeltaRleIter::<u8>::new(&bytes);
    assert_eq!(iter.try_next().unwrap(), Some(100));
    assert_eq!(iter.try_next().unwrap(), Some(200));
    assert!(matches!(iter.try_next(), Err(ColumnarError::RleDecodeError(_))));
    assert_eq!(iter.try_next().unwrap(), None);
}

#[test]
fn delta_rle_reader_stays_at_end() {
    let mut e = DeltaRleEncoder::new();
    e.append(4u32).unwrap();
    let bytes = e.finish().unwrap();
    let mut it = DeltaRleIter::<u32>::new(&bytes);
    assert_eq!(it.try_next().unwrap(), Some(4));
    assert_eq!(it.try_next().unwrap(), None);
    assert_eq!(it.try_next().unwrap(), None);
}
