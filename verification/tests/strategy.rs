use serde_columnar::{
    AnyRleDecoder, AnyRleEncoder, BoolRleDecoder, BoolRleEncoder, DeltaOfDeltaDecoder,
    DeltaOfDeltaEncoder, DeltaRleDecoder, DeltaRleEncoder,
};

#[test]
fn test_rle() {
    let mut rle_encoder = AnyRleEncoder::<u64>::new();
    rle_encoder.append(&1000).unwrap();
    rle_encoder.append(&1000).unwrap();
    rle_encoder.append(&2).unwrap();
    rle_encoder.append(&2).unwrap();
    rle_encoder.append(&2).unwrap();
    let buf = rle_encoder.finish().unwrap();
    let mut rle_decoder = AnyRleDecoder::<u64>::new(&buf);
    assert_eq!(rle_decoder.decode().unwrap(), vec![1000, 1000, 2, 2, 2]);
}

#[test]
fn test_bool_rle() {
    let mut rle_encoder = BoolRleEncoder::new();
    rle_encoder.append(true).unwrap();
    rle_encoder.append(true).unwrap();
    rle_encoder.append(false).unwrap();
    rle_encoder.append(false).unwrap();
    rle_encoder.append(false).unwrap();
    let buf = rle_encoder.finish().unwrap();
    assert_eq!(&buf, &[0, 2, 3]);
    let mut rle_decoder = BoolRleDecoder::new(&buf);
    assert_eq!(
        rle_decoder.decode().unwrap(),
        vec![true, true, false, false, false]
    );
}

#[test]
fn rle_test_delta_rle() {
    let mut encoder = DeltaRleEncoder::new();
    encoder.append(1i32).unwrap();
    encoder.append(2i32).unwrap();
    encoder.append(3i32).unwrap();
    encoder.append(4i32).unwrap();
    encoder.append(5i32).unwrap();
    encoder.append(6i32).unwrap();
    let buf = encoder.finish().unwrap();
    let mut delta_rle_decoder = DeltaRleDecoder::new(&buf);
    let values: Vec<u64> = delta_rle_decoder.decode().unwrap();
    assert_eq!(values, vec![1, 2, 3, 4, 5, 6]);
}

#[test]
fn delta_test_delta_rle() {
    let mut encoder = DeltaRleEncoder::new();
    encoder.append(1i32).unwrap();
    encoder.append(2i32).unwrap();
    encoder.append(3i32).unwrap();
    encoder.append(4i32).unwrap();
    encoder.append(5i32).unwrap();
    encoder.append(6i32).unwrap();
    let buf = encoder.finish().unwrap();
    println!("{:?}", buf);
    let mut delta_rle_decoder = DeltaRleDecoder::new(&buf);
    let values: Vec<u64> = delta_rle_decoder.decode().unwrap();
    assert_eq!(values, vec![1, 2, 3, 4, 5, 6]);
}

#[test]
fn test_delta_of_delta_rle() {
    let mut encoder = DeltaOfDeltaEncoder::new();
    encoder.append(1).unwrap();
    encoder.append(2).unwrap();
    encoder.append(3).unwrap();
    encoder.append(4).unwrap();
    encoder.append(5).unwrap();
    encoder.append(6).unwrap();
    let buf = encoder.finish().unwrap();
    let mut delta_of_delta_rle_decoder = DeltaOfDeltaDecoder::new(&buf);
    let values: Vec<i64> = delta_of_delta_rle_decoder.decode().unwrap();
    assert_eq!(values, vec![1, 2, 3, 4, 5, 6]);
}

fn encode_message(e: serde_columnar::ColumnarError) -> String {
    match e {
        serde_columnar::ColumnarError::RleEncodeError(m) => m,
        other => panic!("expected an encode error, got {:?}", other),
    }
}

fn decode_message(e: serde_columnar::ColumnarError) -> String {
    match e {
        serde_columnar::ColumnarError::RleDecodeError(m) => m,
        other => panic!("expected a decode error, got {:?}", other),
    }
}

#[test]
fn delta_of_delta_difference_overflow_message() {
    let mut e = DeltaOfDeltaEncoder::new();
    e.append(i64::MIN).unwrap();
    assert_eq!(encode_message(e.append(i64::MAX).unwrap_err()), "delta overflow 64 bits");
}

#[test]
fn delta_of_delta_change_overflow_message() {
    let mut e = DeltaOfDeltaEncoder::new();
    e.append(0).unwrap();
    e.append(i64::MAX).unwrap();
    assert_eq!(encode_message(e.append(-1).unwrap_err()), "delta of delta overflow 64 bits");
}

#[test]
fn delta_rle_rejects_beyond_i128_with_message() {
    let mut e = DeltaRleEncoder::new();
    e.append(5u64).unwrap();
    assert_eq!(encode_message(e.append(u128::MAX).unwrap_err()), "cannot into i128");
    let bytes = e.finish().unwrap();
    assert_eq!(DeltaRleDecoder::<u64>::new(&bytes).decode().unwrap(), vec![5]);
}

#[test]
fn rle_zero_count_message() {
    let mut d = AnyRleDecoder::<u64>::new(&[0]);
    assert_eq!(decode_message(d.try_next().unwrap_err()), "Invalid count");
    let mut d = AnyRleDecoder::<u64>::new(&[0]);
    assert_eq!(decode_message(d.decode().unwrap_err()), "Invalid count");
}

#[test]
fn rle_decoder_stays_at_end() {
    let mut d = AnyRleDecoder::<u64>::new(&[]);
    assert_eq!(d.try_next().unwrap(), None);
    assert_eq!(d.try_next().unwrap(), None);
    let mut e = AnyRleEncoder::<u64>::new();
    e.append(&7).unwrap();
    e.append(&7).unwrap();
    let bytes = e.finish().unwrap();
    let mut d = AnyRleDecoder::<u64>::new(&bytes);
    assert_eq!(d.try_next().unwrap(), Some(7));
    assert_eq!(d.try_next().unwrap(), Some(7));
    assert_eq!(d.try_next().unwrap(), None);
    assert_eq!(d.try_next().unwrap(), None);
    assert_eq!(d.decode().unwrap(), Vec::<u64>::new());
}

#[test]
fn bool_rle_decoder_stays_at_end() {
    // one false, two trues, then counts of zero that only flip the value
    let bytes = [1u8, 2, 0, 0];
    let mut d = BoolRleDecoder::new(&bytes);
    assert_eq!(d.try_next().unwrap(), Some(false));
    assert_eq!(d.try_next().unwrap(), Some(true));
    assert_eq!(d.try_next().unwrap(), Some(true));
    assert_eq!(d.try_next().unwrap(), None);
    assert_eq!(d.try_next().unwrap(), None);
    assert_eq!(d.decode().unwrap(), Vec::<bool>::new());
}

#[test]
fn delta_of_delta_decoder_stays_at_end() {
    let mut e = DeltaOfDeltaEncoder::new();
    e.append(3).unwrap();
    e.append(5).unwrap();
    let bytes = e.finish().unwrap();
    let mut d = DeltaOfDeltaDecoder::<i64>::new(&bytes);
    assert_eq!(d.decode().unwrap(), vec![3, 5]);
    assert_eq!(d.decode().unwrap(), Vec::<i64>::new());
}
