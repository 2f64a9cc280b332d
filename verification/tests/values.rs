use serde_columnar::{ColumnTrait, ColumnarError, DeltaOfDeltaColumn, DeltaRleColumn, GenericColumn};

fn bytes_of<T: serde_columnar::Rleable>(v: Vec<T>) -> Vec<u8> {
    GenericColumn::from(v).encode().unwrap()
}

#[test]
fn value_bytes() {
    assert_eq!(bytes_of(vec![300u16]), vec![1, 0xac, 0x02]);
    assert_eq!(bytes_of(vec![-2i16]), vec![1, 3]);
    assert_eq!(bytes_of(vec![-1i8]), vec![1, 0xff]);
    assert_eq!(bytes_of(vec![-1i32]), vec![1, 1]);
    assert_eq!(bytes_of(vec![1i64]), vec![1, 2]);
    assert_eq!(bytes_of(vec![-64isize]), vec![1, 0x7f]);
    assert_eq!(bytes_of(vec![128usize]), vec![1, 0x80, 0x01]);
    assert_eq!(bytes_of(vec![true, false]), vec![2, 1, 0]);
    assert_eq!(bytes_of(vec![255u8]), vec![1, 255]);
    assert_eq!(bytes_of(vec![1u32 << 20]), vec![1, 0x80, 0x80, 0x40]);
    let mut max = vec![1u8];
    max.extend(std::iter::repeat(0xff).take(18));
    max.push(0x03);
    assert_eq!(bytes_of(vec![u128::MAX]), max);
    assert_eq!(bytes_of(vec![i128::MIN]), max);
}

#[test]
fn value_roundtrips() {
    let v16: Vec<u16> = vec![0, 1, 65535];
    assert_eq!(GenericColumn::<u16>::decode(&bytes_of(v16.clone())).unwrap().data, v16);
    let vi16: Vec<i16> = vec![i16::MIN, -1, i16::MAX];
    assert_eq!(GenericColumn::<i16>::decode(&bytes_of(vi16.clone())).unwrap().data, vi16);
    let vi8: Vec<i8> = vec![i8::MIN, 0, i8::MAX];
    assert_eq!(GenericColumn::<i8>::decode(&bytes_of(vi8.clone())).unwrap().data, vi8);
    let v128: Vec<u128> = vec![0, u128::MAX];
    assert_eq!(GenericColumn::<u128>::decode(&bytes_of(v128.clone())).unwrap().data, v128);
    let vi128: Vec<i128> = vec![i128::MIN, i128::MAX];
    assert_eq!(GenericColumn::<i128>::decode(&bytes_of(vi128.clone())).unwrap().data, vi128);
}

#[test]
fn value_decode_errors() {
    // a boolean byte that is neither 0 nor 1
    assert!(matches!(
        GenericColumn::<bool>::decode(&[1, 2]),
        Err(ColumnarError::SerializeError(_))
    ));
    // a u16 whose last byte leaves 16 bits
    assert!(matches!(
        GenericColumn::<u16>::decode(&[1, 0x80, 0x80, 0x04]),
        Err(ColumnarError::SerializeError(_))
    ));
    assert_eq!(
        GenericColumn::<u16>::decode(&[1, 0xff, 0xff, 0x03]).unwrap().data,
        vec![65535]
    );
}

#[test]
fn delta_rle_u128_out_of_i128() {
    let column = DeltaRleColumn::from(vec![1u128, u128::MAX]);
    assert!(matches!(column.encode(), Err(ColumnarError::RleEncodeError(_))));
}

#[test]
fn small_integers_in_columns() {
    let data: Vec<i16> = vec![-5, -5, 7, 300];
    let bytes = DeltaRleColumn::from(data.clone()).encode().unwrap();
    assert_eq!(DeltaRleColumn::<i16>::decode(&bytes).unwrap().data, data);
    let data: Vec<u8> = vec![1, 2, 4, 8, 16];
    let bytes = DeltaOfDeltaColumn::from(data.clone()).encode().unwrap();
    assert_eq!(DeltaOfDeltaColumn::<u8>::decode(&bytes).unwrap().data, data);
}
