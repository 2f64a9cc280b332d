use serde_columnar::{
    BoolRleColumn, ColumnAttr, ColumnTrait, ColumnarError, DeltaOfDeltaColumn, DeltaRleColumn,
    GenericColumn, RleColumn,
};

#[test]
fn bool_column_roundtrip() {
    let data = vec![true, true, false, true, false, false, false];
    let column = BoolRleColumn::from(data.clone());
    let bytes = column.encode().unwrap();
    // runs of false, true, false, true, false: 0, 2, 1, 1, 3
    assert_eq!(bytes, vec![0, 2, 1, 1, 3]);
    let back = BoolRleColumn::decode(&bytes).unwrap();
    assert_eq!(back.data, data);
    assert_eq!(back.attr, ColumnAttr::empty());
    assert_eq!(back.len(), 7);
    assert!(!back.is_empty());
}

#[test]
fn bool_column_empty() {
    let column = BoolRleColumn::new(vec![], ColumnAttr { index: Some(3) });
    assert!(column.is_empty());
    assert_eq!(column.attr(), ColumnAttr { index: Some(3) });
    let bytes = column.encode().unwrap();
    assert!(bytes.is_empty());
    assert_eq!(BoolRleColumn::decode(&bytes).unwrap().data, Vec::<bool>::new());
}

#[test]
fn bool_column_count_too_large() {
    // a run of 2_000_000_000 values is above the limit
    let bytes = vec![0x80, 0xa8, 0xd6, 0xb9, 0x07];
    assert!(matches!(
        BoolRleColumn::decode(&bytes),
        Err(ColumnarError::RleDecodeError(_))
    ));
}

#[test]
fn rle_column_roundtrip() {
    let data: Vec<u64> = vec![5, 5, 5, 7, 8, 9, 9, 1000];
    let column = RleColumn::from(data.clone());
    let bytes = column.encode().unwrap();
    // a run of three 5s, a literal run of 7 and 8, a run of two 9s, a lone 1000
    assert_eq!(bytes, vec![6, 5, 3, 7, 8, 4, 9, 1, 0xe8, 0x07]);
    assert_eq!(RleColumn::<u64>::decode(&bytes).unwrap().data, data);
}

#[test]
fn rle_column_strings_of_bools() {
    let data = vec![true, false, false];
    let column = RleColumn::new(data.clone(), ColumnAttr::empty());
    let bytes = column.encode().unwrap();
    assert_eq!(RleColumn::<bool>::decode(&bytes).unwrap().data, data);
}

#[test]
fn rle_column_invalid_count() {
    // a run length of 0
    assert!(matches!(
        RleColumn::<u64>::decode(&[0]),
        Err(ColumnarError::RleDecodeError(_))
    ));
}

#[test]
fn rle_column_missing_value() {
    // a run of one value, and no value after it
    assert!(matches!(
        RleColumn::<u64>::decode(&[2]),
        Err(ColumnarError::SerializeError(_))
    ));
}

#[test]
fn delta_rle_column_roundtrip() {
    let data: Vec<i32> = vec![10, 11, 12, 13, 9, -4, -4];
    let column = DeltaRleColumn::from(data.clone());
    let bytes = column.encode().unwrap();
    assert_eq!(DeltaRleColumn::<i32>::decode(&bytes).unwrap().data, data);
}

#[test]
fn delta_rle_column_out_of_range() {
    let column = DeltaRleColumn::from(vec![300i32]);
    let bytes = column.encode().unwrap();
    assert!(matches!(
        DeltaRleColumn::<u8>::decode(&bytes),
        Err(ColumnarError::RleDecodeError(_))
    ));
}

#[test]
fn delta_rle_column_saturates() {
    // the difference of the two numbers is below i128::MIN and is saturated
    let column = DeltaRleColumn::from(vec![i128::MAX, i128::MIN]);
    let bytes = column.encode().unwrap();
    assert_eq!(
        DeltaRleColumn::<i128>::decode(&bytes).unwrap().data,
        vec![i128::MAX, -1]
    );
}

#[test]
fn delta_of_delta_column_roundtrip() {
    let data: Vec<i64> = vec![
        1_000,
        1_010,
        1_020,
        1_031,
        900,
        5_000_000,
        -7,
        i64::MAX / 4,
        0,
        0,
        0,
    ];
    let column = DeltaOfDeltaColumn::from(data.clone());
    let bytes = column.encode().unwrap();
    assert_eq!(DeltaOfDeltaColumn::<i64>::decode(&bytes).unwrap().data, data);
}

#[test]
fn delta_of_delta_column_u32() {
    let data: Vec<u32> = vec![7, 7, 8, 100, 4_000_000_000];
    let column = DeltaOfDeltaColumn::from(data.clone());
    let bytes = column.encode().unwrap();
    assert_eq!(DeltaOfDeltaColumn::<u32>::decode(&bytes).unwrap().data, data);
}

#[test]
fn delta_of_delta_column_encode_overflow() {
    let column = DeltaOfDeltaColumn::from(vec![i64::MIN, i64::MAX]);
    assert!(matches!(
        column.encode(),
        Err(ColumnarError::RleEncodeError(_))
    ));
}

#[test]
fn delta_of_delta_column_not_i64() {
    let column = DeltaOfDeltaColumn::from(vec![1u64, u64::MAX]);
    assert!(matches!(
        column.encode(),
        Err(ColumnarError::RleDecodeError(_))
    ));
}

#[test]
fn delta_of_delta_column_narrowing() {
    let column = DeltaOfDeltaColumn::from(vec![1i64, 70_000]);
    let bytes = column.encode().unwrap();
    assert!(matches!(
        DeltaOfDeltaColumn::<i32>::decode(&bytes),
        Ok(_)
    ));
    assert!(matches!(
        DeltaOfDeltaColumn::<u32>::decode(&DeltaOfDeltaColumn::from(vec![-1i64]).encode().unwrap()),
        Err(ColumnarError::RleDecodeError(_))
    ));
}

#[test]
fn delta_of_delta_column_empty_and_single() {
    let empty = DeltaOfDeltaColumn::from(Vec::<i64>::new()).encode().unwrap();
    assert_eq!(empty, vec![0]);
    assert_eq!(DeltaOfDeltaColumn::<i64>::decode(&empty).unwrap().data, Vec::<i64>::new());
    let single = DeltaOfDeltaColumn::from(vec![-3i64]).encode().unwrap();
    // the zigzagged head, then no bits
    assert_eq!(single, vec![5, 0]);
    assert_eq!(DeltaOfDeltaColumn::<i64>::decode(&single).unwrap().data, vec![-3]);
}

#[test]
fn generic_column_roundtrip() {
    let data: Vec<u64> = vec![300, 1, 0];
    let column = GenericColumn::from(data.clone());
    let bytes = column.encode().unwrap();
    assert_eq!(bytes, vec![3, 0xac, 0x02, 1, 0]);
    let back = GenericColumn::<u64>::decode(&bytes).unwrap();
    assert_eq!(back.data, data);
    assert_eq!(back.attr(), ColumnAttr::empty());
}

#[test]
fn generic_column_attr_is_empty() {
    let column = GenericColumn::new(vec![1u8], ColumnAttr { index: Some(1) });
    assert_eq!(column.attr(), ColumnAttr::empty());
    assert_eq!(column.attr, ColumnAttr { index: Some(1) });
}

#[test]
fn generic_column_short() {
    // three values announced, one given
    assert!(matches!(
        GenericColumn::<u8>::decode(&[3, 1]),
        Err(ColumnarError::SerializeError(_))
    ));
}

#[test]
fn column_new_keeps_its_parts() {
    let c = serde_columnar::Column::new(vec![1u8, 2, 3], serde_columnar::ColumnAttr { index: Some(4) });
    assert_eq!(c.data, vec![1, 2, 3]);
    assert_eq!(c.attr, serde_columnar::ColumnAttr { index: Some(4) });
}

#[test]
fn delta_of_delta_checked_decode() {
    let c = DeltaOfDeltaColumn::new(vec![1i64, 5, 9, 100], ColumnAttr { index: None });
    let bytes = c.encode().unwrap();
    let back = DeltaOfDeltaColumn::<i64>::decode_checked(&bytes).unwrap().unwrap();
    assert_eq!(back.data, vec![1, 5, 9, 100]);
    // a header whose first number never ends
    assert!(DeltaOfDeltaColumn::<i64>::decode_checked(&[0x80, 0x80]).is_none());
    // a first number with nothing after it
    assert!(DeltaOfDeltaColumn::<i64>::decode_checked(&[0x82, 0x01]).is_none());
    // a code that runs past the valid bits
    assert!(DeltaOfDeltaColumn::<i64>::decode_checked(&[2, 16, 0xff]).is_none());
    // fewer than two bytes hold no numbers
    assert_eq!(DeltaOfDeltaColumn::<i64>::decode_checked(&[7]).unwrap().unwrap().data, Vec::<i64>::new());
}
