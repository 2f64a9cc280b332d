use serde_columnar::{AllocVec, ColumnarMap, ColumnarVec, Cursor};
use std::borrow::Cow;
use std::collections::HashMap;
use std::marker::PhantomData;

#[test]
fn cursor_reads() {
    let bytes = [1u8, 2, 3, 4, 5];
    let mut cursor = Cursor::new(&bytes);
    assert_eq!(cursor.pop().unwrap(), 1);
    assert_eq!(cursor.try_take_n(2).unwrap(), &[2, 3]);
    assert!(cursor.try_take_n(3).is_err());
    assert!(cursor.try_take_n(usize::MAX).is_err());
    assert_eq!(cursor.finalize().unwrap(), &[4, 5]);
}

#[test]
fn cursor_end() {
    let bytes = [9u8];
    let mut cursor = Cursor::new(&bytes);
    assert_eq!(cursor.pop().unwrap(), 9);
    assert!(matches!(
        cursor.pop(),
        Err(postcard::Error::DeserializeUnexpectedEnd)
    ));
    assert_eq!(cursor.try_take_n(0).unwrap(), &[] as &[u8]);
    assert_eq!(cursor.finalize().unwrap(), &[] as &[u8]);
}

#[test]
fn alloc_vec_collects() {
    let mut out = AllocVec::new();
    out.try_push(7).unwrap();
    out.try_extend(&[8, 9]).unwrap();
    out.try_extend(&[]).unwrap();
    assert_eq!(out.finalize().unwrap(), vec![7, 8, 9]);
}

#[test]
fn columnar_vec_borrows_and_owns() {
    let rows = vec![1u32, 2, 3];
    let borrowed: ColumnarVec<u32, Vec<u32>> = ColumnarVec::new(&rows);
    assert!(matches!(borrowed.0, Cow::Borrowed(_)));
    assert_eq!(borrowed.into_vec(), rows);
    let owned: ColumnarVec<u32, Vec<u32>> = ColumnarVec::from(vec![4]);
    assert!(matches!(owned.0, Cow::Owned(_)));
    assert_eq!(owned.into_vec(), vec![4]);
    let borrowed_again: ColumnarVec<u32, Vec<u32>> = ColumnarVec::from(&rows);
    assert!(matches!(borrowed_again.0, Cow::Borrowed(_)));
}

#[test]
fn columnar_map_borrows_and_owns() {
    let mut rows = HashMap::new();
    rows.insert(1u64, "a".to_string());
    let borrowed: ColumnarMap<u64, String, HashMap<u64, String>> = ColumnarMap::new(&rows);
    assert_eq!(borrowed.into_map(), rows);
    let owned: ColumnarMap<u64, String, HashMap<u64, String>> =
        ColumnarMap(Cow::Owned(rows.clone()), PhantomData);
    assert_eq!(owned.into_map(), rows);
}
