use crust::buffer::{
    bitwise_partialeq, const_slice_bitwise_contains, mkarray, mkslice, slice_index,
    slice_index_mut,
};

#[test]
fn slice_index_returns_the_element() {
    let data = [10u16, 20, 30];
    assert_eq!(*slice_index(&data, 0), 10);
    assert_eq!(*slice_index(&data, 2), 30);
    assert!(std::ptr::eq(slice_index(&data, 1), &data[1]));
}

#[test]
fn slice_index_mut_writes_one_element() {
    let mut data = [10u16, 20, 30];
    *slice_index_mut(&mut data, 1) = 25;
    assert_eq!(data, [10, 25, 30]);
}

#[test]
fn bitwise_partialeq_compares_values() {
    assert!(bitwise_partialeq(&7u64, &7u64));
    assert!(!bitwise_partialeq(&7u64, &8u64));
    assert!(bitwise_partialeq(&(1u8, 2u8), &(1u8, 2u8)));
    assert!(!bitwise_partialeq(&(1u8, 2u8), &(2u8, 1u8)));
}

#[test]
fn bitwise_contains_finds_the_value() {
    assert!(const_slice_bitwise_contains(&[5u32, 6, 7], &7));
    assert!(const_slice_bitwise_contains(&[5u32, 6, 7], &5));
    assert!(!const_slice_bitwise_contains(&[5u32, 6, 7], &8));
    let empty: [u32; 0] = [];
    assert!(!const_slice_bitwise_contains(&empty, &5));
}

#[test]
fn mkarray_gives_the_same_elements() {
    let data = vec![1u8, 2, 3];
    let array: &[u8; 3] = mkarray(&data);
    assert_eq!(array, &[1, 2, 3]);
    assert!(std::ptr::eq(array.as_ptr(), data.as_ptr()));
    let none: &[u8; 0] = mkarray(&data[..0]);
    assert_eq!(none.len(), 0);
}

#[test]
fn mkslice_gives_the_same_elements() {
    let array = [4u8, 5, 6, 7];
    let slice = mkslice(&array);
    assert_eq!(slice, &[4, 5, 6, 7][..]);
    assert!(std::ptr::eq(slice.as_ptr(), array.as_ptr()));
}

#[test]
fn mkarray_undoes_mkslice() {
    let array = [9i32, 8, 7];
    let back: &[i32; 3] = mkarray(mkslice(&array));
    assert_eq!(*back, array);
}
