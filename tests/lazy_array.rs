use structures::LazyArray;

#[test]
fn copy_then_read_round_trips() {
    let mut array: LazyArray<u64> = LazyArray::new(10);
    let elems: Vec<u64> = (0..10).collect();
    let written = array.copy_from_slice(0, &elems);
    assert_eq!(written.iter().map(|r| **r).collect::<Vec<u64>>(), elems);
    let read: Vec<u64> = array.assume_init(0, elems.len()).into_iter().copied().collect();
    assert_eq!(read, elems);
}

#[test]
fn copy_into_middle_leaves_other_slots_vacant() {
    let mut array: LazyArray<u32> = LazyArray::new(6);
    array.copy_from_slice(2, &[7, 8, 9]);
    let read: Vec<u32> = array.assume_init(2, 3).into_iter().copied().collect();
    assert_eq!(read, vec![7, 8, 9]);
    assert_eq!(array.len(), 6);
    assert!(!array.is_empty());
}

#[test]
fn write_then_read_round_trips() {
    let mut array: LazyArray<Vec<u8>> = LazyArray::new(10);
    let elems: Vec<Vec<u8>> = (0..10).map(|_| vec![1, 2, 3]).collect();
    let written = array.write_from_slice(0, &elems);
    assert_eq!(written.len(), elems.len());
    for (w, e) in written.iter().zip(elems.iter()) {
        assert_eq!(*w, e);
    }
    let read: Vec<Vec<u8>> = array.assume_init(0, elems.len()).into_iter().cloned().collect();
    assert_eq!(read, elems);
    array.assume_init_drop(0, elems.len());
}

#[test]
fn overwrite_replaces_previous_values() {
    let mut array: LazyArray<Vec<u8>> = LazyArray::new(10);
    let first: Vec<Vec<u8>> = (0..10).map(|_| vec![1, 2, 3]).collect();
    array.write_from_slice(0, &first);
    let second: Vec<Vec<u8>> = (0..10).map(|_| vec![4, 5, 6]).collect();
    let written = array.overwrite_from_slice(0, &second);
    assert_eq!(written.len(), second.len());
    let read: Vec<Vec<u8>> = array.assume_init(0, second.len()).into_iter().cloned().collect();
    assert_eq!(read, second);
    array.assume_init_drop(0, second.len());
}

#[test]
fn overwrite_part_of_a_range() {
    let mut array: LazyArray<u16> = LazyArray::new(5);
    array.copy_from_slice(0, &[1, 2, 3, 4, 5]);
    array.overwrite_from_slice(1, &[20, 30]);
    let read: Vec<u16> = array.assume_init(0, 5).into_iter().copied().collect();
    assert_eq!(read, vec![1, 20, 30, 4, 5]);
}

#[test]
fn mutate_through_mutable_references() {
    let mut array: LazyArray<Vec<i32>> = LazyArray::new(10);
    let elems: Vec<Vec<i32>> = (0..10).map(|_| vec![1, 2, 3]).collect();
    array.write_from_slice(0, &elems);
    for elem in array.assume_init_mut(0, elems.len()) {
        elem.clear();
    }
    let expected: Vec<Vec<i32>> = (0..10).map(|_| vec![]).collect();
    let read: Vec<Vec<i32>> = array.assume_init(0, expected.len()).into_iter().cloned().collect();
    assert_eq!(read, expected);
    array.assume_init_drop(0, expected.len());
}

#[test]
fn mutate_returned_references_of_a_copy() {
    let mut array: LazyArray<u8> = LazyArray::new(4);
    for r in array.copy_from_slice(1, &[1, 2, 3]) {
        *r += 10;
    }
    let read: Vec<u8> = array.assume_init(1, 3).into_iter().copied().collect();
    assert_eq!(read, vec![11, 12, 13]);
}

#[test]
fn drop_then_write_again() {
    let mut array: LazyArray<String> = LazyArray::new(3);
    let elems = vec![String::from("a"), String::from("b"), String::from("c")];
    array.write_from_slice(0, &elems);
    array.assume_init_drop(0, 3);
    let again = vec![String::from("x"), String::from("y")];
    array.write_from_slice(1, &again);
    let read: Vec<String> = array.assume_init(1, 2).into_iter().cloned().collect();
    assert_eq!(read, again);
}

#[test]
fn empty_ranges_and_empty_array() {
    let mut array: LazyArray<u64> = LazyArray::new(0);
    assert!(array.is_empty());
    assert_eq!(array.len(), 0);
    assert!(array.copy_from_slice(0, &[]).is_empty());
    assert!(array.assume_init(0, 0).is_empty());
    array.assume_init_drop(0, 0);
}

#[test]
fn write_up_to_the_last_slot() {
    let mut array: LazyArray<u64> = LazyArray::new(3);
    array.copy_from_slice(2, &[42]);
    let read: Vec<u64> = array.assume_init(2, 1).into_iter().copied().collect();
    assert_eq!(read, vec![42]);
}

#[test]
fn shorter_overwrite_keeps_rest_of_range() {
    let mut array: LazyArray<i32> = LazyArray::new(6);
    array.write_from_slice(1, &[1, 2, 3, 4]);
    array.overwrite_from_slice(1, &[7, 8]);
    let front: Vec<i32> = array.assume_init(1, 2).into_iter().copied().collect();
    assert_eq!(front, vec![7, 8]);
    let rest: Vec<i32> = array.assume_init(3, 2).into_iter().copied().collect();
    assert_eq!(rest, vec![3, 4]);
}
