use flatexpr::utils::buffer::{Buffer, BufferReader, BufferWriter};
use flatexpr::utils::u16vec::U16Vec;

fn contents(vector: &U16Vec<i32>) -> Vec<i32> {
    let mut out = Vec::new();
    let mut k = 0;
    while let Some(item) = vector.at(k) {
        out.push(*item);
        k += 1;
    }
    out
}

fn vector_of(values: &[i32]) -> U16Vec<i32> {
    let mut vector = U16Vec::new();
    for value in values {
        vector.append(*value);
    }
    vector
}

#[test]
fn buffer_starts_with_empty_slots() {
    let buffer = Buffer::<i32>::new(3);
    assert_eq!(buffer.size(), 3);
    assert_eq!(buffer.at(0), None);
    assert_eq!(buffer.at(2), None);
    assert_eq!(Buffer::<i32>::new(0).size(), 0);
}

#[test]
fn buffer_insert_fills_one_slot() {
    let mut buffer = Buffer::new(3);
    buffer.insert(1, 7);
    assert_eq!(buffer.at(0), None);
    assert_eq!(buffer.at(1), Some(&7));
    assert_eq!(buffer.at(2), None);
    buffer.insert(1, 8);
    assert_eq!(buffer.at(1), Some(&8));
    assert_eq!(buffer.size(), 3);
}

#[test]
fn buffer_resize_keeps_what_fits() {
    let mut buffer = Buffer::new(3);
    buffer.insert(0, 1);
    buffer.insert(1, 2);
    buffer.insert(2, 3);
    buffer.resize(5);
    assert_eq!(buffer.size(), 5);
    assert_eq!(buffer.at(2), Some(&3));
    assert_eq!(buffer.at(3), None);
    assert_eq!(buffer.at(4), None);
    buffer.resize(2);
    assert_eq!(buffer.size(), 2);
    assert_eq!(buffer.at(0), Some(&1));
    assert_eq!(buffer.at(1), Some(&2));
    buffer.resize(3);
    assert_eq!(buffer.at(2), None);
    buffer.resize(0);
    assert_eq!(buffer.size(), 0);
}

#[test]
fn buffer_from_vec_copies_the_items() {
    let buffer = Buffer::from_vec(&vec![4, 5, 6]);
    assert_eq!(buffer.size(), 3);
    assert_eq!(buffer.at(0), Some(&4));
    assert_eq!(buffer.at(1), Some(&5));
    assert_eq!(buffer.at(2), Some(&6));
    assert_eq!(Buffer::<i32>::from_vec(&vec![]).size(), 0);
}

#[test]
fn new_vector_is_empty() {
    let vector = U16Vec::<i32>::new();
    assert_eq!(vector.u16_len(), 0);
    assert_eq!(vector.len(), 0);
    assert_eq!(vector.cap(), 0);
    assert_eq!(vector.buf().size(), 0);
    assert_eq!(vector.at(0), None);
}

#[test]
fn append_grows_by_one_slot() {
    let mut vector = U16Vec::new();
    vector.append(1);
    assert_eq!((vector.len(), vector.cap()), (1, 1));
    vector.append(2);
    assert_eq!((vector.len(), vector.cap()), (2, 2));
    vector.append(3);
    assert_eq!((vector.len(), vector.cap()), (3, 3));
    assert_eq!(vector.u16_len(), 3);
    assert_eq!(contents(&vector), vec![1, 2, 3]);
    assert_eq!(vector.at(3), None);
}

#[test]
fn append_uses_spare_capacity() {
    let mut vector = U16Vec::new();
    vector.resize(4);
    assert_eq!((vector.len(), vector.cap()), (0, 4));
    vector.append(1);
    vector.append(2);
    assert_eq!((vector.len(), vector.cap()), (2, 4));
    assert_eq!(contents(&vector), vec![1, 2]);
    assert_eq!(vector.buf().size(), 4);
}

#[test]
fn resize_to_the_same_capacity_changes_nothing() {
    let mut vector = vector_of(&[1, 2, 3]);
    vector.resize(3);
    assert_eq!((vector.len(), vector.cap()), (3, 3));
    assert_eq!(contents(&vector), vec![1, 2, 3]);
}

#[test]
fn resize_up_keeps_the_items() {
    let mut vector = vector_of(&[1, 2, 3]);
    vector.resize(10);
    assert_eq!((vector.len(), vector.cap()), (3, 10));
    assert_eq!(contents(&vector), vec![1, 2, 3]);
}

#[test]
fn resize_down_cuts_the_items() {
    let mut vector = vector_of(&[1, 2, 3, 4, 5]);
    vector.resize(2);
    assert_eq!((vector.len(), vector.cap()), (2, 2));
    assert_eq!(contents(&vector), vec![1, 2]);
    vector.append(9);
    assert_eq!(contents(&vector), vec![1, 2, 9]);
}

#[test]
fn resize_down_within_spare_capacity() {
    let mut vector = vector_of(&[1, 2]);
    vector.resize(8);
    vector.resize(3);
    assert_eq!((vector.len(), vector.cap()), (2, 3));
    assert_eq!(contents(&vector), vec![1, 2]);
}

#[test]
fn concat_adds_the_items_of_the_source() {
    let mut vector = vector_of(&[1, 2]);
    let source = vector_of(&[3, 4, 5]);
    vector.concat(&source);
    assert_eq!((vector.len(), vector.cap()), (5, 5));
    assert_eq!(contents(&vector), vec![1, 2, 3, 4, 5]);
    assert_eq!(contents(&source), vec![3, 4, 5]);
}

#[test]
fn concat_uses_spare_capacity() {
    let mut vector = vector_of(&[1]);
    vector.resize(6);
    let source = vector_of(&[2, 3]);
    vector.concat(&source);
    assert_eq!((vector.len(), vector.cap()), (3, 6));
    assert_eq!(contents(&vector), vec![1, 2, 3]);
}

#[test]
fn concat_of_empty_vectors() {
    let mut vector = U16Vec::<i32>::new();
    let source = U16Vec::<i32>::new();
    vector.concat(&source);
    assert_eq!((vector.len(), vector.cap()), (0, 0));
    let mut vector = vector_of(&[1]);
    vector.concat(&source);
    assert_eq!(contents(&vector), vec![1]);
}

#[test]
fn extract_takes_the_buffer_out() {
    let mut vector = vector_of(&[1, 2, 3]);
    let buffer = vector.extract();
    assert_eq!(buffer.size(), 3);
    assert_eq!(buffer.at(0), Some(&1));
    assert_eq!(buffer.at(2), Some(&3));
    assert_eq!((vector.len(), vector.cap()), (0, 0));
    assert_eq!(vector.at(0), None);
    vector.append(7);
    assert_eq!(contents(&vector), vec![7]);
}

#[test]
fn vector_takes_as_many_items_as_16_bits_count() {
    let mut vector = U16Vec::new();
    vector.resize(u16::MAX as usize);
    for k in 0..(u16::MAX as i32) {
        vector.append(k);
    }
    assert_eq!(vector.u16_len(), u16::MAX);
    assert_eq!(vector.cap(), u16::MAX as usize);
    assert_eq!(vector.at(65534), Some(&65534));
    assert_eq!(vector.at(65535), None);
}

#[test]
fn small_vector_starts_without_slots() {
    let vector = flatexpr::utils::SmallVec::<i32>::new();
    assert_eq!(vector.len(), 0);
    assert_eq!(vector.at(0), None);
}

#[test]
fn small_vector_grows_by_empty_slots() {
    let mut vector = flatexpr::utils::SmallVec::<i32>::new();
    vector.grow(3);
    assert_eq!(vector.len(), 3);
    assert_eq!(vector.at(0), None);
    assert_eq!(vector.at(2), None);
    vector.grow(0);
    assert_eq!(vector.len(), 3);
    vector.grow(2);
    assert_eq!(vector.len(), 5);
}

#[test]
fn small_vector_fills_slots_in_any_order() {
    let mut vector = flatexpr::utils::SmallVec::new();
    vector.grow(3);
    vector.insert(2, 30);
    vector.insert(0, 10);
    assert_eq!(vector.at(0), Some(&10));
    assert_eq!(vector.at(1), None);
    assert_eq!(vector.at(2), Some(&30));
    assert_eq!(vector.at(3), None);
    vector.insert(0, 11);
    assert_eq!(vector.at(0), Some(&11));
    vector.grow(1);
    assert_eq!(vector.at(2), Some(&30));
    assert_eq!(vector.at(3), None);
    assert_eq!(vector.len(), 4);
}
