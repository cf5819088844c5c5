use flatexpr::utils::array_page_buffer::{page_capacity, ArrayPageBuffer, PAGE_BYTES};

fn items(buffer: &ArrayPageBuffer<i64>) -> Vec<i64> {
    let mut out = Vec::new();
    let mut k = 0;
    while let Some(item) = buffer.get(k) {
        out.push(*item);
        k += 1;
    }
    out
}

#[test]
fn new_buffer_is_empty() {
    let buffer = ArrayPageBuffer::<i64>::new();
    assert_eq!(buffer.len(), 0);
    assert_eq!(buffer.start_index(), 0);
    assert_eq!(buffer.end_index(), 0);
    assert_eq!(buffer.positive_pages(), 0);
    assert_eq!(buffer.negative_pages(), 0);
    assert!(buffer.get(0).is_none());
    assert!(buffer.at(0).is_none());
    assert!(buffer.limit() >= 1);
    assert!(buffer.limit() <= PAGE_BYTES);
}

#[test]
fn page_capacity_is_bytes_over_item_size() {
    assert_eq!(page_capacity(4096, 8), 128);
    assert_eq!(page_capacity(4096, 1), 1024);
    assert_eq!(page_capacity(512, 8), 64);
    assert_eq!(page_capacity(4096, 12), 85);
}

#[test]
fn page_capacity_is_at_least_one() {
    assert_eq!(page_capacity(4096, 2000), 1);
    assert_eq!(page_capacity(0, 8), 1);
    assert_eq!(page_capacity(4096, 1024), 1);
    assert_eq!(page_capacity(4096, 1025), 1);
}

#[test]
fn page_capacity_of_items_without_size() {
    assert_eq!(page_capacity(4096, 0), 1024);
    assert_eq!(page_capacity(100, 0), 100);
}

#[test]
fn page_limit_follows_item_size() {
    let bytes = std::cmp::min(page_size::get(), PAGE_BYTES);
    assert_eq!(ArrayPageBuffer::<i64>::new().limit(), bytes / 8);
    assert_eq!(ArrayPageBuffer::<u8>::new().limit(), bytes);
    assert_eq!(ArrayPageBuffer::<[u8; 4000]>::new().limit(), 1);
}

#[test]
fn push_appends_on_the_right() {
    let mut buffer = ArrayPageBuffer::new();
    buffer.push(1);
    buffer.push(2);
    buffer.push(3);
    assert_eq!(buffer.len(), 3);
    assert_eq!(items(&buffer), vec![1, 2, 3]);
    assert_eq!(buffer.start_index(), 0);
    assert_eq!(buffer.end_index(), 3);
}

#[test]
fn unshift_prepends_on_the_left() {
    let mut buffer = ArrayPageBuffer::new();
    buffer.unshift(1);
    buffer.unshift(2);
    buffer.unshift(3);
    assert_eq!(buffer.len(), 3);
    assert_eq!(items(&buffer), vec![3, 2, 1]);
    assert_eq!(buffer.start_index(), -3);
    assert_eq!(buffer.end_index(), 0);
}

#[test]
fn push_and_unshift_mix() {
    let mut buffer = ArrayPageBuffer::new();
    buffer.push(10);
    buffer.unshift(9);
    buffer.push(11);
    buffer.unshift(8);
    buffer.unshift(7);
    buffer.push(12);
    assert_eq!(buffer.len(), 6);
    assert_eq!(items(&buffer), vec![7, 8, 9, 10, 11, 12]);
    assert_eq!(buffer.get(0), Some(&7));
    assert_eq!(buffer.get(5), Some(&12));
    assert_eq!(buffer.get(6), None);
}

#[test]
fn len_counts_inserted_minus_popped() {
    let mut buffer = ArrayPageBuffer::new();
    let mut inserted = 0;
    let mut popped = 0;
    for round in 0..50i64 {
        buffer.push(round);
        buffer.unshift(-round);
        inserted += 2;
        if round % 3 == 0 {
            assert!(buffer.pop().is_some());
            popped += 1;
        }
        assert_eq!(buffer.len(), inserted - popped);
    }
}

#[test]
fn at_takes_signed_indices() {
    let mut buffer = ArrayPageBuffer::new();
    buffer.push(10);
    buffer.push(11);
    buffer.unshift(9);
    buffer.unshift(8);
    assert_eq!(buffer.at(-2), Some(&8));
    assert_eq!(buffer.at(-1), Some(&9));
    assert_eq!(buffer.at(0), Some(&10));
    assert_eq!(buffer.at(1), Some(&11));
    assert_eq!(buffer.at(2), None);
    assert_eq!(buffer.at(-3), None);
    assert_eq!(buffer.at(isize::MAX), None);
    assert_eq!(buffer.at(isize::MIN), None);
}

#[test]
fn get_counts_from_the_left_end() {
    let mut buffer = ArrayPageBuffer::new();
    buffer.unshift(2);
    buffer.unshift(1);
    buffer.push(3);
    assert_eq!(buffer.get(0), Some(&1));
    assert_eq!(buffer.get(1), Some(&2));
    assert_eq!(buffer.get(2), Some(&3));
    assert_eq!(buffer.get(3), None);
    assert_eq!(buffer.get(usize::MAX), None);
}

#[test]
fn pop_takes_the_rightmost() {
    let mut buffer = ArrayPageBuffer::new();
    buffer.push(1);
    buffer.push(2);
    assert_eq!(buffer.pop(), Some(2));
    assert_eq!(buffer.len(), 1);
    assert_eq!(buffer.pop(), Some(1));
    assert_eq!(buffer.len(), 0);
    assert_eq!(buffer.pop(), None);
    assert_eq!(buffer.len(), 0);
}

#[test]
fn pop_on_empty_changes_nothing() {
    let mut buffer = ArrayPageBuffer::<i64>::new();
    assert_eq!(buffer.pop(), None);
    assert_eq!(buffer.start_index(), 0);
    assert_eq!(buffer.end_index(), 0);
    buffer.push(5);
    assert_eq!(items(&buffer), vec![5]);
}

#[test]
fn pop_reaches_into_the_negative_side() {
    let mut buffer = ArrayPageBuffer::new();
    buffer.unshift(3);
    buffer.unshift(2);
    buffer.unshift(1);
    assert_eq!(buffer.pop(), Some(3));
    assert_eq!(buffer.end_index(), -1);
    assert_eq!(items(&buffer), vec![1, 2]);
    assert_eq!(buffer.pop(), Some(2));
    assert_eq!(buffer.pop(), Some(1));
    assert_eq!(buffer.pop(), None);
    assert_eq!(buffer.start_index(), -3);
    assert_eq!(buffer.end_index(), -3);
}

#[test]
fn push_refills_the_negative_side() {
    let mut buffer = ArrayPageBuffer::new();
    buffer.unshift(2);
    buffer.unshift(1);
    assert_eq!(buffer.pop(), Some(2));
    assert_eq!(buffer.pop(), Some(1));
    buffer.push(7);
    buffer.push(8);
    buffer.push(9);
    assert_eq!(items(&buffer), vec![7, 8, 9]);
    assert_eq!(buffer.start_index(), -2);
    assert_eq!(buffer.end_index(), 1);
    assert_eq!(buffer.at(-2), Some(&7));
    assert_eq!(buffer.at(0), Some(&9));
}

#[test]
fn pages_come_one_at_a_time_on_the_right() {
    let mut buffer = ArrayPageBuffer::new();
    let limit = buffer.limit();
    for k in 0..(2 * limit + 1) {
        let before = buffer.positive_pages();
        let full = buffer.len() == before * limit;
        buffer.push(k as i64);
        assert_eq!(buffer.positive_pages(), if full { before + 1 } else { before });
    }
    assert_eq!(buffer.positive_pages(), 3);
    assert_eq!(buffer.negative_pages(), 0);
    for k in 0..(2 * limit + 1) {
        assert_eq!(buffer.get(k), Some(&(k as i64)));
    }
}

#[test]
fn pages_come_one_at_a_time_on_the_left() {
    let mut buffer = ArrayPageBuffer::new();
    let limit = buffer.limit();
    for k in 0..(2 * limit + 1) {
        let before = buffer.negative_pages();
        let full = buffer.len() == before * limit;
        buffer.unshift(k as i64);
        assert_eq!(buffer.negative_pages(), if full { before + 1 } else { before });
    }
    assert_eq!(buffer.negative_pages(), 3);
    assert_eq!(buffer.positive_pages(), 0);
    let len = buffer.len();
    for k in 0..len {
        assert_eq!(buffer.get(k), Some(&((len - 1 - k) as i64)));
    }
}

#[test]
fn pop_keeps_the_pages() {
    let mut buffer = ArrayPageBuffer::new();
    let limit = buffer.limit();
    for k in 0..(limit + 1) {
        buffer.push(k as i64);
    }
    assert_eq!(buffer.positive_pages(), 2);
    for _ in 0..(limit + 1) {
        assert!(buffer.pop().is_some());
    }
    assert_eq!(buffer.positive_pages(), 2);
    buffer.push(1);
    assert_eq!(buffer.positive_pages(), 2);
}

#[test]
fn prepend_moves_the_source_to_the_front() {
    let mut a = ArrayPageBuffer::new();
    a.push(4);
    a.push(5);
    let mut b = ArrayPageBuffer::new();
    b.push(1);
    b.push(2);
    b.push(3);
    a.prepend(&mut b);
    assert_eq!(b.len(), 0);
    assert_eq!(a.len(), 5);
    assert_eq!(items(&a), vec![1, 2, 3, 4, 5]);
}

#[test]
fn prepend_of_empty_source_changes_nothing() {
    let mut a = ArrayPageBuffer::new();
    a.push(1);
    let mut b = ArrayPageBuffer::new();
    a.prepend(&mut b);
    assert_eq!(items(&a), vec![1]);
    assert_eq!(b.len(), 0);
}

#[test]
fn prepend_into_empty_target() {
    let mut a = ArrayPageBuffer::new();
    let mut b = ArrayPageBuffer::new();
    b.unshift(2);
    b.push(3);
    b.unshift(1);
    a.prepend(&mut b);
    assert_eq!(items(&a), vec![1, 2, 3]);
    assert_eq!(b.len(), 0);
    assert_eq!(a.end_index(), 0);
    assert_eq!(a.start_index(), -3);
}

#[test]
fn drained_source_can_be_filled_again() {
    let mut a = ArrayPageBuffer::new();
    let mut b = ArrayPageBuffer::new();
    b.push(1);
    b.push(2);
    a.prepend(&mut b);
    b.push(3);
    b.push(4);
    assert_eq!(items(&b), vec![3, 4]);
    a.prepend(&mut b);
    assert_eq!(items(&a), vec![3, 4, 1, 2]);
}

#[test]
fn prepend_across_pages() {
    let mut a = ArrayPageBuffer::new();
    let mut b = ArrayPageBuffer::new();
    let limit = a.limit();
    let count = 2 * limit + 3;
    for k in 0..count {
        b.push(k as i64);
    }
    a.push(-1);
    a.prepend(&mut b);
    assert_eq!(a.len(), count + 1);
    for k in 0..count {
        assert_eq!(a.get(k), Some(&(k as i64)));
    }
    assert_eq!(a.get(count), Some(&-1));
}

#[test]
fn buffer_moves_items_that_cannot_be_copied() {
    let mut buffer = ArrayPageBuffer::new();
    buffer.push(String::from("b"));
    buffer.unshift(String::from("a"));
    buffer.push(String::from("c"));
    assert_eq!(buffer.get(0).map(|s| s.as_str()), Some("a"));
    assert_eq!(buffer.pop(), Some(String::from("c")));
    assert_eq!(buffer.pop(), Some(String::from("b")));
    assert_eq!(buffer.pop(), Some(String::from("a")));
    assert_eq!(buffer.pop(), None);
}

#[test]
fn cursor_reads_forward() {
    let mut buffer = ArrayPageBuffer::new();
    buffer.push(2);
    buffer.unshift(1);
    buffer.push(3);
    let mut cursor = buffer.iter();
    assert_eq!(cursor.next(), Some(&1));
    assert_eq!(cursor.next(), Some(&2));
    assert_eq!(cursor.next(), Some(&3));
    assert_eq!(cursor.next(), None);
    assert_eq!(cursor.next(), None);
}

#[test]
fn cursor_reads_backward() {
    let mut buffer = ArrayPageBuffer::new();
    buffer.push(2);
    buffer.unshift(1);
    buffer.push(3);
    let mut cursor = buffer.iter();
    assert_eq!(cursor.next_back(), Some(&3));
    assert_eq!(cursor.next_back(), Some(&2));
    assert_eq!(cursor.next_back(), Some(&1));
    assert_eq!(cursor.next_back(), None);
}

#[test]
fn cursor_ends_meet() {
    let mut buffer = ArrayPageBuffer::new();
    for k in 0..5 {
        buffer.push(k);
    }
    let mut cursor = buffer.iter();
    assert_eq!(cursor.next(), Some(&0));
    assert_eq!(cursor.next_back(), Some(&4));
    assert_eq!(cursor.next(), Some(&1));
    assert_eq!(cursor.next_back(), Some(&3));
    assert_eq!(cursor.next(), Some(&2));
    assert_eq!(cursor.next(), None);
    assert_eq!(cursor.next_back(), None);
}

#[test]
fn cursor_over_empty_buffer() {
    let buffer = ArrayPageBuffer::<i64>::new();
    let mut cursor = buffer.iter();
    assert_eq!(cursor.next(), None);
    assert_eq!(cursor.next_back(), None);
}

#[test]
fn prepend_adds_the_pages_it_needs() {
    let mut a = ArrayPageBuffer::new();
    let mut b = ArrayPageBuffer::new();
    let limit = a.limit();
    for k in 0..(limit + 1) {
        b.push(k as i64);
    }
    let pages_of_source = b.positive_pages();
    a.push(0);
    a.prepend(&mut b);
    assert_eq!(a.negative_pages(), 2);
    assert_eq!(a.positive_pages(), 1);
    assert_eq!(b.positive_pages(), pages_of_source);
    assert_eq!(b.negative_pages(), 0);
    b.push(1);
    a.prepend(&mut b);
    assert_eq!(a.negative_pages(), 2);
    assert_eq!(a.start_index(), -(limit as isize) - 2);
}
