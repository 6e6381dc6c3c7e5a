use mini_udp::ring_buffer::{self, wrapping_range, RingBuffer};

#[test]
fn test_ring_buffer() {
    let mut i = 0;
    let mut ring = RingBuffer::<usize, 32>::new();
    while i < 35 {
        let index = ring.push(i);
        assert_eq!(i, index as usize);
        assert_eq!(Some(&i), ring.get(index));
        if i > 30 {
            println!("i: {i}, i - 31: {}", i - 31);
            assert_eq!(Some(&(i - 31)), ring.get(i as u16 - 31));
        }
        i += 1;
    }
}

#[test]
fn unlimited_push() {
    let mut i = 0;
    let mut wrap = true;
    let mut ring = RingBuffer::<u16, 32>::new();
    loop {
        let index = ring.push(i);
        // indices increment sequentially
        assert_eq!(i, index);
        // Values can be accessed by their index
        assert_eq!(Some(&i), ring.get(index));
        {
            let oldest = i.wrapping_sub(31);
            let expected = (i > 30 || !wrap).then_some(&oldest);
            // We can access other values in the buffer if they exist
            assert_eq!(expected, ring.get(oldest));
        }
        // Iterate from i = 0 to i = u16::MAX exactly twice
        if i == u16::MAX {
            if wrap {
                i = 0;
                wrap = false;
            } else {
                break;
            }
        } else {
            i += 1;
        }
    }
}

#[test]
fn insert() {
    let mut ring = RingBuffer::<(), 32>::new();
    ring.insert(1, ());
    assert!(ring.get(0).is_none());
    assert!(ring.get(1).is_some());
    assert!(ring.get(2).is_none());
    assert_eq!(ring.push(()), 2);
    assert_eq!(ring.push(()), 3);
    ring.insert(34, ());
    for i in 0..64 {
        if i == 34 || i == 3 {
            assert!(ring.get(i).is_some());
        } else {
            assert!(ring.get(i).is_none());
        }
    }
    for i in u16::MAX - 50..=u16::MAX {
        ring.insert(i, ());
    }
    for i in u16::MAX - 50..=u16::MAX {
        if (u16::MAX - 31..=u16::MAX).contains(&i) {
            assert!(ring.get(i).is_some());
        } else {
            assert!(ring.get(i).is_none());
        }
    }
    assert!(ring.get(0).is_none());
    assert!(ring.get(1).is_none());
}

#[test]
fn insert2() {
    let mut ring = RingBuffer::<(), 4>::new();
    check_item_range(&ring, (0, 8), Option::is_none);
    ring.insert(2, ());
    check_item_range(&ring, (0, 2), Option::is_none);
    check_items(&ring, [(2, true)]);
    check_item_range(&ring, (3, 8), Option::is_none);
    //
    ring.insert(4, ());
    check_item_range(&ring, (0, 2), Option::is_none);
    check_items(&ring, [(2, true), (3, false), (4, true)]);
    check_item_range(&ring, (5, 8), Option::is_none);
    //
    ring.insert(1, ());
    check_items(
        &ring,
        [(0, false), (1, true), (2, true), (3, false), (4, true)],
    );
    check_item_range(&ring, (5, 8), Option::is_none);
    //
    ring.insert(0, ());
    check_items(&ring, [(0, true)]);
    check_item_range(&ring, (1, 8), Option::is_none);
    //
    ring.insert(5, ());
    check_item_range(&ring, (0, 5), Option::is_none);
    check_items(&ring, [(5, true)]);
    check_item_range(&ring, (6, 8), Option::is_none);
    //
    ring.insert(7, ());
    check_item_range(&ring, (0, 5), Option::is_none);
    check_items(&ring, [(5, true), (6, false), (7, true), (8, false)]);
    //
    ring.insert(3, ());
    check_item_range(&ring, (0, 3), Option::is_none);
    check_items(&ring, [(3, true)]);
    check_item_range(&ring, (4, 8), Option::is_none);
    //
    ring.insert(0, ());
    check_items(&ring, [(0, true), (1, false), (2, false), (3, true)]);
    check_item_range(&ring, (4, 8), Option::is_none);
}

fn check_items<const N: usize>(
    ring: &RingBuffer<(), N>,
    indices: impl IntoIterator<Item = (u16, bool)>,
) {
    for (i, is_some) in indices {
        assert_eq!(ring.get(i).is_some(), is_some, "index {i}");
    }
}

fn check_item_range<const N: usize>(
    ring: &RingBuffer<(), N>,
    bounds: (u16, u16),
    check: impl Fn(&Option<()>) -> bool,
) {
    for i in wrapping_range(bounds.0, bounds.1) {
        assert!(check(&ring.get(i).map(|_| ())));
    }
}

#[test]
fn iterate() {
    let mut ring = RingBuffer::<u16, 32>::new();
    assert_eq!(ring.push(0), 0);
    assert_eq!(ring.push(1), 1);
    assert_eq!(ring.len(), 2);
    let mut iter = ring.iter();
    assert_eq!(iter.size_hint(), (2, Some(2)));
    assert_eq!(iter.next(), Some((0, &0)));
    assert_eq!(iter.size_hint(), (0, Some(1)));
    assert_eq!(iter.next(), Some((1, &1)));
    assert_eq!(iter.size_hint(), (0, Some(0)));
    assert_eq!(iter.next(), None);
}

#[test]
fn iter_size_hint() {
    let mut ring = RingBuffer::<u16, 32>::new();
    for i in 0..33 {
        assert_eq!(ring.push(i), i);
    }
    assert_eq!(ring.len(), 32);
    let mut iter = ring.iter();
    for i in 0..32 {
        assert_eq!(iter.size_hint(), (32 - i, Some(32 - i)));
        assert_eq!(iter.next(), Some((i as u16 + 1, &(i as u16 + 1))));
    }
    assert_eq!(iter.next(), None);
}

#[test]
fn iter_size_hint2() {
    let mut ring = RingBuffer::<u16, 32>::new();
    for i in 5..33 {
        ring.insert(i, i);
    }
    assert_eq!(ring.len(), 28);
    let mut iter = ring.iter();
    for i in 0..28 {
        assert_eq!(iter.next(), Some((i as u16 + 5, &(i as u16 + 5))));
        assert_eq!(iter.size_hint(), (23_usize.saturating_sub(i), Some(27 - i)));
    }
    assert_eq!(iter.next(), None);
}

#[test]
fn iterate_many() {
    let mut ring = RingBuffer::<u16, 32>::new();
    let range = 0..33;
    for i in range {
        ring.push(i);
    }
    // 33 elements were inserted, so all 32 slots in the buffer should be filled.
    // The oldest element (0) was replaced by the last element (32), so the first element now is
    // 1.
    let mut i = 1;
    let mut values = ring.values();
    while let Some(item) = values.next() {
        assert_eq!(*item, i);
        i += 1;
    }
    assert_eq!(i, 33);
}

#[test]
fn iterate_values() {
    let mut ring = RingBuffer::<u16, 32>::new();
    ring.push(0);
    ring.push(1);
    let mut values = ring.values();
    assert_eq!(values.next(), Some(&0));
    assert_eq!(values.next(), Some(&1));
    assert_eq!(values.next(), None);
}

#[test]
fn iterate_values_mut() {
    let mut ring = RingBuffer::<u16, 32>::new();
    ring.push(0);
    ring.push(1);
    let mut values = ring.values_mut();
    assert_eq!(values.next(), Some(&mut 0));
    assert_eq!(values.next(), Some(&mut 1));
    assert_eq!(values.next(), None);
}

#[test]
fn iter_mut_size_hint() {
    let mut ring = RingBuffer::<u16, 32>::new();
    for i in 0..33 {
        assert_eq!(ring.push(i), i);
    }
    assert_eq!(ring.len(), 32);
    let mut iter = ring.iter_mut();
    for i in 0..32 {
        assert_eq!(iter.size_hint(), (32 - i, Some(32 - i)));
        assert_eq!(iter.next(), Some((i as u16 + 1, &mut (i as u16 + 1))));
    }
    assert_eq!(iter.next(), None);
}

#[test]
fn iter_mut_size_hint2() {
    let mut ring = RingBuffer::<u16, 32>::new();
    for i in 5..33 {
        ring.insert(i, i);
    }
    assert_eq!(ring.len(), 28);
    let mut iter = ring.iter_mut();
    for i in 0..28 {
        assert_eq!(iter.next(), Some((i as u16 + 5, &mut (i as u16 + 5))));
        assert_eq!(iter.size_hint(), (23_usize.saturating_sub(i), Some(27 - i)));
    }
    assert_eq!(iter.next(), None);
}

#[test]
fn values_mut_writes_through() {
    let mut ring = RingBuffer::<u16, 32>::new();
    ring.push(10);
    ring.push(20);
    let mut values = ring.values_mut();
    while let Some(v) = values.next() {
        *v += 1;
    }
    let mut iter = ring.iter_mut();
    if let Some((idx, v)) = iter.next() {
        assert_eq!(idx, 0);
        *v = 100;
    }
    assert_eq!(ring.get(0), Some(&100));
    assert_eq!(ring.get(1), Some(&21));
}

#[test]
fn iterate_keys() {
    let mut ring = RingBuffer::<(), 32>::new();
    ring.push(());
    ring.push(());
    let mut iter = ring.keys();
    assert_eq!(iter.next(), Some(0));
    assert_eq!(iter.next(), Some(1));
    assert_eq!(iter.next(), None);
    ring.insert(u16::MAX, ());
    ring.push(());
    let mut iter = ring.keys();
    assert_eq!(iter.next(), Some(u16::MAX));
    assert_eq!(iter.next(), Some(0));
    assert_eq!(iter.next(), Some(1));
    assert_eq!(iter.next(), Some(2));
    assert_eq!(iter.next(), None);
}

#[test]
fn insert_will_override() {
    let mut ring = RingBuffer::<(), 32>::new();
    for _ in 0..32 {
        assert!(!ring.push_will_override());
        ring.push(());
    }
    assert!(ring.push_will_override());
}

#[test]
fn len() {
    let mut ring = RingBuffer::<(), 32>::new();
    assert!(ring.is_empty());
    for i in 0..32 {
        assert_eq!(ring.len(), i);
        ring.push(());
    }
    assert_eq!(ring.len(), 32);
    ring.push(());
    assert_eq!(ring.len(), 32);
    // Doesn't do anything, the first element was overriden by the last push
    ring.take(0);
    assert_eq!(ring.len(), 32);
    ring.take(1);
    assert_eq!(ring.len(), 31);
}

#[test]
fn wrapping_gt() {
    assert!(ring_buffer::wrapping_gt(10, 2, 32));
    assert!(!ring_buffer::wrapping_gt(10102, 12042, 32));
    assert!(ring_buffer::wrapping_gt(12042, 10102, 32));
    assert!(!ring_buffer::wrapping_gt(u16::MAX, 2, 32));
    assert!(ring_buffer::wrapping_gt(30, u16::MAX, 32));
    assert!(ring_buffer::wrapping_gt(31, u16::MAX, 32));
    assert!(!ring_buffer::wrapping_gt(32, u16::MAX, 32));
    assert!(!ring_buffer::wrapping_gt(65535_u16.wrapping_sub(31), 0, 32));
}

#[test]
fn get_mut_writes_through() {
    let mut ring = RingBuffer::<u16, 32>::new();
    ring.push(7);
    if let Some(item) = ring.get_mut(0) {
        *item = 9;
    }
    assert_eq!(ring.get(0), Some(&9));
    assert!(ring.get_mut(1).is_none());
}

#[test]
fn take_removes_item() {
    let mut ring = RingBuffer::<u16, 32>::new();
    ring.push(3);
    ring.push(4);
    assert_eq!(ring.take(0), Some(3));
    assert_eq!(ring.take(0), None);
    assert_eq!(ring.get(1), Some(&4));
    assert_eq!(ring.len(), 1);
}

#[test]
fn push_keeps_recent_law() {
    // The 31 newest items survive a push; the oldest falls out of the window.
    let mut ring = RingBuffer::<u16, 32>::new();
    for i in 0..32 {
        ring.push(i);
    }
    ring.push(32);
    assert!(ring.get(0).is_none());
    for i in 1..=32 {
        assert_eq!(ring.get(i), Some(&i));
    }
}

#[test]
fn insert_then_get_law() {
    // Whatever case insert takes, the item is stored under its index afterwards.
    for index in [0u16, 5, 31, 40, 1000, u16::MAX] {
        let mut ring = RingBuffer::<u16, 32>::new();
        ring.push(1);
        ring.insert(index, 77);
        assert_eq!(ring.get(index), Some(&77));
    }
}

#[test]
fn newest_and_next_index() {
    let mut ring = RingBuffer::<(), 32>::new();
    assert_eq!(ring.get_newest_index(), u16::MAX);
    assert_eq!(ring.get_next_index(), 0);
    ring.push(());
    assert_eq!(ring.get_newest_index(), 0);
    assert_eq!(ring.get_next_index(), 1);
}

#[test]
fn wrapping_range_wraps() {
    assert_eq!(wrapping_range(u16::MAX - 1, 2), vec![u16::MAX - 1, u16::MAX, 0, 1]);
    assert_eq!(wrapping_range(3, 3), Vec::<u16>::new());
}

#[test]
fn retain_keeps_what_the_closure_accepts() {
    let mut ring = RingBuffer::<u16, 32>::new();
    for i in 0..6 {
        ring.push(i * 10);
    }
    ring.retain(|idx, v| idx != 1 && *v != 40);
    let mut keys = ring.keys();
    let mut kept: Vec<u16> = Vec::new();
    while let Some(k) = keys.next() {
        kept.push(k);
    }
    assert_eq!(kept, vec![0, 2, 3, 5]);
    assert_eq!(ring.get(5), Some(&50));
    assert_eq!(ring.get_newest_index(), 5);
}

#[test]
fn len_after_take_and_push() {
    let mut ring = RingBuffer::<u16, 32>::new();
    for i in 0..32 {
        ring.push(i);
    }
    assert_eq!(ring.len(), 32);
    // The oldest index holds an item: a push drops it and the length stays.
    assert!(ring.push_will_override());
    ring.push(32);
    assert_eq!(ring.len(), 32);
    assert_eq!(ring.take(10), Some(10));
    assert_eq!(ring.len(), 31);
    assert_eq!(ring.take(10), None);
    assert_eq!(ring.len(), 31);
    // Each push drops the oldest item, until the hole at index 10 is the oldest index of the
    // window.
    for i in 33..42 {
        ring.push(i);
        assert_eq!(ring.len(), 31);
    }
    assert!(!ring.push_will_override());
    ring.push(42);
    assert_eq!(ring.len(), 32);
    // A whole iteration visits every item once, oldest first.
    let mut iter = ring.iter();
    let mut seen = Vec::new();
    while let Some((idx, _)) = iter.next() {
        seen.push(idx);
    }
    assert_eq!(seen, (11..43).collect::<Vec<u16>>());
}

/// The largest capacity, 32768, makes an empty buffer that pushes and reads back.
#[test]
fn largest_capacity_is_supported() {
    let mut ring = RingBuffer::<u8, 32768>::new();
    assert!(ring.is_empty());
    assert_eq!(ring.len(), 0);
    assert_eq!(ring.get_newest_index(), u16::MAX);
    assert_eq!(ring.get(0), None);
    assert_eq!(ring.push(7), 0);
    assert_eq!(ring.get(0), Some(&7));
}
