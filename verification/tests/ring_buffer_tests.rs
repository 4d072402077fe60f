use mm_sim::ring_buffer::RingBuffer;

fn contents(buf: &RingBuffer<u32>) -> Vec<u32> {
    let mut out = Vec::new();
    let mut it = buf.iter();
    while let Some(v) = it.next() {
        out.push(*v);
    }
    out
}

#[test]
fn new_buffer_is_empty() {
    let buf: RingBuffer<u32> = RingBuffer::new(4);
    assert_eq!(buf.len(), 0);
    assert!(buf.is_empty());
    assert_eq!(buf.get(0), None);
}

#[test]
fn push_keeps_order_until_full() {
    let mut buf = RingBuffer::new(8);
    for i in 0..8 {
        buf.push(i);
    }
    assert_eq!(buf.len(), 8);
    assert_eq!(contents(&buf), vec![0, 1, 2, 3, 4, 5, 6, 7]);
}

#[test]
fn push_at_capacity_overwrites_oldest() {
    let mut buf = RingBuffer::new(8);
    for i in 0..9 {
        buf.push(i);
    }
    assert_eq!(buf.len(), 8);
    assert_eq!(contents(&buf), vec![1, 2, 3, 4, 5, 6, 7, 8]);
    assert_eq!(buf.get(0), Some(&1));
    assert_eq!(buf.get(7), Some(&8));
    // on a full buffer the slot after the newest value holds the oldest
    assert_eq!(buf.get(8), Some(&1));
    assert_eq!(buf.get(9), None);
}

#[test]
fn pushing_many_keeps_the_newest_capacity_values() {
    let mut buf = RingBuffer::new(3);
    for i in 0..100 {
        buf.push(i);
    }
    assert_eq!(contents(&buf), vec![97, 98, 99]);
}

#[test]
fn pop_returns_the_newest_value() {
    let mut buf = RingBuffer::new(4);
    buf.push(10);
    buf.push(20);
    assert_eq!(buf.pop(), Some(20));
    assert_eq!(contents(&buf), vec![10]);
    assert_eq!(buf.pop(), Some(10));
    assert_eq!(buf.pop(), None);
    assert!(buf.is_empty());
}

#[test]
fn push_then_pop_on_full_buffer() {
    let mut buf = RingBuffer::new(3);
    for i in 0..3 {
        buf.push(i);
    }
    buf.push(3);
    assert_eq!(buf.pop(), Some(3));
    assert_eq!(contents(&buf), vec![1, 2]);
    buf.push(4);
    assert_eq!(contents(&buf), vec![1, 2, 4]);
}

#[test]
fn pop_then_push_wraps_around() {
    let mut buf = RingBuffer::new(2);
    buf.push(1);
    buf.push(2);
    buf.push(3);
    assert_eq!(buf.pop(), Some(3));
    buf.push(5);
    buf.push(6);
    assert_eq!(contents(&buf), vec![5, 6]);
}

#[test]
fn get_mut_writes_through() {
    let mut buf = RingBuffer::new(3);
    for i in 0..5 {
        buf.push(i);
    }
    if let Some(v) = buf.get_mut(1) {
        *v = 40;
    }
    assert_eq!(contents(&buf), vec![2, 40, 4]);
    if let Some(v) = buf.get_mut(3) {
        *v = 20;
    }
    assert_eq!(contents(&buf), vec![20, 40, 4]);
    assert!(buf.get_mut(4).is_none());
}

#[test]
fn iter_mut_visits_every_value() {
    let mut buf = RingBuffer::new(4);
    for i in 0..6 {
        buf.push(i);
    }
    {
        let mut it = buf.iter_mut();
        while let Some(v) = it.next() {
            *v *= 10;
        }
    }
    assert_eq!(contents(&buf), vec![20, 30, 40, 50]);
}

#[test]
fn into_iter_yields_values_oldest_first() {
    let mut buf = RingBuffer::new(3);
    for i in 0..4 {
        buf.push(i);
    }
    let mut it = buf.into_iter();
    let mut out = Vec::new();
    while let Some(v) = it.next() {
        out.push(v);
    }
    assert_eq!(out, vec![1, 2, 3]);
}

#[test]
fn zero_capacity_buffer_stays_empty() {
    let mut buf: RingBuffer<u32> = RingBuffer::new(0);
    assert_eq!(buf.pop(), None);
    assert_eq!(buf.get(1), None);
    assert!(buf.iter().next().is_none());
}

#[test]
fn clone_keeps_values() {
    let mut buf = RingBuffer::new(2);
    buf.push(String::from("a"));
    buf.push(String::from("b"));
    buf.push(String::from("c"));
    let copy = buf.clone();
    assert_eq!(copy.get(0), Some(&String::from("b")));
    assert_eq!(copy.get(1), Some(&String::from("c")));
    assert_eq!(copy.len(), 2);
}

#[test]
fn index_reads_by_position() {
    let mut buf = RingBuffer::new(3);
    for i in 0..5 {
        buf.push(i);
    }
    assert_eq!(buf[0], 2);
    assert_eq!(buf[2], 4);
    assert_eq!(buf[3], 2);
}

#[test]
fn the_slot_after_the_newest_value_is_empty_until_the_buffer_fills() {
    let mut buf = RingBuffer::new(3);
    buf.push(1);
    buf.push(2);
    assert_eq!(buf.get(2), None);
    buf.push(3);
    assert_eq!(buf.get(3), Some(&1));
    assert_eq!(buf.pop(), Some(3));
    assert_eq!(buf.get(2), None);
}
