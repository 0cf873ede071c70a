use win_toast_notifier::ring_buffer::RingBuffer;

fn collect(rb: &RingBuffer<i32>) -> Vec<i32> {
    let mut out: Vec<i32> = Vec::new();
    let mut it = rb.iter();
    while let Some(x) = it.next() {
        out.push(*x);
    }
    out
}

#[test]
fn buffer_test() {
    let mut ring_buffer = RingBuffer::new(3);
    ring_buffer.push(0);
    assert_eq!(collect(&ring_buffer), vec![0]);
    ring_buffer.push(1);
    assert_eq!(collect(&ring_buffer), vec![0, 1]);
    ring_buffer.push(2);
    assert_eq!(collect(&ring_buffer), vec![0, 1, 2]);
    ring_buffer.push(3);
    assert_eq!(collect(&ring_buffer), vec![1, 2, 3]);
    ring_buffer.push(4);
    assert_eq!(collect(&ring_buffer), vec![2, 3, 4]);
}

#[test]
fn get_base_index_test() {
    let mut ring_buffer = RingBuffer::new(3);
    for i in 0..10 {
        ring_buffer.push(i);
        let base_index = ring_buffer.get_base_index();
        let mut last_number = None;
        let mut id: usize = 0;
        let mut it = ring_buffer.iter();
        while let Some(_) = it.next() {
            last_number = Some(id + base_index);
            id += 1;
        }
        assert_eq!(i, last_number.unwrap());
    }
}

// After N pushes: the next sequence number is N, iteration yields the last
// min(N, C) pushed values in push order, and the base sequence is
// max(0, N - C).
#[test]
fn window_after_n_pushes() {
    for n in 0..12i32 {
        let mut rb = RingBuffer::new(4);
        for v in 0..n {
            rb.push(v);
        }
        assert_eq!(rb.get_next_number(), n as usize);
        let expected_len = std::cmp::min(n, 4) as usize;
        let expected: Vec<i32> = (n - expected_len as i32..n).collect();
        assert_eq!(collect(&rb), expected);
        let expected_base = if n <= 4 { 0 } else { (n - 4) as usize };
        assert_eq!(rb.get_base_index(), expected_base);
    }
}

// Round trip: pushing 0..N, the retained item at iteration offset i carries
// sequence number base + i, which is exactly the value pushed (values equal
// their push-time sequence numbers here).
#[test]
fn round_trip_offsets() {
    let mut rb = RingBuffer::new(5);
    for v in 0..13i32 {
        rb.push(v);
    }
    let base = rb.get_base_index();
    for (i, v) in collect(&rb).iter().enumerate() {
        assert_eq!(base + i, *v as usize);
    }
}

// Concrete scenario: capacity 3; push A, B, C, D, E in order.
#[test]
fn capacity_three_scenario() {
    let mut rb = RingBuffer::new(3);
    let mut next_numbers = Vec::new();
    for c in ['A', 'B', 'C', 'D', 'E'] {
        rb.push(c);
        next_numbers.push(rb.get_next_number());
    }
    assert_eq!(next_numbers, vec![1, 2, 3, 4, 5]);
    assert_eq!(rb.get_base_index(), 2);
    let mut items = Vec::new();
    let mut numbers = Vec::new();
    let base = rb.get_base_index();
    let mut it = rb.iter();
    let mut i: usize = 0;
    while let Some(c) = it.next() {
        items.push(*c);
        numbers.push(base + i);
        i += 1;
    }
    assert_eq!(items, vec!['C', 'D', 'E']);
    assert_eq!(numbers, vec![2, 3, 4]);
}

// A traversal is restartable: each call of iter() is a fresh, independent
// pass over the same retained items.
#[test]
fn iteration_restartable() {
    let mut rb = RingBuffer::new(2);
    rb.push(7);
    rb.push(8);
    rb.push(9);
    assert_eq!(collect(&rb), vec![8, 9]);
    assert_eq!(collect(&rb), vec![8, 9]);
}

// Pre-wrap, iteration stops at the first unwritten slot.
#[test]
fn iteration_stops_at_empty_slot() {
    let mut rb = RingBuffer::new(8);
    rb.push(1);
    rb.push(2);
    assert_eq!(collect(&rb), vec![1, 2]);
}
