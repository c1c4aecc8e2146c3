use rbl_circular_buffer::CircularBuffer;

/// A small deterministic generator, so that the long runs below repeat exactly.
fn next_random(state: &mut u64) -> u64 {
    *state = state
        .wrapping_mul(6364136223846793005)
        .wrapping_add(1442695040888963407);
    *state >> 33
}

#[test]
fn capacity_three_keeps_the_last_three() {
    let mut b = CircularBuffer::new(3);
    for i in 1..=4u32 {
        b.push(i);
    }
    assert_eq!(3, b.len());
    assert_eq!(vec![2, 3, 4], b.collect());
}

#[test]
fn capacity_two_drains_into_larger_room() {
    let mut b = CircularBuffer::new(2);
    b.push(1u32);
    b.push(2);
    b.push(3);
    let mut sink = Vec::with_capacity(4);
    assert_eq!(2, b.fill_with_room(&mut sink, 4));
    assert_eq!(vec![2, 3], sink);
    assert_eq!(0, b.len());
}

#[test]
fn partial_drain_then_push_then_drain() {
    let mut b = CircularBuffer::new(4);
    for i in 1..=4u32 {
        b.push(i);
    }
    let mut first = Vec::with_capacity(1);
    assert_eq!(1, b.fill_with_room(&mut first, 1));
    assert_eq!(vec![1], first);
    assert_eq!(3, b.len());
    b.push(5);
    let mut second = Vec::with_capacity(4);
    assert_eq!(4, b.fast_fill_with_room(&mut second, 4));
    assert_eq!(vec![2, 3, 4, 5], second);
    assert_eq!(0, b.len());
}

#[test]
fn filling_exactly_to_capacity_reports_no_room() {
    let mut b = CircularBuffer::new(5);
    let mut last = 99;
    for i in 0..5u32 {
        last = b.push(i);
    }
    assert_eq!(0, last);
    assert_eq!(5, b.len());
    assert_eq!(vec![0, 1, 2, 3, 4], b.collect());
}

#[test]
fn next_pulls_oldest_first() {
    let mut b = CircularBuffer::new(3);
    assert_eq!(None, b.next());
    b.push(7u32);
    b.push(8);
    b.push(9);
    b.push(10);
    assert_eq!((3, Some(3)), b.size_hint());
    assert_eq!(Some(8), b.next());
    assert_eq!((2, Some(2)), b.size_hint());
    assert_eq!(Some(9), b.next());
    assert_eq!(Some(10), b.next());
    assert_eq!(None, b.next());
    assert_eq!((0, Some(0)), b.size_hint());
    assert_eq!(3, b.push(11) + 1);
}

#[test]
fn zero_room_moves_nothing() {
    let mut b = CircularBuffer::new(3);
    b.push(1u32);
    b.push(2);
    let mut sink = vec![42u32];
    assert_eq!(0, b.fill_with_room(&mut sink, 0));
    assert_eq!(0, b.fast_fill_with_room(&mut sink, 0));
    assert_eq!(vec![42], sink);
    assert_eq!(2, b.len());
}

#[test]
fn empty_buffer_moves_nothing() {
    let mut b = CircularBuffer::<u32>::new(3);
    let mut sink = Vec::with_capacity(8);
    assert_eq!(0, b.fill(&mut sink));
    assert_eq!(0, b._fast_fill(&mut sink));
    assert_eq!(0, b.fill_with_room(&mut sink, 8));
    assert_eq!(0, b.fast_fill_with_room(&mut sink, 8));
    assert!(sink.is_empty());
}

#[test]
fn fill_respects_spare_capacity_of_sink() {
    let mut b = CircularBuffer::new(6);
    for i in 0..6u32 {
        b.push(i);
    }
    let mut sink: Vec<u32> = Vec::with_capacity(4);
    sink.push(100);
    let spare = sink.capacity() - sink.len();
    let moved = b.fill(&mut sink);
    assert_eq!(spare, moved);
    assert_eq!(6 - moved, b.len());
    assert_eq!(100, sink[0]);
    assert_eq!((0..moved as u32).collect::<Vec<u32>>(), sink[1..].to_vec());

    let mut other: Vec<u32> = Vec::with_capacity(2);
    other.push(200);
    let spare = other.capacity() - other.len();
    let moved_fast = b._fast_fill(&mut other);
    assert_eq!(spare.min(6 - moved), moved_fast);
    assert_eq!(
        (moved as u32..(moved + moved_fast) as u32).collect::<Vec<u32>>(),
        other[1..].to_vec()
    );
}

#[test]
fn fast_fill_across_the_wrap() {
    let mut b = CircularBuffer::new(5);
    for i in 0..8u32 {
        b.push(i);
    }
    let mut head = Vec::with_capacity(2);
    assert_eq!(2, b.fast_fill_with_room(&mut head, 2));
    assert_eq!(vec![3, 4], head);
    b.push(8);
    b.push(9);
    assert_eq!("CircularBuffer(5, 6, 7, 8, 9)", b.display_string());
    let mut rest = Vec::with_capacity(10);
    assert_eq!(5, b.fast_fill_with_room(&mut rest, 10));
    assert_eq!(vec![5, 6, 7, 8, 9], rest);
    assert_eq!("CircularBuffer(<empty>)", b.display_string());
}

#[test]
fn len_stays_within_capacity_on_long_runs() {
    let mut state = 11u64;
    for size in 1..25usize {
        let mut b = CircularBuffer::<u32>::new(size);
        for _ in 0..200 {
            let v = (next_random(&mut state) % 1000) as u32;
            let remaining = b.push(v);
            assert!(b.len() <= size);
            assert_eq!(size - b.len(), remaining);
        }
        assert_eq!(size, b.len());
    }
}

#[test]
fn long_runs_match_a_plain_queue() {
    let mut state = 5u64;
    for size in [1usize, 2, 3, 7, 16, 31] {
        let mut a = CircularBuffer::<u32>::new(size);
        let mut b = CircularBuffer::<u32>::new(size);
        let mut model: Vec<u32> = Vec::new();
        for _ in 0..60 {
            let to_add = next_random(&mut state) % 40;
            for _ in 0..to_add {
                let v = (next_random(&mut state) % 1000) as u32;
                a.push(v);
                b.push(v);
                model.push(v);
                if model.len() > size {
                    model.remove(0);
                }
                assert_eq!(model.len(), a.len());
            }
            let room = (next_random(&mut state) % 40) as usize;
            let expected: Vec<u32> = model.drain(..room.min(model.len())).collect();
            let mut a_sink = Vec::with_capacity(room);
            let mut b_sink = Vec::with_capacity(room);
            let moved_a = a.fill_with_room(&mut a_sink, room);
            let moved_b = b.fast_fill_with_room(&mut b_sink, room);
            assert_eq!(expected.len(), moved_a);
            assert_eq!(expected.len(), moved_b);
            assert_eq!(expected, a_sink);
            assert_eq!(expected, b_sink);
            assert_eq!(model.len(), a.len());
            assert_eq!(model.len(), b.len());
        }
    }
}

#[test]
fn clones_drain_alike_and_stay_apart() {
    let mut a = CircularBuffer::new(4);
    for i in 0..6u32 {
        a.push(i);
    }
    let mut b = a.clone();
    b.push(100);
    assert_eq!("CircularBuffer(2, 3, 4, 5)", a.display_string());
    assert_eq!("CircularBuffer(3, 4, 5, 100)", b.display_string());

    let mut c = a.clone();
    let mut from_a = Vec::with_capacity(3);
    let mut from_c = Vec::with_capacity(3);
    a.fill(&mut from_a);
    c.fill(&mut from_c);
    assert_eq!(from_a, from_c);
    assert_eq!(a.collect(), c.collect());
    assert_eq!(4, b.len());
}

#[test]
fn clone_of_empty_and_full_buffers() {
    let e = CircularBuffer::<String>::new(2);
    let e2 = e.clone();
    assert_eq!(0, e2.len());
    let mut f = CircularBuffer::new(2);
    f.push(String::from("x"));
    f.push(String::from("y"));
    f.push(String::from("z"));
    let g = f.clone();
    assert_eq!(vec![String::from("y"), String::from("z")], g.collect());
    assert_eq!(vec![String::from("y"), String::from("z")], f.collect());
}

#[test]
fn debug_form_shows_cursors() {
    let mut b = CircularBuffer::<u32>::new(4);
    assert_eq!("CircularBuffer(<empty>)", b.debug_string());
    b.push(1);
    b.push(2);
    assert_eq!(
        "CircularBuffer(1, 2) w: 2, r: 0, size: 4, full: false",
        b.debug_string()
    );
    for i in 3..=5 {
        b.push(i);
    }
    assert_eq!(
        "CircularBuffer(2, 3, 4, 5) w: 1, r: 1, size: 4, full: true",
        b.debug_string()
    );
    assert_eq!("CircularBuffer(2, 3, 4, 5)", b.display_string());
    assert_eq!(4, b.len());
}

#[test]
fn debug_form_of_strings_quotes_them() {
    let mut b = CircularBuffer::new(2);
    b.push(String::from("a"));
    assert_eq!(
        "CircularBuffer(\"a\") w: 1, r: 0, size: 2, full: false",
        b.debug_string()
    );
}

#[test]
fn pulls_and_fills_move_the_read_cursor_and_clear_full() {
    let mut b = CircularBuffer::<u32>::new(3);
    for i in 0..4 {
        b.push(i);
    }
    assert_eq!(
        "CircularBuffer(1, 2, 3) w: 1, r: 1, size: 3, full: true",
        b.debug_string()
    );
    assert_eq!(Some(1), b.next());
    assert_eq!(
        "CircularBuffer(2, 3) w: 1, r: 2, size: 3, full: false",
        b.debug_string()
    );
    b.push(4);
    let mut sink = Vec::with_capacity(2);
    assert_eq!(2, b.fast_fill_with_room(&mut sink, 2));
    assert_eq!(vec![2, 3], sink);
    assert_eq!(
        "CircularBuffer(4) w: 2, r: 1, size: 3, full: false",
        b.debug_string()
    );
    let mut rest = Vec::with_capacity(5);
    assert_eq!(1, b.fill_with_room(&mut rest, 5));
    assert_eq!("CircularBuffer(<empty>)", b.debug_string());
    assert_eq!(0, b.len());
}
