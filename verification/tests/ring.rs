//! The ring behind the two ends, and the arithmetic that it rests on.

use orb::buffer::{new_pair, PopResult, PushError};
use orb::cell_state::CellState;
use orb::ring::{diff, should_jump_to, Shared};
use orb::shared_array::SharedArray;
use orb::wrapping::{wrapping_range_u16, wrapping_range_usize, wrapping_range_usize_contains};
use std::rc::Rc;

/// Pushes as a writer does that sees where the reader is.
fn push<const N: usize>(
    ring: &mut Shared<u64, N>,
    expected_seq: &mut u16,
    seq: u16,
) -> Result<(), PushError<u64>> {
    let read = ring.read_head();
    ring.push(expected_seq, read, seq, seq as u64, &mut Vec::new())
}

#[test]
fn ranges_wrap_around() {
    let range = wrapping_range_usize(usize::MAX - 1, 2);
    assert_eq!(range.len(), 4);
    assert_eq!(range.get(0), usize::MAX - 1);
    assert_eq!(range.get(1), usize::MAX);
    assert_eq!(range.get(2), 0);
    assert_eq!(range.get(3), 1);
    assert_eq!(wrapping_range_usize(7, 7).len(), 0);

    let range = wrapping_range_u16(0xFFFF, 1);
    assert_eq!(range.len(), 2);
    assert_eq!(range.get(0), 0xFFFF);
    assert_eq!(range.get(1), 0);
    assert_eq!(wrapping_range_u16(3, 2).len(), 0xFFFF);
}

#[test]
fn range_contains_its_start_and_not_its_end() {
    assert!(wrapping_range_usize_contains(usize::MAX, 2, usize::MAX));
    assert!(wrapping_range_usize_contains(usize::MAX, 2, 0));
    assert!(wrapping_range_usize_contains(usize::MAX, 2, 1));
    assert!(!wrapping_range_usize_contains(usize::MAX, 2, 2));
    assert!(!wrapping_range_usize_contains(
        usize::MAX,
        2,
        usize::MAX - 1
    ));
    assert!(!wrapping_range_usize_contains(5, 5, 5));
}

#[test]
fn jump_window() {
    // both ends of the range are in it
    assert!(!should_jump_to::<16>(0, 16));
    assert!(!should_jump_to::<16>(100, 84));
    assert!(should_jump_to::<16>(100, 83));
    assert!(!should_jump_to::<16>(100, 100));
    assert!(!should_jump_to::<16>(100, 116));
    assert!(should_jump_to::<16>(100, 117));
    // around zero
    assert!(!should_jump_to::<16>(3, 0xFFF3));
    assert!(should_jump_to::<16>(3, 0xFFF2));
    assert!(!should_jump_to::<16>(0xFFFF, 15));
    assert!(should_jump_to::<16>(0xFFFF, 16));
}

#[test]
fn jump_window_of_large_buffers() {
    assert!(should_jump_to::<0x4000>(100, 100 + 0x4001));
    assert!(!should_jump_to::<0x4000>(100, 100 + 0x4000));
    // the range holds every number
    for seq in [0, 99, 100, 101, 0x7FFF, 0x8000, 0x8064, 0xFFFF] {
        assert!(!should_jump_to::<0x8000>(100, seq));
        assert!(!should_jump_to::<0x1_0000>(100, seq));
    }
}

#[test]
fn distances_are_signed() {
    assert_eq!(diff(5, 5), 0);
    assert_eq!(diff(5, 7), 2);
    assert_eq!(diff(5, 3), -2);
    assert_eq!(diff(0xFFFF, 1), 2);
    assert_eq!(diff(1, 0xFFFF), -2);
    assert_eq!(diff(0, 0x7FFF), 0x7FFF);
    assert_eq!(diff(0, 0x8000), -0x8000);
}

#[test]
fn array_hands_back_what_it_stores() {
    let mut arr = SharedArray::<Rc<u8>, 4>::default();
    let first = Rc::new(1);
    let second = Rc::new(2);

    assert!(arr.insert(2, first.clone()).is_none());
    assert_eq!(Rc::strong_count(&first), 2);

    // the previous value is handed back
    assert_eq!(arr.insert(2, second.clone()), Some(first.clone()));
    assert_eq!(Rc::strong_count(&first), 1);
    assert_eq!(Rc::strong_count(&second), 2);

    assert_eq!(*arr.take(2), 2);
    assert_eq!(Rc::strong_count(&second), 1);

    assert!(arr.insert(3, second.clone()).is_none());
    assert_eq!(arr.take_if_present(3), Some(second.clone()));
    assert_eq!(Rc::strong_count(&second), 1);
    assert!(arr.take_if_present(3).is_none());
    assert!(arr.take_if_present(0).is_none());

    // what is left is dropped with the array
    assert!(arr.insert(0, first.clone()).is_none());
    drop(arr);
    assert_eq!(Rc::strong_count(&first), 1);
}

#[test]
fn new_ring_is_empty() {
    let mut ring = Shared::<u64, 8>::default();
    assert!(ring.is_empty());
    assert_eq!(ring.len_hint(), 0);
    assert_eq!(ring.read_head(), 0);
    assert_eq!(ring.write_head(), 0);
    for i in 0..8 {
        assert_eq!(ring.cell(i), CellState::Skip.pack());
    }
    assert!(matches!(ring.pop(), PopResult::Empty));
    assert_eq!(ring.read_head(), 0);
}

#[test]
fn duplicate_is_stale() {
    let mut ring = Shared::<u64, 8>::default();
    let mut expected = 0;
    assert!(push(&mut ring, &mut expected, 0).is_ok());
    assert!(push(&mut ring, &mut expected, 1).is_ok());
    assert!(matches!(
        ring.push(&mut expected, 0, 0, 77, &mut Vec::new()),
        Err(PushError::Stale(0, 77))
    ));
    assert_eq!(expected, 2);
    assert!(matches!(ring.pop(), PopResult::Data(0, 0)));
    assert!(matches!(ring.pop(), PopResult::Data(1, 1)));
    assert!(matches!(ring.pop(), PopResult::Empty));
}

#[test]
fn passed_packet_is_stale() {
    let mut ring = Shared::<u64, 8>::default();
    let mut expected = 0;
    assert!(push(&mut ring, &mut expected, 1).is_ok());
    assert!(matches!(ring.pop(), PopResult::Missing(0)));
    assert!(matches!(
        push(&mut ring, &mut expected, 0),
        Err(PushError::Stale(0, 0))
    ));
    assert_eq!(expected, 2);
    assert!(matches!(ring.pop(), PopResult::Data(1, 1)));
}

#[test]
fn late_packet_fills_its_placeholder() {
    let mut ring = Shared::<u64, 8>::default();
    let mut expected = 0;
    assert!(push(&mut ring, &mut expected, 3).is_ok());
    assert_eq!(expected, 4);
    assert_eq!(ring.cell(1), CellState::Reserved(1).pack());
    assert!(push(&mut ring, &mut expected, 1).is_ok());
    assert_eq!(expected, 4);
    assert_eq!(ring.cell(1), CellState::Data(1).pack());
    assert_eq!(ring.len_hint(), 4);
    assert!(matches!(ring.pop(), PopResult::Missing(0)));
    assert!(matches!(ring.pop(), PopResult::Data(1, 1)));
    assert!(matches!(ring.pop(), PopResult::Missing(2)));
    assert!(matches!(ring.pop(), PopResult::Data(3, 3)));
    assert!(ring.is_empty());
}

#[test]
fn full_keeps_placeholders_and_goes_on_after_them() {
    let mut ring = Shared::<u64, 4>::default();
    let mut expected = 0;
    assert!(push(&mut ring, &mut expected, 0).is_ok());
    assert!(push(&mut ring, &mut expected, 1).is_ok());
    // placeholders for 2 and 3 fit, 4 does not
    assert!(matches!(
        push(&mut ring, &mut expected, 4),
        Err(PushError::Full(4, 4))
    ));
    assert_eq!(expected, 4);
    assert_eq!(ring.len_hint(), 4);
    assert!(matches!(
        push(&mut ring, &mut expected, 4),
        Err(PushError::Full(4, 4))
    ));
    assert_eq!(expected, 4);
    assert!(matches!(ring.pop(), PopResult::Data(0, 0)));
    assert!(push(&mut ring, &mut expected, 4).is_ok());
    assert_eq!(expected, 5);
    assert!(matches!(ring.pop(), PopResult::Data(1, 1)));
    assert!(matches!(ring.pop(), PopResult::Missing(2)));
    assert!(matches!(ring.pop(), PopResult::Missing(3)));
    assert!(matches!(ring.pop(), PopResult::Data(4, 4)));
    assert!(matches!(ring.pop(), PopResult::Empty));
}

#[test]
fn jump_starts_over() {
    let mut ring = Shared::<u64, 8>::default();
    let mut expected = 0;
    for seq in 0..3 {
        assert!(push(&mut ring, &mut expected, seq).is_ok());
    }
    assert!(push(&mut ring, &mut expected, 500).is_ok());
    assert_eq!(expected, 501);
    assert_eq!(ring.len_hint(), 4);
    assert!(matches!(ring.pop(), PopResult::Data(500, 500)));
    assert_eq!(ring.len_hint(), 0);
    assert!(matches!(ring.pop(), PopResult::Empty));
}

#[test]
fn jump_without_room_gives_up_the_contents() {
    let mut ring = Shared::<u64, 4>::default();
    let mut expected = 0;
    for seq in 0..4 {
        assert!(push(&mut ring, &mut expected, seq).is_ok());
    }
    assert!(matches!(
        push(&mut ring, &mut expected, 500),
        Err(PushError::Full(500, 500))
    ));
    // the time base is the new one all the same
    assert_eq!(expected, 501);
    assert_eq!(ring.len_hint(), 4);
    assert!(matches!(ring.pop(), PopResult::Empty));
    assert_eq!(ring.len_hint(), 0);
    assert!(push(&mut ring, &mut expected, 501).is_ok());
    assert!(matches!(ring.pop(), PopResult::Data(501, 501)));
}

#[test]
fn writer_that_sees_an_old_read_head_is_refused() {
    let mut ring = Shared::<u64, 4>::default();
    let mut expected = 0;
    let seen = ring.read_head();
    for seq in 0..4 {
        assert!(push(&mut ring, &mut expected, seq).is_ok());
    }
    assert!(matches!(ring.pop(), PopResult::Data(0, 0)));
    // there is room, but not to a writer that has seen the reader at the start
    assert!(matches!(
        ring.push(&mut expected, seen, 4, 4, &mut Vec::new()),
        Err(PushError::Full(4, 4))
    ));
    assert_eq!(expected, 4);
    assert!(push(&mut ring, &mut expected, 4).is_ok());
    for seq in 1..=4 {
        assert!(matches!(ring.pop(), PopResult::Data(s, _) if s == seq));
    }
}

#[test]
fn jump_by_a_writer_that_sees_an_old_read_head() {
    let mut ring = Shared::<u64, 4>::default();
    let mut expected = 0;
    let seen = ring.read_head();
    for seq in 0..3 {
        assert!(push(&mut ring, &mut expected, seq).is_ok());
    }
    assert!(matches!(ring.pop(), PopResult::Data(0, 0)));
    assert!(ring
        .push(&mut expected, seen, 500, 9, &mut Vec::new())
        .is_ok());
    assert!(matches!(ring.pop(), PopResult::Data(500, 9)));
    assert!(matches!(ring.pop(), PopResult::Empty));
}

#[test]
fn reader_that_sees_an_old_write_head_finds_nothing() {
    let mut ring = Shared::<u64, 4>::default();
    let mut expected = 0;
    let seen = ring.write_head();
    assert!(push(&mut ring, &mut expected, 0).is_ok());
    assert!(matches!(ring.look(seen), Some(PopResult::Empty)));
    let seen = ring.write_head();
    assert!(matches!(ring.look(seen), Some(PopResult::Data(0, 0))));
    assert!(matches!(ring.look(seen), Some(PopResult::Empty)));
}

#[test]
fn look_passes_over_one_position_at_a_time() {
    let mut ring = Shared::<u64, 4>::default();
    let mut expected = 0;
    assert!(push(&mut ring, &mut expected, 0).is_ok());
    assert!(push(&mut ring, &mut expected, 1).is_ok());
    assert!(push(&mut ring, &mut expected, 100).is_ok());
    let write = ring.write_head();
    assert!(ring.look(write).is_none());
    assert_eq!(ring.read_head(), 1);
    assert!(ring.look(write).is_none());
    assert!(matches!(ring.look(write), Some(PopResult::Data(100, 100))));
    assert!(matches!(ring.look(write), Some(PopResult::Empty)));
}

#[test]
fn sequence_numbers_wrap_around() {
    let (mut tx, mut rx) = new_pair::<u64, 8>();
    for seq in 65527..=65534 {
        assert!(tx.push(seq, seq as u64).is_ok());
        assert!(matches!(rx.pop(), PopResult::Data(s, _) if s == seq));
    }
    // leaves out 65535 and 0
    assert!(tx.push(1, 2).is_ok());
    assert!(tx.push(65535, 3).is_ok());
    assert!(matches!(rx.pop(), PopResult::Data(65535, 3)));
    assert!(matches!(rx.pop(), PopResult::Missing(0)));
    assert!(matches!(rx.pop(), PopResult::Data(1, 2)));
    assert!(rx.is_empty());
}

#[test]
fn first_packet_may_have_any_number() {
    for first in [0u16, 1, 15, 17, 1000, 0x8000, 0xFFEF] {
        let (mut tx, mut rx) = new_pair::<u16, 16>();
        assert!(tx.push(first, first).is_ok());
        if first < 16 {
            // a placeholder for each number before it
            for i in 0..first {
                assert!(matches!(rx.pop(), PopResult::Missing(s) if s == i));
            }
        }
        assert!(matches!(rx.pop(), PopResult::Data(s, d) if s == first && d == first));
        assert!(matches!(rx.pop(), PopResult::Empty));
    }
}

#[test]
fn first_packet_at_the_ends_of_the_range() {
    // sixteen placeholders fit, the packet does not
    let (mut tx, mut rx) = new_pair::<u16, 16>();
    assert!(matches!(tx.push(16, 5), Err(PushError::Full(16, 5))));
    for i in 0..16 {
        assert!(matches!(rx.pop(), PopResult::Missing(s) if s == i));
    }
    assert!(tx.push(16, 5).is_ok());
    assert!(matches!(rx.pop(), PopResult::Data(16, 5)));

    // up to sixteen before the expected number is late
    for first in [0xFFF0, 0xFFFF] {
        let (mut tx, rx) = new_pair::<u16, 16>();
        assert!(matches!(tx.push(first, 5), Err(PushError::Stale(s, 5)) if s == first));
        assert!(rx.is_empty());
    }
}

#[test]
fn left_over_values_are_retired() {
    let mut ring = Shared::<u64, 4>::default();
    let mut expected = 0;
    let mut retired = Vec::new();
    for seq in 0..3 {
        let read = ring.read_head();
        assert!(ring
            .push(&mut expected, read, seq, 10 + seq as u64, &mut retired)
            .is_ok());
    }
    let read = ring.read_head();
    assert!(ring.push(&mut expected, read, 500, 20, &mut retired).is_ok());
    assert!(matches!(ring.pop(), PopResult::Data(500, 20)));
    assert_eq!(retired, []);
    // a placeholder and a packet go to the first two slots
    let read = ring.read_head();
    assert!(ring.push(&mut expected, read, 502, 30, &mut retired).is_ok());
    assert_eq!(retired, [10, 11]);
    let read = ring.read_head();
    assert!(ring.push(&mut expected, read, 900, 40, &mut retired).is_ok());
    assert_eq!(retired, [10, 11, 12]);
    assert!(matches!(ring.pop(), PopResult::Data(900, 40)));
}

#[test]
fn values_are_accounted_for() {
    let mut ring = Shared::<u64, 4>::default();
    let mut expected = 0;
    let mut retired = Vec::new();
    let mut out = Vec::new();
    let mut back = Vec::new();
    let seqs = [
        0u16, 1, 3, 2, 4, 9, 5, 200, 201, 200, 204, 202, 60000, 60001, 7, 8, 10, 9, 30, 31, 32, 33,
        34, 35, 36,
    ];
    for (value, seq) in seqs.iter().enumerate() {
        let read = ring.read_head();
        match ring.push(&mut expected, read, *seq, value as u64, &mut retired) {
            Ok(()) => {}
            Err(PushError::Stale(_, v)) | Err(PushError::Full(_, v)) => back.push(v),
        }
        if value % 3 == 0 {
            if let PopResult::Data(_, v) = ring.pop() {
                out.push(v);
            }
        }
    }
    // nothing twice, and what is missing is still stored
    let mut all: Vec<u64> = retired.into_iter().chain(out).chain(back).collect();
    let len = all.len();
    all.sort();
    all.dedup();
    assert_eq!(all.len(), len);
    assert!(seqs.len() - len <= 4);
}

#[test]
fn one_slot_is_enough() {
    let (mut tx, mut rx) = new_pair::<u8, 1>();
    for seq in 0..10u16 {
        assert!(tx.push(seq, seq as u8).is_ok());
        assert!(matches!(
            tx.push(seq + 1, 0),
            Err(PushError::Full(_, 0))
        ));
        assert_eq!(rx.len_hint(), 1);
        assert!(matches!(rx.pop(), PopResult::Data(s, d) if s == seq && d == seq as u8));
        assert_eq!(rx.len_hint(), 0);
    }
}

#[test]
fn number_of_pops_is_at_most_the_length() {
    let (mut tx, mut rx) = new_pair::<u8, 8>();
    assert!(tx.push(0, 0).is_ok());
    assert!(tx.push(2, 2).is_ok());
    assert!(tx.push(100, 100).is_ok());
    assert!(tx.push(102, 102).is_ok());
    // three to be passed over, then 100, a placeholder and 102
    assert_eq!(rx.len_hint(), 6);
    assert!(matches!(rx.pop(), PopResult::Data(100, 100)));
    assert_eq!(rx.len_hint(), 2);
    assert!(matches!(rx.pop(), PopResult::Missing(101)));
    assert!(matches!(rx.pop(), PopResult::Data(102, 102)));
    assert!(matches!(rx.pop(), PopResult::Empty));
}

#[test]
fn ends_can_be_sent_to_other_threads() {
    fn is_send<S: Send>(_: &S) {}
    let (tx, rx) = new_pair::<Vec<u8>, 4>();
    is_send(&tx);
    is_send(&rx);
}
