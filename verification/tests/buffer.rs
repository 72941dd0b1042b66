//! The two ends of the buffer.

use orb::buffer::{new_pair, PopResult, PushError, Reader};
use orb::cell_state::CellState;
use std::sync::atomic::{AtomicUsize, Ordering};
use std::sync::{Arc, Mutex};

#[test]
fn buffer_basic() {
    let (mut tx, mut rx) = new_pair::<u64, 16>();

    let res = rx.pop();
    assert!(matches!(res, PopResult::Empty));

    assert!(tx.push(0, 17).is_ok());

    let res2 = rx.pop();

    assert!(matches!(res2, PopResult::Data(0, 17)));
}

#[test]
fn multiple() {
    let (mut tx, mut rx) = new_pair::<u64, 16>();

    for i in 0..16u16 {
        assert!(tx.push(i, i as u64).is_ok());
    }

    for i in 0..16u16 {
        let res = rx.pop();

        assert!(matches!(res, PopResult::Data(s, d) if s == i && d == i as u64));
    }
}

#[test]
fn gaps() {
    let (mut tx, mut rx) = new_pair::<u64, 16>();

    for i in 0..16u16 {
        if i % 2 == 0 {
            assert!(tx.push(i, i as u64).is_ok());
        }
    }

    // the last number, 15, has been given no place yet
    for i in 0..15u16 {
        let res = rx.pop();

        if i % 2 == 0 {
            assert!(matches!(res, PopResult::Data(s, d) if s == i && d == i as u64));
        } else {
            assert!(matches!(res, PopResult::Missing(s) if s == i));
        }
    }

    assert!(matches!(rx.pop(), PopResult::Empty));
}

#[test]
fn late_arrival_insertion() {
    let (mut tx, mut rx) = new_pair::<u64, 16>();

    assert!(tx.push(0, 0).is_ok());
    assert!(tx.push(2, 2).is_ok());
    assert!(tx.push(1, 1).is_ok());

    for i in 0..=2u16 {
        let res = rx.pop();

        assert!(matches!(res, PopResult::Data(s, d) if s == i && d == i as u64));
    }

    assert!(matches!(rx.pop(), PopResult::Empty));
}

#[test]
fn late_arrival_drop_placeholder() {
    let (mut tx, mut rx) = new_pair::<u64, 16>();

    for i in 0..=14u16 {
        assert!(tx.push(i, i as u64).is_ok());
    }

    // 15 of 16 slots are taken, there is room for just one more
    //
    // the packet with number 16 needs a placeholder for 15 before it, which fits; the packet
    // itself does not any more and is handed back. the place is kept for 15 although it may
    // never arrive: two lost frames in a row are easier to conceal than a jump from 14 to 16.

    let res = tx.push(16, 16);
    assert!(matches!(res, Err(PushError::Full(16u16, 16u64))));

    for i in 0..14u16 {
        assert_eq!(tx.cell(i as usize), CellState::Data(i).pack());
    }

    assert_eq!(tx.cell(15), CellState::Reserved(15).pack());

    for i in 0..=14u16 {
        let res = rx.pop();
        assert!(matches!(res, PopResult::Data(s, d) if s == i && d == i as u64));
    }

    assert!(matches!(rx.pop(), PopResult::Missing(15)));

    let res = rx.pop();
    assert!(matches!(res, PopResult::Empty));
}

#[test]
fn full() {
    let (mut tx, mut rx) = new_pair::<u64, 16>();

    for i in 0..16u16 {
        match tx.push(i, i as u64) {
            Ok(()) => {}
            Err(e) => panic!("expected no push error, found {:?}", e),
        }
    }

    let res = tx.push(16u16, 16u64);
    assert!(matches!(res, Err(PushError::Full(16u16, 16u64))));

    for i in 0..16u16 {
        let res = rx.pop();

        assert!(matches!(res, PopResult::Data(s, d) if s == i && d == i as u64));
    }
}

/// Counts how many times a dummy was dropped.
struct DummyHandle(Arc<AtomicUsize>);

impl DummyHandle {
    fn load_drop_count(&self) -> usize {
        self.0.load(Ordering::Relaxed)
    }
}

#[derive(Debug)]
enum DropDummy {
    Counted(Arc<AtomicUsize>),
    Uncounted,
}

impl DropDummy {
    fn new_counted() -> (Self, DummyHandle) {
        let dropped_count = Arc::new(AtomicUsize::new(0));
        (
            DropDummy::Counted(dropped_count.clone()),
            DummyHandle(dropped_count),
        )
    }

    fn new_uncounted() -> Self {
        DropDummy::Uncounted
    }
}

impl Drop for DropDummy {
    fn drop(&mut self) {
        if let DropDummy::Counted(dropped_count) = self {
            dropped_count.fetch_add(1, Ordering::Relaxed);
        }
    }
}

fn check_and_count_drops(handles: &[(usize, DummyHandle)]) -> usize {
    handles
        .iter()
        .map(|(id, h)| {
            let ct = h.load_drop_count();

            if ct > 1 {
                panic!("DropDummy {} was dropped {} times", id, ct);
            }

            ct
        })
        .sum()
}

#[test]
fn drop_exactly_once() {
    let mut handles = Vec::new();

    let (mut tx, mut rx) = new_pair::<DropDummy, 64>();

    // inserting 64 items
    for i in 0..64usize {
        let (dd, h) = DropDummy::new_counted();
        handles.push((i, h));
        assert!(tx.push(i as u16, dd).is_ok());
    }

    assert_eq!(rx.len_hint(), 64);
    assert_eq!(check_and_count_drops(&handles), 0);

    for _ in 0..32 {
        assert!(matches!(rx.pop(), PopResult::Data(_, _)));
    }

    assert_eq!(rx.len_hint(), 32);
    assert_eq!(check_and_count_drops(&handles), 32);

    let dd = DropDummy::new_uncounted();

    // a big skip in the sequence number gives up the contents of the buffer. the 32 dummies
    // that are left stay stored and can no longer be popped; they are dropped when their slots
    // are written to again.
    assert!(tx.push(1000, dd).is_ok());

    assert_eq!(rx.len_hint(), 33);

    // dummies still there, not dropped
    assert_eq!(check_and_count_drops(&handles), 32);

    // the reader passes over 32 slots
    assert!(matches!(
        rx.pop(),
        PopResult::Data(1000, DropDummy::Uncounted)
    ));

    // still there
    assert_eq!(check_and_count_drops(&handles), 32);

    // a single pop has brought len_hint from 33 to 0
    assert_eq!(rx.len_hint(), 0);

    // pushing 31 further dummies
    for i in 1001..1032 {
        let dd = DropDummy::new_uncounted();
        assert!(tx.push(i, dd).is_ok());
    }

    // these went to other slots
    assert_eq!(check_and_count_drops(&handles), 32);

    // pushing 32 further dummies
    for i in 1032..1064 {
        let dd = DropDummy::new_uncounted();
        assert!(tx.push(i, dd).is_ok());
    }

    assert_eq!(check_and_count_drops(&handles), 64);

    drop(tx);
    drop(rx);

    assert_eq!(check_and_count_drops(&handles), 64)
}

/// Looks at its buffer when it is dropped.
struct Looking(Arc<Mutex<Option<Reader<Looking, 4>>>>);

impl Drop for Looking {
    fn drop(&mut self) {
        if let Some(rx) = self.0.lock().unwrap().as_mut() {
            rx.len_hint();
        }
    }
}

#[test]
fn dropping_a_value_may_use_the_buffer() {
    let (mut tx, rx) = new_pair::<Looking, 4>();
    let reader = Arc::new(Mutex::new(None));
    for seq in 0..3 {
        assert!(tx.push(seq, Looking(reader.clone())).is_ok());
    }
    // gives up what is there
    assert!(tx.push(500, Looking(reader.clone())).is_ok());
    *reader.lock().unwrap() = Some(rx);
    let popped = reader.lock().unwrap().as_mut().map(|rx| rx.pop());
    assert!(matches!(popped, Some(PopResult::Data(500, _))));
    drop(popped);
    // drops what was left in the first slots
    assert!(tx.push(501, Looking(reader.clone())).is_ok());
    assert!(tx.push(503, Looking(reader.clone())).is_ok());
    let left = reader.lock().unwrap().take();
    drop(left);
}
