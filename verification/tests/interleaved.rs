//! Both ends at work in turns. A push and a pop each hold the lock from
//! beginning to end, so the schedules here are all that two threads can come to.

use orb::buffer::{new_pair, PopResult, PushError, Reader, Writer};
use rand::rngs::SmallRng;
use rand::{RngExt, SeedableRng};

/// Pushes and pops in turns, as `schedule` has it, until everything has been
/// pushed and popped. What comes out is numbered without a gap, and each packet
/// under its own number.
fn test_unique_helper(
    vals_to_push: Vec<(u16, u64)>,
    mut tx: Writer<u64, 8>,
    mut rx: Reader<u64, 8>,
    schedule: &mut SmallRng,
) {
    let expected = vals_to_push.clone();
    let mut pushed: usize = 0;
    let mut seen = Vec::with_capacity(expected.len());

    'outer: while seen.len() <= expected.len() {
        if pushed < vals_to_push.len() && schedule.random_range(0..2u8) == 0 {
            let (seq, data) = vals_to_push[pushed];
            match tx.push(seq, data) {
                Ok(()) => pushed += 1,
                Err(PushError::Full(s, d)) => {
                    assert_eq!((s, d), (seq, data));
                }
                Err(PushError::Stale(s, d)) => {
                    assert_eq!((s, d), (seq, data));
                    pushed += 1;
                }
            }
        } else {
            match rx.pop() {
                PopResult::Empty => {
                    if pushed == vals_to_push.len() {
                        break 'outer;
                    }
                }
                res => seen.push(res),
            }
        }
    }

    assert_eq!(seen.len(), expected.len());

    for (s, d) in seen.into_iter().enumerate() {
        match d {
            PopResult::Missing(seq) => assert_eq!(seq, s as u16),
            PopResult::Data(seq, u) => {
                assert_eq!(seq, s as u16);
                assert_eq!(u, s as u64);
            }
            PopResult::Empty => unreachable!(),
        }
    }
}

#[test]
fn unique() {
    let vals_to_push = (0..100).map(|i| (i, i as u64)).collect::<Vec<(u16, u64)>>();
    let mut schedule = SmallRng::seed_from_u64(1);

    for _ in 0..100 {
        let (tx, rx) = new_pair();
        test_unique_helper(vals_to_push.clone(), tx, rx, &mut schedule);
    }
}

#[test]
fn unique_with_reorder() {
    fn permute_slightly(v: &mut [(u16, u64)]) {
        // has to be small in comparison with the capacity of the buffer
        const MAX_REORDER_DIST: usize = 2;
        let mut already_reordered = vec![false; v.len()];
        let mut rng = SmallRng::seed_from_u64(123);

        for i in 1..v.len() {
            let j = rng.random_range((i + 1)..=(i + MAX_REORDER_DIST));
            if j < v.len() && !already_reordered[j] && !already_reordered[i] {
                already_reordered[j] = true;
                already_reordered[i] = true;
                (v[i], v[j]) = (v[j], v[i]);
            }
        }
    }
    let mut vals_to_push = (0..100).map(|i| (i, i as u64)).collect::<Vec<(u16, u64)>>();
    permute_slightly(&mut vals_to_push);

    let mut max_gap = 0;

    for i in 1..vals_to_push.len() {
        let gap = vals_to_push[i].0.abs_diff(vals_to_push[i - 1].0);
        max_gap = max_gap.max(gap);
    }

    assert!(max_gap < 8);

    let mut schedule = SmallRng::seed_from_u64(2);

    for _ in 0..100 {
        let (tx, rx) = new_pair();
        test_unique_helper(vals_to_push.clone(), tx, rx, &mut schedule);
    }
}

#[test]
fn pushed_in_order_popped_in_order() {
    let mut schedule = SmallRng::seed_from_u64(3);

    for _ in 0..100 {
        let (mut tx, mut rx) = new_pair::<u64, 8>();
        let vals_to_push = (0..100).map(|i| (i, i as u64)).collect::<Vec<(u16, u64)>>();
        let mut pushed: usize = 0;
        let mut seen = Vec::with_capacity(vals_to_push.len());

        while seen.len() < vals_to_push.len() {
            if pushed < vals_to_push.len() && schedule.random_range(0..2u8) == 0 {
                let (seq, data) = vals_to_push[pushed];
                match tx.push(seq, data) {
                    Ok(()) => pushed += 1,
                    Err(PushError::Full(s, d)) => assert_eq!((s, d), (seq, data)),
                    Err(PushError::Stale(_, _)) => unreachable!(),
                }
            } else {
                match rx.pop() {
                    PopResult::Data(s, d) => seen.push((s, d)),
                    PopResult::Missing(_) => unreachable!(),
                    PopResult::Empty => {}
                }
            }
        }

        assert_eq!(seen, vals_to_push);
        assert!(matches!(rx.pop(), PopResult::Empty));
    }
}

#[test]
fn reorder_insert() {
    // how many pops come after the first, the second and the third push
    for first in 0..4 {
        for second in 0..4 {
            let (mut tx, mut rx) = new_pair::<u64, 4>();
            let mut seen = Vec::new();

            let mut pop = |count: usize| {
                for _ in 0..count {
                    match rx.pop() {
                        PopResult::Empty => {}
                        s => seen.push(s),
                    }
                }
            };

            assert!(matches!(tx.push(0, 0), Ok(())));
            pop(first);
            assert!(matches!(tx.push(2, 2), Ok(())));
            pop(second);
            // once the reader has passed 1, it can't be inserted any more
            assert!(matches!(
                tx.push(1, 1),
                Err(PushError::Stale(1, 1)) | Ok(())
            ));
            pop(4);

            assert_eq!(seen.len(), 3);
            assert!(matches!(seen[0], PopResult::Data(0, 0u64)));
            assert!(matches!(
                seen[1],
                PopResult::Data(1, 1) | PopResult::Missing(1)
            ));
            assert!(matches!(seen[2], PopResult::Data(2, 2)));
        }
    }
}
