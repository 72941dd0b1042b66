//! The ring seen as a queue of entries.

use crate::buffer::{PopResult, PushError};
use crate::cell_state::CellState;
use crate::model::{
    handed, jumps, leading_skips, pop_outcome, push_outcome, seq_gap, Entry, RingView,
};
use crate::wrapping::{
    advance, ahead, lemma_slot_of_advance, lemma_steps_between, lemma_steps_to, power_of_two,
    seq_add, slot_of,
};
use vstd::prelude::*;

verus! {

/// `count` entries to be passed over.
pub open spec fn skips<T>(count: int) -> Seq<Entry<T>> {
    Seq::new(count as nat, |i: int| Entry::<T>::Skip)
}

/// `count` placeholders, for the sequence numbers from `seq` on.
pub open spec fn placeholders<T>(seq: u16, count: int) -> Seq<Entry<T>> {
    Seq::new(count as nat, |i: int| Entry::<T>::Missing(seq_add(seq, i)))
}

/// What comes of a push, seen as one to a queue.
pub struct QueueOutcome<T> {
    /// The queue after it.
    pub entries: Seq<Entry<T>>,
    /// The sequence number that is expected next.
    pub expected_seq: u16,
    /// What the caller is told.
    pub result: Result<(), PushError<T>>,
}

/// What comes of pushing `data` under number `seq` to a queue with room for
/// `capacity` entries, where number `expected` is expected.
pub open spec fn queue_push<T>(
    entries: Seq<Entry<T>>,
    capacity: int,
    expected: u16,
    seq: u16,
    data: T,
) -> QueueOutcome<T> {
    let room = capacity - entries.len();
    let gap = seq_gap(expected, seq);
    let place = entries.len() + gap;
    if jumps(expected, seq, capacity) {
        if room > 0 {
            QueueOutcome {
                entries: skips(entries.len() as int).push(Entry::Data(seq, data)),
                expected_seq: seq_add(seq, 1),
                result: Ok(()),
            }
        } else {
            QueueOutcome {
                entries: skips(entries.len() as int),
                expected_seq: seq_add(seq, 1),
                result: Err(PushError::Full(seq, data)),
            }
        }
    } else if gap < 0 {
        if place >= 0 && entries[place] == Entry::<T>::Missing(seq) {
            QueueOutcome {
                entries: entries.update(place, Entry::Data(seq, data)),
                expected_seq: expected,
                result: Ok(()),
            }
        } else {
            QueueOutcome {
                entries,
                expected_seq: expected,
                result: Err(PushError::Stale(seq, data)),
            }
        }
    } else if gap < room {
        QueueOutcome {
            entries: (entries + placeholders(expected, gap)).push(Entry::Data(seq, data)),
            expected_seq: seq_add(seq, 1),
            result: Ok(()),
        }
    } else {
        QueueOutcome {
            entries: entries + placeholders(expected, room),
            expected_seq: seq_add(expected, room),
            result: Err(PushError::Full(seq, data)),
        }
    }
}

/// What is left of a queue after a pop.
pub open spec fn queue_popped<T>(entries: Seq<Entry<T>>) -> Seq<Entry<T>> {
    let skips = leading_skips(entries) as int;
    if skips < entries.len() {
        entries.skip(skips + 1)
    } else {
        Seq::empty()
    }
}

/// What a pop from a queue hands out.
pub open spec fn queue_front<T>(entries: Seq<Entry<T>>) -> PopResult<T> {
    let skips = leading_skips(entries) as int;
    if skips < entries.len() {
        handed(entries[skips])
    } else {
        PopResult::Empty
    }
}

/// Positions within one turn of the ring have slots of their own.
pub proof fn lemma_slots<T>(ring: RingView<T>)
    requires
        ring.valid(),
        power_of_two(ring.capacity()),
    ensures
        forall|k: int|
            0 <= k < ring.capacity() ==> 0 <= #[trigger] ring.slot(k) < ring.capacity(),
        forall|j: int, k: int|
            0 <= j < ring.capacity() && 0 <= k < ring.capacity() && #[trigger] ring.slot(j)
                == #[trigger] ring.slot(k) ==> j == k,
        advance(ring.read_head, ring.len()) == ring.write_head,
{
    let n = ring.capacity();
    assert forall|k: int| 0 <= k < n implies 0 <= #[trigger] ring.slot(k) < n by {
        lemma_slot_of_advance(ring.read_head, k, n);
    }
    assert forall|j: int, k: int|
        0 <= j < n && 0 <= k < n && #[trigger] ring.slot(j) == #[trigger] ring.slot(
            k,
        ) implies j == k by {
        lemma_steps_to(ring.read_head, j, ring.slot(j), n);
        lemma_steps_to(ring.read_head, k, ring.slot(j), n);
    }
}

/// Appending a packet to the ring is appending it to the queue.
pub proof fn lemma_appended<T>(ring: RingView<T>, seq: u16, data: T)
    requires
        ring.valid(),
        power_of_two(ring.capacity()),
        ring.len() < ring.capacity(),
    ensures
        ring.appended(seq, data).valid(),
        ring.appended(seq, data).capacity() == ring.capacity(),
        ring.appended(seq, data).len() == ring.len() + 1,
        ring.appended(seq, data).entries() == ring.entries().push(Entry::Data(seq, data)),
{
    let next = ring.appended(seq, data);
    lemma_slots(ring);
    assert(next.len() == ring.len() + 1);
    assert(slot_of(ring.write_head, ring.capacity()) == ring.slot(ring.len()));
    assert forall|k: int| 0 <= k < next.len() implies #[trigger] next.slot(k) == ring.slot(
        k,
    ) && next.entry(next.slot(k)) == ring.entries().push(Entry::Data(seq, data))[k] && (
    next.cells[next.slot(k)] is Data ==> next.vals[next.slot(k)] is Some) by {
        if k < ring.len() {
            assert(ring.slot(k) != ring.slot(ring.len()));
        }
    }
    assert(next.entries() =~= ring.entries().push(Entry::Data(seq, data)));
}

/// Appending placeholders to the ring is appending them to the queue.
pub proof fn lemma_reserved<T>(ring: RingView<T>, seq: u16, count: int)
    requires
        ring.valid(),
        power_of_two(ring.capacity()),
        0 <= count <= ring.capacity() - ring.len(),
    ensures
        ring.reserved(seq, count).valid(),
        ring.reserved(seq, count).capacity() == ring.capacity(),
        ring.reserved(seq, count).len() == ring.len() + count,
        ring.reserved(seq, count).entries() == ring.entries() + placeholders::<T>(seq, count),
{
    let n = ring.capacity();
    let next = ring.reserved(seq, count);
    lemma_slots(ring);
    assert(next.len() == ring.len() + count);
    assert forall|k: int| 0 <= k < next.len() implies #[trigger] next.slot(k) == ring.slot(
        k,
    ) && next.entry(next.slot(k)) == (ring.entries() + placeholders::<T>(seq, count))[k] && (
    next.cells[next.slot(k)] is Data ==> next.vals[next.slot(k)] is Some) by {
        lemma_steps_between(ring.read_head, ring.len(), k, n);
    }
    assert(next.entries() =~= ring.entries() + placeholders::<T>(seq, count));
}

/// Flushing the ring leaves only entries to be passed over.
pub proof fn lemma_flushed<T>(ring: RingView<T>, read: usize)
    requires
        ring.valid(),
        power_of_two(ring.capacity()),
        ring.observable(read),
    ensures
        ring.flushed(read).valid(),
        ring.flushed(read).capacity() == ring.capacity(),
        ring.flushed(read).len() == ring.len(),
        ring.flushed(read).entries() == skips::<T>(ring.len()),
{
    let n = ring.capacity();
    let next = ring.flushed(read);
    let m = ahead(read, ring.read_head);
    lemma_slots(ring);
    assert forall|k: int| 0 <= k < next.len() implies #[trigger] next.slot(k) == ring.slot(
        k,
    ) && next.cells[next.slot(k)] == CellState::Skip by {
        lemma_steps_to(read, m + k, ring.slot(k), n);
        assert(advance(read, m + k) == advance(ring.read_head, k));
    }
    assert(next.entries() =~= skips::<T>(ring.len()));
}

/// Filling a placeholder of the ring is filling it in the queue. Where the
/// reader has passed it, nothing that can be read changes.
pub proof fn lemma_filled<T>(ring: RingView<T>, read: usize, back: int, seq: u16, data: T)
    requires
        ring.valid(),
        power_of_two(ring.capacity()),
        ring.observable(read),
        0 < back <= ahead(read, ring.write_head),
    ensures
        ({
            let i = ring.slot_behind(read, back);
            let next = ring.filled(i, seq, data);
            &&& 0 <= i < ring.capacity()
            &&& next.valid()
            &&& next.capacity() == ring.capacity()
            &&& back <= ring.len() ==> {
                &&& i == ring.slot(ring.len() - back)
                &&& next.entries() == ring.entries().update(
                    ring.len() - back,
                    Entry::Data(seq, data),
                )
            }
            &&& back > ring.len() ==> next.entries() == ring.entries()
        }),
{
    let n = ring.capacity();
    let i = ring.slot_behind(read, back);
    let next = ring.filled(i, seq, data);
    let m = ahead(read, ring.read_head);
    let used = ahead(read, ring.write_head);
    lemma_slots(ring);
    lemma_slot_of_advance(read, used - back, n);
    assert forall|k: int| 0 <= k < ring.len() implies #[trigger] next.slot(k) == ring.slot(k) && (
    ring.slot(k) == i <==> k == ring.len() - back) by {
        assert(advance(read, m + k) == advance(ring.read_head, k));
        lemma_steps_to(read, used - back, ring.slot(k), n);
        lemma_steps_to(read, m + k, ring.slot(k), n);
    }
    assert forall|k: int|
        0 <= k < next.len() && next.cells[#[trigger] next.slot(k)] is Data implies (
    next.vals[next.slot(k)] is Some) by {
        assert(next.slot(k) == ring.slot(k));
    }
    if back <= ring.len() {
        assert(ring.slot(ring.len() - back) == i);
        assert(next.entries() =~= ring.entries().update(ring.len() - back, Entry::Data(seq, data)));
    } else {
        assert(next.entries() =~= ring.entries());
    }
}

/// Moving the reader on takes entries off the front of the queue.
pub proof fn lemma_taken<T>(ring: RingView<T>, k: int)
    requires
        ring.valid(),
        0 <= k < ring.len(),
    ensures
        ring.taken(k).valid(),
        ring.taken(k).capacity() == ring.capacity(),
        ring.taken(k).len() == ring.len() - k - 1,
        ring.taken(k).entries() == ring.entries().skip(k + 1),
{
    let next = ring.taken(k);
    lemma_slots(ring);
    assert(next.len() == ring.len() - k - 1);
    assert forall|j: int| 0 <= j < next.len() implies #[trigger] next.slot(j) == ring.slot(
        j + k + 1,
    ) && next.slot(j) != ring.slot(k) by {
        assert(advance(next.read_head, j) == advance(ring.read_head, j + k + 1));
        assert(next.slot(j) == ring.slot(j + k + 1));
        assert(j + k + 1 != k);
    }
    assert forall|j: int|
        0 <= j < next.len() && next.cells[#[trigger] next.slot(j)] is Data implies (
    next.vals[next.slot(j)] is Some) by {
        assert(next.slot(j) == ring.slot(j + k + 1));
    }
    assert(next.entries() =~= ring.entries().skip(k + 1));
}

/// The ring is a queue to a writer that has seen where the reader is: a push
/// does to the entries what [`queue_push`] says, and leaves a valid state.
pub proof fn law_push_is_queue_push<T>(ring: RingView<T>, expected: u16, seq: u16, data: T)
    requires
        ring.valid(),
        power_of_two(ring.capacity()),
    ensures
        ({
            let outcome = push_outcome(ring, expected, ring.read_head, seq, data);
            let queue = queue_push(ring.entries(), ring.capacity(), expected, seq, data);
            &&& outcome.ring.valid()
            &&& outcome.ring.capacity() == ring.capacity()
            &&& outcome.ring.entries() == queue.entries
            &&& outcome.expected_seq == queue.expected_seq
            &&& outcome.result == queue.result
        }),
{
    let n = ring.capacity();
    let gap = seq_gap(expected, seq);
    let room = n - ring.len();
    if jumps(expected, seq, n) {
        lemma_flushed(ring, ring.read_head);
        if room > 0 {
            lemma_appended(ring.flushed(ring.read_head), seq, data);
        }
    } else if gap < 0 {
        if -gap <= ring.len() {
            lemma_filled(ring, ring.read_head, -gap, seq, data);
        }
    } else if gap < room {
        lemma_reserved(ring, expected, gap);
        lemma_appended(ring.reserved(expected, gap), seq, data);
    } else {
        lemma_reserved(ring, expected, room);
    }
}

/// The entries that are passed over are at most all.
pub proof fn lemma_leading_skips_bound<T>(entries: Seq<Entry<T>>)
    ensures
        leading_skips(entries) <= entries.len(),
        forall|i: int| 0 <= i < leading_skips(entries) ==> #[trigger] entries[i] is Skip,
        leading_skips(entries) < entries.len() ==> !(
        entries[leading_skips(entries) as int] is Skip),
    decreases entries.len(),
{
    if entries.len() > 0 && entries[0] is Skip {
        let rest = entries.skip(1);
        lemma_leading_skips_bound(rest);
        assert forall|i: int| 0 <= i < leading_skips(entries) implies (
        #[trigger] entries[i] is Skip) by {
            if i > 0 {
                assert(rest[i - 1] is Skip);
            }
        }
    }
}

/// The ring is a queue to the reader: a pop hands out the first entry that is
/// not to be passed over, takes it and those before it away, and leaves a valid
/// state.
pub proof fn law_pop_is_queue_pop<T>(ring: RingView<T>)
    requires
        ring.valid(),
    ensures
        pop_outcome(ring).0.valid(),
        pop_outcome(ring).0.capacity() == ring.capacity(),
        pop_outcome(ring).0.entries() == queue_popped(ring.entries()),
        pop_outcome(ring).1 == queue_front(ring.entries()),
{
    let k = leading_skips(ring.entries()) as int;
    lemma_leading_skips_bound(ring.entries());
    if k < ring.len() {
        lemma_taken(ring, k);
    } else {
        assert(advance(ring.read_head, k) == ring.write_head);
        assert(pop_outcome(ring).0.entries() =~= Seq::empty());
    }
}

} // verus!
