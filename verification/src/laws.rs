//! What holds of the buffer as a whole.

use crate::buffer::{PopResult, PushError};
use crate::cell_state::{is_packed, packed, unpacked, CellState};
use crate::model::{
    jumps, leading_skips, lemma_gap_of_seq_add, lemma_leading_skips, lemma_seq_gap,
    look_outcome, pop_outcome, push_outcome, seq_gap, Entry, RingView,
};
use crate::queue::{
    law_pop_is_queue_pop, law_push_is_queue_push, lemma_appended, lemma_filled, lemma_flushed,
    lemma_leading_skips_bound, lemma_reserved, lemma_slots, lemma_taken, placeholders, skips,
};
use crate::wrapping::{
    ahead, lemma_seq_add_add, lemma_steps_between,
    power_of_two, seq_add, slot_of,
};
use vstd::prelude::*;

verus! {

/// A state comes back from its packed form.
pub proof fn law_pack_unpack(state: CellState)
    ensures
        is_packed(packed(state)),
        unpacked(packed(state)) == state,
{
}

/// Every state that a push leaves behind is valid, whatever the writer has
/// seen of the reader: no more is stored than there is room for, and what is
/// said to be stored is.
pub proof fn law_push_keeps_valid<T>(
    ring: RingView<T>,
    expected: u16,
    read: usize,
    seq: u16,
    data: T,
)
    requires
        ring.valid(),
        power_of_two(ring.capacity()),
        ring.observable(read),
    ensures
        push_outcome(ring, expected, read, seq, data).ring.valid(),
        push_outcome(ring, expected, read, seq, data).ring.capacity() == ring.capacity(),
        push_outcome(ring, expected, read, seq, data).ring.read_head == ring.read_head,
{
    let n = ring.capacity();
    let gap = seq_gap(expected, seq);
    let used = ahead(read, ring.write_head);
    if jumps(expected, seq, n) {
        lemma_flushed(ring, read);
        if used < n {
            lemma_appended(ring.flushed(read), seq, data);
        }
    } else if gap < 0 {
        if -gap <= used {
            lemma_filled(ring, read, -gap, seq, data);
        }
    } else if gap < n - used {
        lemma_reserved(ring, expected, gap);
        lemma_appended(ring.reserved(expected, gap), seq, data);
    } else {
        lemma_reserved(ring, expected, n - used);
    }
}

/// Every state that a pop leaves behind is valid.
pub proof fn law_pop_keeps_valid<T>(ring: RingView<T>)
    requires
        ring.valid(),
    ensures
        pop_outcome(ring).0.valid(),
        pop_outcome(ring).0.capacity() == ring.capacity(),
        pop_outcome(ring).0.write_head == ring.write_head,
{
    law_pop_is_queue_pop(ring);
}

/// The sequence numbers that are not far off are those in the range around the
/// expected one, from `capacity` before it up to `capacity` after it, both ends
/// with it. The expected number itself always is.
pub proof fn law_jump_window(expected: u16, seq: u16, capacity: int)
    requires
        0 < capacity,
    ensures
        !jumps(expected, seq, capacity) <==> exists|d: int|
            -capacity <= d <= capacity && seq == #[trigger] seq_add(expected, d),
        !jumps(expected, expected, capacity),
{
    lemma_seq_gap(expected, seq);
    if exists|d: int| -capacity <= d <= capacity && seq == #[trigger] seq_add(expected, d) {
        let d = choose|d: int|
            -capacity <= d <= capacity && seq == #[trigger] seq_add(expected, d);
        if -0x8000 <= d < 0x8000 {
            lemma_gap_of_seq_add(expected, d);
        }
    }
}

/// The sequence number of an entry that has one.
pub open spec fn number<T>(entry: Entry<T>) -> Option<u16> {
    match entry {
        Entry::Skip => None,
        Entry::Missing(seq) => Some(seq),
        Entry::Data(seq, _) => Some(seq),
    }
}

/// The sequence numbers of the entries run up to the expected one without gaps,
/// an entry to be passed over standing for its number.
pub open spec fn in_step<T>(entries: Seq<Entry<T>>, expected: u16) -> bool {
    forall|k: int|
        0 <= k < entries.len() ==> (number(#[trigger] entries[k]) is None || number(entries[k])
            == Some(seq_add(expected, k - entries.len())))
}

proof fn lemma_step_append<T>(entries: Seq<Entry<T>>, expected: u16, data: T)
    requires
        in_step(entries, expected),
    ensures
        in_step(entries.push(Entry::Data(expected, data)), seq_add(expected, 1)),
{
    let next = entries.push(Entry::Data(expected, data));
    assert forall|k: int| 0 <= k < next.len() implies (number(#[trigger] next[k]) is None || number(
        next[k],
    ) == Some(seq_add(seq_add(expected, 1), k - next.len()))) by {
        lemma_seq_add_add(expected, 1, k - next.len());
        if k < entries.len() {
            assert(next[k] == entries[k]);
        }
    }
}

proof fn lemma_step_placeholders<T>(entries: Seq<Entry<T>>, expected: u16, count: int)
    requires
        in_step(entries, expected),
        0 <= count,
    ensures
        in_step(entries + placeholders::<T>(expected, count), seq_add(expected, count)),
{
    let next = entries + placeholders::<T>(expected, count);
    assert forall|k: int| 0 <= k < next.len() implies (number(#[trigger] next[k]) is None || number(
        next[k],
    ) == Some(seq_add(seq_add(expected, count), k - next.len()))) by {
        lemma_seq_add_add(expected, count, k - next.len());
        if k < entries.len() {
            assert(next[k] == entries[k]);
        }
    }
}

/// A push keeps the entries in step with the expected sequence number, whatever
/// the writer has seen of the reader.
pub proof fn law_push_keeps_step<T>(
    ring: RingView<T>,
    expected: u16,
    read: usize,
    seq: u16,
    data: T,
)
    requires
        ring.valid(),
        power_of_two(ring.capacity()),
        ring.observable(read),
        in_step(ring.entries(), expected),
    ensures
        in_step(
            push_outcome(ring, expected, read, seq, data).ring.entries(),
            push_outcome(ring, expected, read, seq, data).expected_seq,
        ),
{
    let n = ring.capacity();
    let gap = seq_gap(expected, seq);
    let used = ahead(read, ring.write_head);
    let entries = ring.entries();
    lemma_seq_gap(expected, seq);
    if jumps(expected, seq, n) {
        lemma_flushed(ring, read);
        if used < n {
            lemma_appended(ring.flushed(read), seq, data);
            lemma_step_append(skips::<T>(ring.len()), seq, data);
        }
    } else if gap < 0 {
        if -gap <= used {
            lemma_filled(ring, read, -gap, seq, data);
        }
    } else if gap < n - used {
        lemma_reserved(ring, expected, gap);
        lemma_appended(ring.reserved(expected, gap), seq, data);
        lemma_step_placeholders(entries, expected, gap);
        lemma_step_append(entries + placeholders::<T>(expected, gap), seq, data);
    } else {
        lemma_reserved(ring, expected, n - used);
        lemma_step_placeholders(entries, expected, n - used);
    }
}

/// A pop keeps the entries in step with the expected sequence number.
pub proof fn law_pop_keeps_step<T>(ring: RingView<T>, expected: u16)
    requires
        ring.valid(),
        in_step(ring.entries(), expected),
    ensures
        in_step(pop_outcome(ring).0.entries(), expected),
{
    law_pop_is_queue_pop(ring);
}

/// A packet that arrives late goes to its placeholder, and nothing else
/// changes. Numbers repeat after 0x10000, so that takes a placeholder no more
/// than half of that back.
pub proof fn law_late_packet_fills_placeholder<T>(
    ring: RingView<T>,
    expected: u16,
    k: int,
    seq: u16,
    data: T,
)
    requires
        ring.valid(),
        power_of_two(ring.capacity()),
        in_step(ring.entries(), expected),
        0 <= k < ring.len(),
        ring.entries()[k] == Entry::<T>::Missing(seq),
        ring.len() - k <= 0x8000,
    ensures
        ({
            let outcome = push_outcome(ring, expected, ring.read_head, seq, data);
            &&& outcome.result == Ok::<(), PushError<T>>(())
            &&& outcome.expected_seq == expected
            &&& outcome.ring.entries() == ring.entries().update(k, Entry::Data(seq, data))
        }),
{
    law_push_is_queue_push(ring, expected, seq, data);
    assert(number(ring.entries()[k]) is Some);
    assert(seq == seq_add(expected, k - ring.len()));
    lemma_gap_of_seq_add(expected, k - ring.len());
}

/// A packet that is already in the buffer is refused and handed back when it
/// comes again, and nothing changes. Numbers repeat after 0x10000, so that takes
/// a packet no more than half of that back.
pub proof fn law_duplicate_is_stale<T>(
    ring: RingView<T>,
    expected: u16,
    k: int,
    seq: u16,
    first: T,
    again: T,
)
    requires
        ring.valid(),
        power_of_two(ring.capacity()),
        in_step(ring.entries(), expected),
        0 <= k < ring.len(),
        ring.entries()[k] == Entry::Data(seq, first),
        ring.len() - k <= 0x8000,
    ensures
        ({
            let outcome = push_outcome(ring, expected, ring.read_head, seq, again);
            &&& outcome.result == Err::<(), PushError<T>>(PushError::Stale(seq, again))
            &&& outcome.expected_seq == expected
            &&& outcome.ring == ring
        }),
{
    law_push_is_queue_push(ring, expected, seq, again);
    assert(number(ring.entries()[k]) is Some);
    assert(seq == seq_add(expected, k - ring.len()));
    lemma_gap_of_seq_add(expected, k - ring.len());
    lemma_filled(ring, ring.read_head, ring.len() - k, seq, again);
}

/// A packet that comes after the reader has passed its position is refused and
/// handed back, and nothing changes.
pub proof fn law_passed_packet_is_stale<T>(ring: RingView<T>, expected: u16, seq: u16, data: T)
    requires
        ring.valid(),
        !jumps(expected, seq, ring.capacity()),
        seq_gap(expected, seq) < -ring.len(),
    ensures
        ({
            let outcome = push_outcome(ring, expected, ring.read_head, seq, data);
            &&& outcome.result == Err::<(), PushError<T>>(PushError::Stale(seq, data))
            &&& outcome.expected_seq == expected
            &&& outcome.ring == ring
        }),
{
}

/// A packet with the expected number is appended where there is room.
pub proof fn law_expected_packet_is_appended<T>(ring: RingView<T>, expected: u16, data: T)
    requires
        ring.valid(),
        power_of_two(ring.capacity()),
        ring.len() < ring.capacity(),
    ensures
        ({
            let outcome = push_outcome(ring, expected, ring.read_head, expected, data);
            &&& outcome.result == Ok::<(), PushError<T>>(())
            &&& outcome.expected_seq == seq_add(expected, 1)
            &&& outcome.ring.entries() == ring.entries().push(Entry::Data(expected, data))
        }),
{
    law_push_is_queue_push(ring, expected, expected, data);
    assert(ring.entries() + placeholders::<T>(expected, 0) =~= ring.entries());
}

/// A packet from the near future is appended after a placeholder for each
/// number that it leaves out, in order, where there is room for all of that. The
/// near future is less than half of the numbers ahead.
pub proof fn law_gap_is_reserved<T>(ring: RingView<T>, expected: u16, gap: int, data: T)
    requires
        ring.valid(),
        power_of_two(ring.capacity()),
        0 <= gap < 0x8000,
        ring.len() + gap < ring.capacity(),
    ensures
        ({
            let seq = seq_add(expected, gap);
            let outcome = push_outcome(ring, expected, ring.read_head, seq, data);
            &&& outcome.result == Ok::<(), PushError<T>>(())
            &&& outcome.expected_seq == seq_add(seq, 1)
            &&& outcome.ring.entries() == (ring.entries() + placeholders::<T>(expected, gap)).push(
                Entry::Data(seq, data),
            )
        }),
{
    let seq = seq_add(expected, gap);
    law_push_is_queue_push(ring, expected, seq, data);
    lemma_gap_of_seq_add(expected, gap);
}

/// Where there is no room for a packet from the near future, the placeholders
/// that fit are appended, the packet is handed back, and the next number that
/// is expected is the one after the last placeholder.
pub proof fn law_full_keeps_placeholders<T>(ring: RingView<T>, expected: u16, gap: int, data: T)
    requires
        ring.valid(),
        power_of_two(ring.capacity()),
        0 <= gap < 0x8000,
        gap <= ring.capacity() <= ring.len() + gap,
    ensures
        ({
            let seq = seq_add(expected, gap);
            let room = ring.capacity() - ring.len();
            let outcome = push_outcome(ring, expected, ring.read_head, seq, data);
            &&& outcome.result == Err::<(), PushError<T>>(PushError::Full(seq, data))
            &&& outcome.expected_seq == seq_add(expected, room)
            &&& outcome.ring.entries() == ring.entries() + placeholders::<T>(expected, room)
        }),
{
    let seq = seq_add(expected, gap);
    law_push_is_queue_push(ring, expected, seq, data);
    lemma_gap_of_seq_add(expected, gap);
}

/// A packet from far off empties the buffer and is the next to be popped, after
/// which there is nothing left.
pub proof fn law_jump_starts_over<T>(ring: RingView<T>, expected: u16, seq: u16, data: T)
    requires
        ring.valid(),
        power_of_two(ring.capacity()),
        ring.len() < ring.capacity(),
        jumps(expected, seq, ring.capacity()),
    ensures
        ({
            let outcome = push_outcome(ring, expected, ring.read_head, seq, data);
            &&& outcome.result == Ok::<(), PushError<T>>(())
            &&& outcome.expected_seq == seq_add(seq, 1)
            &&& pop_outcome(outcome.ring).1 == PopResult::Data(seq, data)
            &&& pop_outcome(outcome.ring).0.entries() == Seq::<Entry<T>>::empty()
        }),
{
    let outcome = push_outcome(ring, expected, ring.read_head, seq, data);
    law_push_is_queue_push(ring, expected, seq, data);
    law_pop_is_queue_pop(outcome.ring);
    let entries = outcome.ring.entries();
    assert(entries == skips::<T>(ring.len()).push(Entry::Data(seq, data)));
    lemma_leading_skips(entries, ring.len());
    assert(entries.skip(ring.len() + 1) =~= Seq::<Entry<T>>::empty());
}

/// Where a packet from far off finds no room, the buffer is emptied all the
/// same: nothing that was in it can be popped, and the packet sets the new
/// time base.
pub proof fn law_jump_without_room<T>(ring: RingView<T>, expected: u16, seq: u16, data: T)
    requires
        ring.valid(),
        power_of_two(ring.capacity()),
        ring.len() == ring.capacity(),
        jumps(expected, seq, ring.capacity()),
    ensures
        ({
            let outcome = push_outcome(ring, expected, ring.read_head, seq, data);
            &&& outcome.result == Err::<(), PushError<T>>(PushError::Full(seq, data))
            &&& outcome.expected_seq == seq_add(seq, 1)
            &&& pop_outcome(outcome.ring).1 == PopResult::<T>::Empty
            &&& pop_outcome(outcome.ring).0.entries() == Seq::<Entry<T>>::empty()
        }),
{
    let outcome = push_outcome(ring, expected, ring.read_head, seq, data);
    law_push_is_queue_push(ring, expected, seq, data);
    law_pop_is_queue_pop(outcome.ring);
    lemma_leading_skips(outcome.ring.entries(), ring.len());
}

/// What is refused is handed back as it came, under the number it came with.
pub proof fn law_refused_packet_comes_back<T>(
    ring: RingView<T>,
    expected: u16,
    read: usize,
    seq: u16,
    data: T,
)
    ensures
        ({
            let result = push_outcome(ring, expected, read, seq, data).result;
            ||| result == Ok::<(), PushError<T>>(())
            ||| result == Err::<(), PushError<T>>(PushError::Stale(seq, data))
            ||| result == Err::<(), PushError<T>>(PushError::Full(seq, data))
        }),
{
}

/// A push never touches a value that the reader could be taking: whatever the
/// writer has seen of the reader, a readable packet keeps its value. At most
/// its position is marked as one to be passed over.
pub proof fn law_push_spares_readable_values<T>(
    ring: RingView<T>,
    expected: u16,
    read: usize,
    seq: u16,
    data: T,
    k: int,
)
    requires
        ring.valid(),
        power_of_two(ring.capacity()),
        ring.observable(read),
        0 <= k < ring.len(),
        ring.cells[ring.slot(k)] is Data,
    ensures
        ({
            let next = push_outcome(ring, expected, read, seq, data).ring;
            &&& next.vals[ring.slot(k)] == ring.vals[ring.slot(k)]
            &&& next.cells[ring.slot(k)] == ring.cells[ring.slot(k)] || next.cells[ring.slot(k)]
                == CellState::Skip
        }),
{
    let n = ring.capacity();
    let gap = seq_gap(expected, seq);
    let used = ahead(read, ring.write_head);
    lemma_slots(ring);
    if jumps(expected, seq, n) {
        if used < n {
            assert(slot_of(ring.write_head, n) == ring.slot(ring.len()));
            assert(ring.slot(k) != ring.slot(ring.len()));
        }
    } else if gap < 0 {
        if -gap <= used {
            lemma_filled(ring, read, -gap, seq, data);
        }
    } else {
        lemma_steps_between(ring.read_head, ring.len(), k, n);
        if gap < n - used {
            lemma_reserved(ring, expected, gap);
            let mid = ring.reserved(expected, gap);
            lemma_slots(mid);
            assert(mid.slot(k) == ring.slot(k));
            assert(slot_of(mid.write_head, n) == mid.slot(mid.len()));
            assert(mid.slot(k) != mid.slot(mid.len()));
        }
    }
}

/// Giving up the contents of the buffer drops nothing: every value stays in its
/// slot until the slot is used again.
pub proof fn law_jump_keeps_values<T>(
    ring: RingView<T>,
    expected: u16,
    read: usize,
    seq: u16,
    data: T,
    i: int,
)
    requires
        ring.valid(),
        ring.observable(read),
        jumps(expected, seq, ring.capacity()),
        0 <= i < ring.capacity(),
        i != slot_of(ring.write_head, ring.capacity()),
    ensures
        push_outcome(ring, expected, read, seq, data).ring.vals[i] == ring.vals[i],
{
}

/// A slot that is used again lets go of the value that was left in it: it
/// stores the packet that is appended, or nothing for a placeholder.
pub proof fn law_used_slot_lets_go_of_old_value<T>(
    ring: RingView<T>,
    expected: u16,
    seq: u16,
    data: T,
    k: int,
)
    requires
        ring.valid(),
        power_of_two(ring.capacity()),
        ring.len() <= k < push_outcome(ring, expected, ring.read_head, seq, data).ring.len(),
    ensures
        ({
            let next = push_outcome(ring, expected, ring.read_head, seq, data).ring;
            next.vals[ring.slot(k)] == match next.entries()[k] {
                Entry::Data(_, value) => Some(value),
                _ => None,
            }
        }),
{
    let n = ring.capacity();
    let gap = seq_gap(expected, seq);
    let room = n - ring.len();
    let next = push_outcome(ring, expected, ring.read_head, seq, data).ring;
    law_push_is_queue_push(ring, expected, seq, data);
    lemma_slots(ring);
    lemma_steps_between(ring.read_head, ring.len(), k, n);
    if !jumps(expected, seq, n) && 0 <= gap < room {
        let mid = ring.reserved(expected, gap);
        lemma_reserved(ring, expected, gap);
        lemma_slots(mid);
        assert(mid.slot(k) == ring.slot(k));
        assert(slot_of(mid.write_head, n) == mid.slot(mid.len()));
    }
}

/// A pop takes one value at most, the one that it hands out. Values at
/// positions that it passes over stay in their slots.
pub proof fn law_pop_takes_what_it_hands_out<T>(ring: RingView<T>, i: int)
    requires
        ring.valid(),
        0 <= i < ring.capacity(),
        pop_outcome(ring).0.vals[i] != ring.vals[i],
    ensures
        pop_outcome(ring).1 is Data,
        ring.vals[i] == Some(pop_outcome(ring).1->Data_1),
        pop_outcome(ring).0.vals[i] is None,
{
    lemma_leading_skips_bound(ring.entries());
}

/// A packet is handed out once: its slot is empty afterwards.
pub proof fn law_popped_slot_is_empty<T>(ring: RingView<T>)
    requires
        ring.valid(),
        pop_outcome(ring).1 is Data,
    ensures
        ({
            let i = ring.slot(leading_skips(ring.entries()) as int);
            &&& 0 <= i < ring.capacity()
            &&& ring.vals[i] == Some(pop_outcome(ring).1->Data_1)
            &&& pop_outcome(ring).0.vals[i] is None
        }),
{
    lemma_leading_skips_bound(ring.entries());
    lemma_slots(ring);
}

/// The number of entries that can be popped.
pub open spec fn readable<T>(entries: Seq<Entry<T>>) -> nat
    decreases entries.len(),
{
    if entries.len() == 0 {
        0
    } else {
        readable(entries.skip(1)) + if entries[0] is Skip {
            0nat
        } else {
            1nat
        }
    }
}

proof fn lemma_readable_bound<T>(entries: Seq<Entry<T>>)
    ensures
        readable(entries) <= entries.len(),
    decreases entries.len(),
{
    if entries.len() > 0 {
        lemma_readable_bound(entries.skip(1));
    }
}

/// What is passed over does not count.
proof fn lemma_readable_after_skips<T>(entries: Seq<Entry<T>>)
    ensures
        readable(entries) == readable(entries.skip(leading_skips(entries) as int)),
    decreases entries.len(),
{
    if entries.len() > 0 && entries[0] is Skip {
        let rest = entries.skip(1);
        lemma_readable_after_skips(rest);
        lemma_leading_skips_bound(rest);
        assert(rest.skip(leading_skips(rest) as int) =~= entries.skip(
            leading_skips(entries) as int,
        ));
    } else {
        assert(entries.skip(0) =~= entries);
    }
}

/// The length between the heads is an upper bound on the number of items that
/// can be popped.
pub proof fn law_len_hint_is_upper_bound<T>(ring: RingView<T>)
    requires
        ring.valid(),
    ensures
        readable(ring.entries()) <= ring.entries().len() <= ring.capacity(),
{
    lemma_readable_bound(ring.entries());
}

/// Each pop hands out one of the items that can be popped, until there are none
/// left.
pub proof fn law_pop_counts_down<T>(ring: RingView<T>)
    requires
        ring.valid(),
    ensures
        readable(ring.entries()) == 0 <==> pop_outcome(ring).1 is Empty,
        readable(pop_outcome(ring).0.entries()) == if readable(ring.entries()) == 0 {
            0
        } else {
            readable(ring.entries()) - 1
        },
{
    let entries = ring.entries();
    let k = leading_skips(entries) as int;
    law_pop_is_queue_pop(ring);
    lemma_leading_skips_bound(entries);
    lemma_readable_after_skips(entries);
    if k < entries.len() {
        assert(entries.skip(k).skip(1) =~= entries.skip(k + 1));
    }
}

/// Where nothing is between the heads, a pop finds nothing and changes nothing.
pub proof fn law_pop_empty<T>(ring: RingView<T>)
    requires
        ring.entries().len() == 0,
    ensures
        pop_outcome(ring) == (ring, PopResult::<T>::Empty),
{
}

/// Popping makes headway: where something is between the heads, less is after
/// it.
pub proof fn law_pop_makes_headway<T>(ring: RingView<T>)
    requires
        ring.valid(),
        ring.entries().len() > 0,
    ensures
        pop_outcome(ring).0.entries().len() < ring.entries().len(),
{
    law_pop_is_queue_pop(ring);
}

/// The sequence number that a pop hands out, if any.
pub open spec fn popped_number<T>(res: PopResult<T>) -> Option<u16> {
    match res {
        PopResult::Empty => None,
        PopResult::Missing(seq) => Some(seq),
        PopResult::Data(seq, _) => Some(seq),
    }
}

/// Sequence numbers come out in order: of two pops one after the other, the
/// second hands out the number that follows the first, except that each
/// position passed over between them leaves out one number.
pub proof fn law_numbers_come_out_in_order<T>(ring: RingView<T>, expected: u16)
    requires
        ring.valid(),
        in_step(ring.entries(), expected),
        popped_number(pop_outcome(ring).1) is Some,
        popped_number(pop_outcome(pop_outcome(ring).0).1) is Some,
    ensures
        ({
            let (next, first) = pop_outcome(ring);
            let second = pop_outcome(next).1;
            popped_number(second)->0 == seq_add(
                popped_number(first)->0,
                1 + leading_skips(next.entries()) as int,
            )
        }),
{
    let (next, first) = pop_outcome(ring);
    law_pop_is_queue_pop(ring);
    law_pop_is_queue_pop(next);
    lemma_leading_skips_bound(ring.entries());
    lemma_leading_skips_bound(next.entries());
    let i = leading_skips(ring.entries()) as int;
    let j = leading_skips(next.entries()) as int;
    let len = ring.entries().len();
    assert(number(ring.entries()[i]) == Some(seq_add(expected, i - len)));
    assert(next.entries()[j] == ring.entries()[i + 1 + j]);
    assert(number(ring.entries()[i + 1 + j]) == Some(seq_add(expected, i + 1 + j - len)));
    lemma_seq_add_add(expected, i - len, 1 + j);
}

/// A writer that has not seen how far the reader has come is only refused more:
/// what it can append, it could append having seen it, with the same entries to
/// read afterwards.
pub proof fn law_late_sight_only_refuses<T>(
    ring: RingView<T>,
    expected: u16,
    read: usize,
    seq: u16,
    data: T,
)
    requires
        ring.valid(),
        power_of_two(ring.capacity()),
        ring.observable(read),
        push_outcome(ring, expected, read, seq, data).result is Ok,
        jumps(expected, seq, ring.capacity()) || seq_gap(expected, seq) >= 0,
    ensures
        ({
            let seen = push_outcome(ring, expected, read, seq, data);
            let now = push_outcome(ring, expected, ring.read_head, seq, data);
            &&& now.result is Ok
            &&& now.expected_seq == seen.expected_seq
            &&& now.ring.entries() == seen.ring.entries()
        }),
{
    let n = ring.capacity();
    let gap = seq_gap(expected, seq);
    if jumps(expected, seq, n) {
        lemma_flushed(ring, read);
        lemma_flushed(ring, ring.read_head);
        lemma_appended(ring.flushed(read), seq, data);
        lemma_appended(ring.flushed(ring.read_head), seq, data);
    }
}

/// To a writer that has not seen how far the reader has come, the reader is
/// where it was seen: what comes of a push is what comes of it there, but that
/// the reader stays where it is.
pub proof fn law_late_sight_is_an_older_state<T>(
    ring: RingView<T>,
    expected: u16,
    read: usize,
    seq: u16,
    data: T,
)
    ensures
        ({
            let older = RingView { read_head: read, ..ring };
            let seen = push_outcome(ring, expected, read, seq, data);
            let there = push_outcome(older, expected, older.read_head, seq, data);
            &&& seen.result == there.result
            &&& seen.expected_seq == there.expected_seq
            &&& seen.retired == there.retired
            &&& seen.ring.read_head == ring.read_head
            &&& seen.ring.write_head == there.ring.write_head
            &&& seen.ring.cells == there.ring.cells
            &&& seen.ring.vals == there.ring.vals
        }),
{
    let older = RingView { read_head: read, ..ring };
    let gap = seq_gap(expected, seq);
    let room = ring.capacity() - ahead(read, ring.write_head);
    lemma_left_over_of_older(ring, read, 1);
    lemma_left_over_of_older(ring, read, gap + 1);
    lemma_left_over_of_older(ring, read, room);
    assert(older.flushed(read).cells =~= ring.flushed(read).cells);
    assert(older.reserved(expected, gap).cells =~= ring.reserved(expected, gap).cells);
    assert(older.reserved(expected, gap).vals =~= ring.reserved(expected, gap).vals);
    assert(older.reserved(expected, room).cells =~= ring.reserved(expected, room).cells);
    assert(older.reserved(expected, room).vals =~= ring.reserved(expected, room).vals);
}

/// What is left in slots has nothing to do with where the reader is.
proof fn lemma_left_over_of_older<T>(ring: RingView<T>, read: usize, count: int)
    ensures
        (RingView { read_head: read, ..ring }).left_over(count) == ring.left_over(count),
    decreases count,
{
    if count > 0 {
        lemma_left_over_of_older(ring, read, count - 1);
    }
}

/// One look at the ring by a reader that has seen the writer further on takes
/// the first entry: it is passed over, or handed out as it is. Where the writer
/// was seen at the place of the reader, nothing is found and nothing changes.
pub proof fn law_look_takes_the_first_entry<T>(ring: RingView<T>, write: usize)
    requires
        ring.valid(),
        ahead(ring.read_head, write) <= ring.len(),
    ensures
        ring.read_head == write ==> look_outcome(ring, write) == (
            ring,
            Some(PopResult::<T>::Empty),
        ),
        ring.read_head != write ==> {
            &&& ring.entries().len() > 0
            &&& look_outcome(ring, write).0.entries() == ring.entries().skip(1)
            &&& match ring.entries()[0] {
                Entry::Skip => look_outcome(ring, write).1 is None,
                Entry::Missing(seq) => look_outcome(ring, write).1 == Some(
                    PopResult::<T>::Missing(seq),
                ),
                Entry::Data(seq, data) => look_outcome(ring, write).1 == Some(
                    PopResult::Data(seq, data),
                ),
            }
        },
{
    if ring.read_head != write {
        lemma_taken(ring, 0);
        if ring.entries()[0] is Skip {
            assert(ring.consumed(1) == ring.taken(0));
        }
    }
}

} // verus!
