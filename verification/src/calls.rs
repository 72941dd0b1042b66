//! What the calls on two ends come to, one after the other.
//!
//! Each call visits the ring behind the lock once. Here is what that means for
//! what callers see: from one call to the next, where the ring that a call finds
//! is the one that the call before it has left.

use crate::buffer::{is_pop, is_push, PopResult, PushError};
use crate::history::{empty_ring, law_every_state, push_result, run, step, Event, Run};
use crate::laws::{
    law_gap_is_reserved, law_jump_starts_over, law_jump_window, law_late_packet_fills_placeholder,
    law_numbers_come_out_in_order,
};
use crate::model::{lemma_gap_of_seq_add, lemma_leading_skips, Entry, RingView};
use crate::queue::{law_pop_is_queue_pop, law_push_is_queue_push, lemma_leading_skips_bound};
use crate::wrapping::{lemma_seq_add_add, power_of_two, seq_add};
use vstd::prelude::*;

verus! {

/// A push that leaves a gap is accepted, and then the packet for a number in the
/// gap comes, before anything else does: it is accepted, and takes the place
/// that was kept for it, between its neighbours.
pub proof fn law_late_packet_is_taken<T>(
    found: RingView<T>,
    mid: RingView<T>,
    left: RingView<T>,
    expected: u16,
    expected_mid: u16,
    expected_left: u16,
    gap: int,
    first: T,
    first_res: Result<(), PushError<T>>,
    k: int,
    late: T,
    late_res: Result<(), PushError<T>>,
)
    requires
        power_of_two(found.capacity()),
        0 <= k < gap < 0x8000,
        gap <= found.capacity(),
        is_push(found, mid, expected, expected_mid, seq_add(expected, gap), first, first_res),
        first_res is Ok,
        is_push(mid, left, expected_mid, expected_left, seq_add(expected, k), late, late_res),
    ensures
        late_res is Ok,
        expected_left == expected_mid,
        left.entries().len() == found.entries().len() + gap + 1,
        forall|i: int|
            0 <= i < found.entries().len() ==> #[trigger] left.entries()[i] == found.entries()[i],
        forall|i: int|
            0 <= i < gap && i != k ==> #[trigger] left.entries()[found.entries().len() + i]
                == Entry::<T>::Missing(seq_add(expected, i)),
        left.entries()[found.entries().len() + k] == Entry::Data(seq_add(expected, k), late),
        left.entries()[found.entries().len() + gap] == Entry::Data(seq_add(expected, gap), first),
{
    let seq = seq_add(expected, gap);
    let late_seq = seq_add(expected, k);
    lemma_gap_of_seq_add(expected, gap);
    law_push_is_queue_push(found, expected, seq, first);
    law_gap_is_reserved(found, expected, gap, first);
    lemma_seq_add_add(expected, gap, 1);
    lemma_seq_add_add(expected_mid, k - gap - 1, 0);
    lemma_seq_add_add(expected, gap + 1, k - gap - 1);
    assert(late_seq == seq_add(expected_mid, k - gap - 1));
    lemma_gap_of_seq_add(expected_mid, k - gap - 1);
    law_push_is_queue_push(mid, expected_mid, late_seq, late);
    assert(mid.entries()[found.entries().len() + k] == Entry::<T>::Missing(late_seq));
}

/// A packet under a number that is far off, before or after the expected one, is
/// accepted: it is popped next, and nothing that was in the buffer is popped
/// before it or after it.
pub proof fn law_far_packet_is_popped_next<T>(
    found: RingView<T>,
    mid: RingView<T>,
    left: RingView<T>,
    end: RingView<T>,
    expected: u16,
    expected_after: u16,
    seq: u16,
    data: T,
    res: Result<(), PushError<T>>,
    first: PopResult<T>,
    second: PopResult<T>,
)
    requires
        power_of_two(found.capacity()),
        forall|d: int|
            -found.capacity() <= d <= found.capacity() ==> seq != #[trigger] seq_add(expected, d),
        is_push(found, mid, expected, expected_after, seq, data, res),
        res is Ok,
        is_pop(mid, left, first),
        is_pop(left, end, second),
    ensures
        first == PopResult::Data(seq, data),
        second is Empty,
        expected_after == seq_add(seq, 1),
{
    law_jump_window(expected, seq, found.capacity());
    assert(found.len() < found.capacity());
    law_jump_starts_over(found, expected, seq, data);
}

/// A pop hands out the first entry that is not to be passed over, as it is: a
/// packet with its number, or the number of a missing one. It takes away that
/// entry and those before it, and no others. Where there is no such entry, it
/// hands out nothing.
pub proof fn law_pop_hands_out_the_first_entry<T>(
    found: RingView<T>,
    left: RingView<T>,
    res: PopResult<T>,
    k: int,
)
    requires
        is_pop(found, left, res),
        0 <= k <= found.entries().len(),
        forall|i: int| 0 <= i < k ==> #[trigger] found.entries()[i] is Skip,
        k < found.entries().len() ==> !(found.entries()[k] is Skip),
    ensures
        k == found.entries().len() ==> res is Empty && left.entries().len() == 0,
        k < found.entries().len() ==> {
            &&& match found.entries()[k] {
                Entry::Skip => false,
                Entry::Missing(seq) => res == PopResult::<T>::Missing(seq),
                Entry::Data(seq, data) => res == PopResult::Data(seq, data),
            }
            &&& left.entries() == found.entries().skip(k + 1)
        },
{
    lemma_leading_skips(found.entries(), k);
    law_pop_is_queue_pop(found);
}

/// A call on one of two ends.
pub enum Call<T> {
    /// A packet is pushed. `expected` and `expected_after` is the number that
    /// the writer expects before and after.
    Push { seq: u16, data: T, expected: u16, expected_after: u16, res: Result<(), PushError<T>> },
    /// The oldest item is popped.
    Pop { out: PopResult<T> },
}

/// A call, with the ring that it has found and the one that it has left.
pub struct Visit<T> {
    /// The call.
    pub call: Call<T>,
    /// The ring that it has found.
    pub found: RingView<T>,
    /// The ring that it has left.
    pub left: RingView<T>,
}

/// The ring that a number of calls have left.
pub open spec fn left_behind<T>(n: nat, visits: Seq<Visit<T>>) -> RingView<T> {
    if visits.len() == 0 {
        empty_ring(n)
    } else {
        visits.last().left
    }
}

/// The number that the writer expects after a number of calls.
pub open spec fn expected_by<T>(visits: Seq<Visit<T>>) -> u16
    decreases visits.len(),
{
    if visits.len() == 0 {
        0
    } else {
        match visits.last().call {
            Call::Push { expected_after, .. } => expected_after,
            Call::Pop { .. } => expected_by(visits.drop_last()),
        }
    }
}

/// `visits` are the calls on the two ends of a buffer of `n` slots, from the
/// first on: each finds the ring that the one before it has left.
pub open spec fn one_after_the_other<T>(n: nat, visits: Seq<Visit<T>>) -> bool
    decreases visits.len(),
{
    visits.len() == 0 || {
        let before = visits.drop_last();
        let visit = visits.last();
        &&& one_after_the_other(n, before)
        &&& visit.found == left_behind(n, before)
        &&& match visit.call {
            Call::Push { seq, data, expected, expected_after, res } => {
                &&& expected == expected_by(before)
                &&& is_push(visit.found, visit.left, expected, expected_after, seq, data, res)
            },
            Call::Pop { out } => is_pop(visit.found, visit.left, out),
        }
    }
}

/// The calls by themselves.
pub open spec fn events_of<T>(visits: Seq<Visit<T>>) -> Seq<Event<T>> {
    Seq::new(
        visits.len(),
        |i: int|
            match visits[i].call {
                Call::Push { seq, data, .. } => Event::Push(seq, data),
                Call::Pop { .. } => Event::Pop,
            },
    )
}

/// What the pops have handed out, without those that found nothing.
pub open spec fn popped_by<T>(visits: Seq<Visit<T>>) -> Seq<PopResult<T>>
    decreases visits.len(),
{
    if visits.len() == 0 {
        Seq::empty()
    } else {
        let before = popped_by(visits.drop_last());
        match visits.last().call {
            Call::Push { .. } => before,
            Call::Pop { out } => if out is Empty {
                before
            } else {
                before.push(out)
            },
        }
    }
}

/// What is called on two ends comes to what [`run`] says, call by call. So what
/// holds of every sequence of calls (see [`crate::history`]) holds of them.
pub proof fn law_calls_are_a_run<T>(n: nat, visits: Seq<Visit<T>>)
    requires
        power_of_two(n as int),
        n <= usize::MAX,
        one_after_the_other(n, visits),
    ensures
        run(n, events_of(visits)).ring == left_behind(n, visits),
        run(n, events_of(visits)).expected_seq == expected_by(visits),
        run(n, events_of(visits)).popped == popped_by(visits),
        visits.len() > 0 ==> (visits.last().call matches Call::Push { res, .. } ==> push_result(
            n,
            events_of(visits),
            visits.len() - 1,
        ) == res),
    decreases visits.len(),
{
    let events = events_of(visits);
    if visits.len() > 0 {
        let before = visits.drop_last();
        law_calls_are_a_run(n, before);
        assert(events.drop_last() =~= events_of(before));
        assert(events.take(visits.len() - 1) =~= events_of(before));
        lemma_visit_is_step(run(n, events_of(before)), visits.last());
        reveal(push_result);
    }
}

/// One more call is one more step.
proof fn lemma_visit_is_step<T>(before: Run<T>, visit: Visit<T>)
    requires
        before.ring == visit.found,
        match visit.call {
            Call::Push { seq, data, expected, expected_after, res } => {
                &&& expected == before.expected_seq
                &&& is_push(visit.found, visit.left, expected, expected_after, seq, data, res)
            },
            Call::Pop { out } => is_pop(visit.found, visit.left, out),
        },
    ensures
        match visit.call {
            Call::Push { seq, data, expected_after, .. } => step(before, Event::Push(seq, data))
                == (Run { ring: visit.left, expected_seq: expected_after, popped: before.popped }),
            Call::Pop { out } => step(before, Event::Pop) == (Run {
                ring: visit.left,
                expected_seq: before.expected_seq,
                popped: if out is Empty {
                    before.popped
                } else {
                    before.popped.push(out)
                },
            }),
        },
{
    reveal(step);
}

/// A packet comes for which a place is kept, whatever was called before: it is
/// accepted and takes that place, and nothing else in the buffer changes. (Numbers
/// repeat after 0x10000, so the place is no more than half of that back.)
pub proof fn law_kept_place_takes_its_packet<T>(
    n: nat,
    visits: Seq<Visit<T>>,
    k: int,
    seq: u16,
    data: T,
    left: RingView<T>,
    expected_after: u16,
    res: Result<(), PushError<T>>,
)
    requires
        power_of_two(n as int),
        n <= usize::MAX,
        one_after_the_other(n, visits),
        0 <= k < left_behind(n, visits).entries().len(),
        left_behind(n, visits).entries()[k] == Entry::<T>::Missing(seq),
        left_behind(n, visits).entries().len() - k <= 0x8000,
        is_push(left_behind(n, visits), left, expected_by(visits), expected_after, seq, data, res),
    ensures
        res is Ok,
        expected_after == expected_by(visits),
        left.entries() == left_behind(n, visits).entries().update(k, Entry::Data(seq, data)),
{
    law_calls_are_a_run(n, visits);
    law_every_state(n, events_of(visits));
    law_late_packet_fills_placeholder(
        left_behind(n, visits),
        expected_by(visits),
        k,
        seq,
        data,
    );
}

/// A packet that is refused as too late is one for which no place is kept,
/// whatever was called before: it is handed back as it came, and nothing
/// changes.
pub proof fn law_stale_packet_has_no_place<T>(
    n: nat,
    visits: Seq<Visit<T>>,
    seq: u16,
    data: T,
    left: RingView<T>,
    expected_after: u16,
    res: Result<(), PushError<T>>,
)
    requires
        power_of_two(n as int),
        n <= 0x8000,
        one_after_the_other(n, visits),
        is_push(left_behind(n, visits), left, expected_by(visits), expected_after, seq, data, res),
        res is Err,
        res->Err_0 is Stale,
    ensures
        res == Err::<(), PushError<T>>(PushError::Stale(seq, data)),
        left == left_behind(n, visits),
        expected_after == expected_by(visits),
        !left.entries().contains(Entry::<T>::Missing(seq)),
{
    law_calls_are_a_run(n, visits);
    law_every_state(n, events_of(visits));
    let entries = left.entries();
    if entries.contains(Entry::<T>::Missing(seq)) {
        let k = choose|k: int| 0 <= k < entries.len() && entries[k] == Entry::<T>::Missing(seq);
        law_kept_place_takes_its_packet(n, visits, k, seq, data, left, expected_after, res);
    }
}

/// The sequence numbers come out one after the other: of two pops with nothing
/// between them, the second hands out the number after that of the first, where
/// nothing has to be passed over for it.
pub proof fn law_next_number_follows<T>(
    n: nat,
    visits: Seq<Visit<T>>,
    first: PopResult<T>,
    mid: RingView<T>,
    second: PopResult<T>,
    left: RingView<T>,
)
    requires
        power_of_two(n as int),
        n <= usize::MAX,
        one_after_the_other(n, visits),
        is_pop(left_behind(n, visits), mid, first),
        is_pop(mid, left, second),
        !(first is Empty),
        mid.entries().len() > 0,
        !(mid.entries()[0] is Skip),
    ensures
        ({
            let seq = match first {
                PopResult::Empty => 0,
                PopResult::Missing(s) => s,
                PopResult::Data(s, _) => s,
            };
            match second {
                PopResult::Empty => false,
                PopResult::Missing(s) => s == seq_add(seq, 1),
                PopResult::Data(s, _) => s == seq_add(seq, 1),
            }
        }),
{
    let found = left_behind(n, visits);
    law_calls_are_a_run(n, visits);
    law_every_state(n, events_of(visits));
    lemma_leading_skips(mid.entries(), 0);
    law_pop_is_queue_pop(found);
    law_pop_is_queue_pop(mid);
    lemma_leading_skips_bound(found.entries());
    law_numbers_come_out_in_order(found, expected_by(visits));
}

} // verus!
