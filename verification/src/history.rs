//! What holds of every sequence of pushes and pops.

use crate::buffer::{PopResult, PushError};
use crate::cell_state::CellState;
use crate::laws::{
    in_step, law_expected_packet_is_appended, law_full_keeps_placeholders, law_pop_keeps_step,
    law_push_keeps_step, number, popped_number,
};
use crate::model::{
    handed, jumps, leading_skips, lemma_leading_skips, lemma_seq_gap, pop_outcome, push_outcome,
    seq_gap, Entry, RingView,
};
use crate::queue::{
    law_pop_is_queue_pop, law_push_is_queue_push, lemma_leading_skips_bound, placeholders,
    queue_popped, queue_push,
};
use crate::wrapping::{lemma_seq_add_add, power_of_two, seq_add};
use vstd::prelude::*;

verus! {

/// A call on the buffer.
pub enum Event<T> {
    /// A packet is pushed under a sequence number.
    Push(u16, T),
    /// The oldest item is popped.
    Pop,
}

/// The buffer after a number of calls.
pub struct Run<T> {
    /// The ring.
    pub ring: RingView<T>,
    /// The sequence number that the writer expects.
    pub expected_seq: u16,
    /// What the pops have handed out, without those that found nothing.
    pub popped: Seq<PopResult<T>>,
}

/// An empty ring of `n` slots.
pub open spec fn empty_ring<T>(n: nat) -> RingView<T> {
    RingView {
        cells: Seq::new(n, |i: int| CellState::Skip),
        vals: Seq::new(n, |i: int| None::<T>),
        read_head: 0,
        write_head: 0,
    }
}

/// What comes of one more call.
#[verifier::opaque]
pub open spec fn step<T>(before: Run<T>, event: Event<T>) -> Run<T> {
    match event {
        Event::Push(seq, data) => {
            let outcome = push_outcome(
                before.ring,
                before.expected_seq,
                before.ring.read_head,
                seq,
                data,
            );
            Run { ring: outcome.ring, expected_seq: outcome.expected_seq, popped: before.popped }
        },
        Event::Pop => {
            let (ring, res) = pop_outcome(before.ring);
            Run {
                ring,
                expected_seq: before.expected_seq,
                popped: if res is Empty {
                    before.popped
                } else {
                    before.popped.push(res)
                },
            }
        },
    }
}

/// What comes of calls on an empty buffer of `n` slots, one after the other.
pub open spec fn run<T>(n: nat, events: Seq<Event<T>>) -> Run<T>
    decreases events.len(),
{
    if events.len() == 0 {
        Run { ring: empty_ring(n), expected_seq: 0, popped: Seq::empty() }
    } else {
        step(run(n, events.drop_last()), events.last())
    }
}

/// No packet came under a number that was far off.
pub open spec fn no_jumps<T>(n: nat, events: Seq<Event<T>>) -> bool
    decreases events.len(),
{
    events.len() == 0 || {
        &&& no_jumps(n, events.drop_last())
        &&& events.last() matches Event::Push(seq, _) ==> !jumps(
            run(n, events.drop_last()).expected_seq,
            seq,
            n as int,
        )
    }
}

/// Whatever is called on the buffer, it holds no more than it has room for,
/// each position that is said to hold a packet does hold one, and the sequence
/// numbers in it run up to the expected one.
pub proof fn law_every_state<T>(n: nat, events: Seq<Event<T>>)
    requires
        power_of_two(n as int),
        n <= usize::MAX,
    ensures
        run(n, events).ring.valid(),
        run(n, events).ring.capacity() == n,
        in_step(run(n, events).ring.entries(), run(n, events).expected_seq),
    decreases events.len(),
{
    if events.len() > 0 {
        let before = run(n, events.drop_last());
        reveal(step);
        law_every_state(n, events.drop_last());
        match events.last() {
            Event::Push(seq, data) => {
                law_push_is_queue_push(before.ring, before.expected_seq, seq, data);
                law_push_keeps_step(
                    before.ring,
                    before.expected_seq,
                    before.ring.read_head,
                    seq,
                    data,
                );
            },
            Event::Pop => {
                law_pop_is_queue_pop(before.ring);
                law_pop_keeps_step(before.ring, before.expected_seq);
            },
        }
    }
}

/// The sequence numbers from zero on have been popped one by one, those that
/// follow are in the buffer, and the one after them is expected.
pub open spec fn numbers_run_on<T>(state: Run<T>) -> bool {
    &&& forall|j: int|
        0 <= j < state.popped.len() ==> popped_number(#[trigger] state.popped[j]) == Some(
            seq_add(0, j),
        )
    &&& forall|k: int|
        0 <= k < state.ring.entries().len() ==> !(#[trigger] state.ring.entries()[k] is Skip)
    &&& state.expected_seq == seq_add(0, state.popped.len() + state.ring.len())
}

/// Where no packet comes under a number that is far off, the sequence numbers
/// from zero on come out one by one, each of them once, as a packet or as a
/// missing one.
pub proof fn law_numbers_run_on<T>(n: nat, events: Seq<Event<T>>)
    requires
        power_of_two(n as int),
        n <= usize::MAX,
        no_jumps(n, events),
    ensures
        numbers_run_on(run(n, events)),
    decreases events.len(),
{
    if events.len() > 0 {
        let before = run(n, events.drop_last());
        law_every_state(n, events.drop_last());
        law_numbers_run_on(n, events.drop_last());
        match events.last() {
            Event::Push(seq, data) => lemma_push_keeps_numbers(before, seq, data),
            Event::Pop => lemma_pop_keeps_numbers(before),
        }
    }
}

/// A push that is not far off goes on with the numbers.
proof fn lemma_push_keeps_numbers<T>(before: Run<T>, seq: u16, data: T)
    requires
        before.ring.valid(),
        power_of_two(before.ring.capacity()),
        !jumps(before.expected_seq, seq, before.ring.capacity()),
        numbers_run_on(before),
    ensures
        numbers_run_on(step(before, Event::Push(seq, data))),
{
    reveal(step);
    law_push_is_queue_push(before.ring, before.expected_seq, seq, data);
    lemma_push_numbers(
        before.ring.entries(),
        before.ring.capacity(),
        before.expected_seq,
        seq,
        data,
        before.popped.len() as int,
    );
}

/// A pop hands out the number that comes next.
proof fn lemma_pop_keeps_numbers<T>(before: Run<T>)
    requires
        before.ring.valid(),
        in_step(before.ring.entries(), before.expected_seq),
        numbers_run_on(before),
    ensures
        numbers_run_on(step(before, Event::Pop)),
{
    let after = step(before, Event::Pop);
    let entries = before.ring.entries();
    let len = entries.len() as int;
    let count = before.popped.len() as int;
    reveal(step);
    law_pop_is_queue_pop(before.ring);
    if len > 0 {
        assert(!(entries[0] is Skip));
        lemma_leading_skips(entries, 0);
        assert(number(entries[0]) == Some(seq_add(before.expected_seq, -len)));
        lemma_seq_add_add(0, count + len, -len);
        assert(after.ring.entries() =~= entries.skip(1));
    }
}

/// A push that is not far off appends nothing to be passed over, and the
/// expected number moves on by as many as are appended.
proof fn lemma_push_numbers<T>(
    entries: Seq<Entry<T>>,
    n: int,
    expected: u16,
    seq: u16,
    data: T,
    count: int,
)
    requires
        entries.len() <= n,
        !jumps(expected, seq, n),
        expected == seq_add(0, count + entries.len()),
        forall|k: int| 0 <= k < entries.len() ==> !(#[trigger] entries[k] is Skip),
    ensures
        ({
            let queue = queue_push(entries, n, expected, seq, data);
            &&& queue.expected_seq == seq_add(0, count + queue.entries.len())
            &&& forall|k: int|
                0 <= k < queue.entries.len() ==> !(#[trigger] queue.entries[k] is Skip)
        }),
{
    let gap = seq_gap(expected, seq);
    let len = entries.len() as int;
    let room = n - len;
    if gap >= 0 {
        if gap < room {
            lemma_seq_gap(expected, seq);
            lemma_seq_add_add(expected, gap, 1);
            lemma_seq_add_add(0, count + len, gap + 1);
        } else {
            lemma_seq_add_add(0, count + len, room);
        }
    }
}

/// What the push at index `i` came to.
#[verifier::opaque]
pub open spec fn push_result<T>(n: nat, events: Seq<Event<T>>, i: int) -> Result<(), PushError<T>>
    recommends
        0 <= i < events.len(),
        events[i] is Push,
{
    let before = run(n, events.take(i));
    push_outcome(
        before.ring,
        before.expected_seq,
        before.ring.read_head,
        events[i]->Push_0,
        events[i]->Push_1,
    ).result
}

/// Later calls make no difference to what a push came to.
proof fn lemma_push_result_of_prefix<T>(n: nat, events: Seq<Event<T>>, i: int)
    requires
        0 <= i < events.len() - 1,
    ensures
        push_result(n, events, i) == push_result(n, events.drop_last(), i),
{
    reveal(push_result);
    assert(events.take(i) =~= events.drop_last().take(i));
}

/// What has been handed out, and what is still to be, in that order. What will
/// be passed over is in it as something empty.
pub open spec fn line<T>(state: Run<T>) -> Seq<PopResult<T>> {
    state.popped + Seq::new(
        state.ring.entries().len(),
        |k: int| handed(state.ring.entries()[k]),
    )
}

/// Each packet of `line` stems from a push of its own, the index of which
/// `origin` tells: one that was accepted, of that packet under that number.
pub open spec fn stems_from<T>(
    n: nat,
    events: Seq<Event<T>>,
    line: Seq<PopResult<T>>,
    origin: Seq<int>,
) -> bool {
    &&& origin.len() == line.len()
    &&& forall|j: int|
        0 <= j < line.len() && (#[trigger] line[j] is Data) ==> {
            &&& 0 <= origin[j] < events.len()
            &&& events[origin[j]] == Event::Push(line[j]->Data_0, line[j]->Data_1)
            &&& push_result(n, events, origin[j]) is Ok
        }
    &&& forall|i: int, j: int|
        0 <= i < j < line.len() && (#[trigger] line[i] is Data) && (#[trigger] line[j] is Data)
            ==> origin[i] != origin[j]
}

/// One more call leaves the packets where they stem from.
proof fn lemma_stems_from_prefix<T>(
    n: nat,
    events: Seq<Event<T>>,
    line: Seq<PopResult<T>>,
    origin: Seq<int>,
)
    requires
        events.len() > 0,
        stems_from(n, events.drop_last(), line, origin),
    ensures
        stems_from(n, events, line, origin),
{
    let earlier = events.drop_last();
    assert forall|j: int| 0 <= j < line.len() && (#[trigger] line[j] is Data) implies {
        &&& 0 <= origin[j] < events.len()
        &&& events[origin[j]] == Event::Push(line[j]->Data_0, line[j]->Data_1)
        &&& push_result(n, events, origin[j]) is Ok
    } by {
        assert(earlier[origin[j]] == events[origin[j]]);
        lemma_push_result_of_prefix(n, events, origin[j]);
    }
}

/// Each packet that is handed out stems from a push of its own: one that was
/// accepted, of that packet under that number, and no other packet stems from
/// the same push. The same holds of the packets that are still in the buffer.
pub proof fn law_packets_come_from_pushes<T>(n: nat, events: Seq<Event<T>>) -> (origin: Seq<int>)
    requires
        power_of_two(n as int),
        n <= usize::MAX,
    ensures
        stems_from(n, events, line(run(n, events)), origin),
    decreases events.len(),
{
    if events.len() == 0 {
        Seq::empty()
    } else {
        let earlier = events.drop_last();
        let before = run(n, earlier);
        let was = law_packets_come_from_pushes(n, earlier);
        law_every_state(n, earlier);
        lemma_stems_from_prefix(n, events, line(before), was);
        match events.last() {
            Event::Push(seq, data) => lemma_push_stems(n, events, seq, data, was),
            Event::Pop => lemma_pop_stems(n, events, was),
        }
    }
}

/// A push adds its own packet at most.
proof fn lemma_push_stems<T>(
    n: nat,
    events: Seq<Event<T>>,
    seq: u16,
    data: T,
    was: Seq<int>,
) -> (origin: Seq<int>)
    requires
        power_of_two(n as int),
        n <= usize::MAX,
        events.len() > 0,
        events.last() == Event::Push(seq, data),
        run(n, events.drop_last()).ring.valid(),
        run(n, events.drop_last()).ring.capacity() == n,
        stems_from(n, events.drop_last(), line(run(n, events.drop_last())), was),
        stems_from(n, events, line(run(n, events.drop_last())), was),
    ensures
        stems_from(n, events, line(run(n, events)), origin),
{
    let earlier = events.drop_last();
    let before = run(n, earlier);
    let after = run(n, events);
    let last = events.len() - 1;
    let old_line = line(before);
    let new_line = line(after);
    let count = before.popped.len();
    let entries = before.ring.entries();
    let queue = queue_push(entries, n as int, before.expected_seq, seq, data);
    law_push_is_queue_push(before.ring, before.expected_seq, seq, data);
    assert(after.ring.entries() == queue.entries && after.popped == before.popped && push_result(
        n,
        events,
        last,
    ) == queue.result) by {
        reveal(step);
        reveal(push_result);
        assert(events.take(last) =~= earlier);
    }
    let place = new_place(entries, n as int, before.expected_seq, seq);
    let origin = Seq::new(
        new_line.len(),
        |j: int|
            if queue.result is Ok && j == count + place {
                last
            } else {
                was[j]
            },
    );
    lemma_new_packet(entries, n as int, before.expected_seq, seq, data);
    assert forall|j: int| 0 <= j < new_line.len() && (#[trigger] new_line[j] is Data) implies (
    if queue.result is Ok && j == count + place {
        new_line[j] == PopResult::Data(seq, data)
    } else {
        j < old_line.len() && new_line[j] == old_line[j]
    }) by {
        if j >= count {
            assert(queue.entries[j - count] is Data);
        }
    }
    assert forall|j: int| 0 <= j < new_line.len() && (#[trigger] new_line[j] is Data) implies {
        &&& 0 <= origin[j] < events.len()
        &&& events[origin[j]] == Event::Push(new_line[j]->Data_0, new_line[j]->Data_1)
        &&& push_result(n, events, origin[j]) is Ok
        &&& origin[j] == last ==> j == count + place
    } by {
        if !(queue.result is Ok && j == count + place) {
            assert(old_line[j] is Data);
        }
    }
    assert forall|i: int, j: int|
        0 <= i < j < new_line.len() && (#[trigger] new_line[i] is Data) && (
        #[trigger] new_line[j] is Data) implies origin[i] != origin[j] by {
        if origin[i] != last && origin[j] != last {
            assert(old_line[i] is Data && old_line[j] is Data);
        }
    }
    origin
}

/// The place that a pushed packet goes to.
spec fn new_place<T>(entries: Seq<Entry<T>>, n: int, expected: u16, seq: u16) -> int {
    if jumps(expected, seq, n) {
        entries.len() as int
    } else {
        entries.len() + seq_gap(expected, seq)
    }
}

/// A push puts a packet in one place at most, where no packet was.
proof fn lemma_new_packet<T>(entries: Seq<Entry<T>>, n: int, expected: u16, seq: u16, data: T)
    ensures
        ({
            let queue = queue_push(entries, n, expected, seq, data);
            let place = new_place(entries, n, expected, seq);
            &&& forall|k: int|
                0 <= k < queue.entries.len() && (#[trigger] queue.entries[k] is Data) ==> if k
                    == place && queue.result is Ok {
                    &&& queue.entries[k] == Entry::Data(seq, data)
                    &&& k < entries.len() ==> !(entries[k] is Data)
                } else {
                    &&& k < entries.len()
                    &&& queue.entries[k] == entries[k]
                }
        }),
{
}

/// A pop passes over what holds no packet, and hands out what comes then.
proof fn lemma_pop_stems<T>(n: nat, events: Seq<Event<T>>, was: Seq<int>) -> (origin: Seq<int>)
    requires
        events.len() > 0,
        events.last() == Event::<T>::Pop,
        run(n, events.drop_last()).ring.valid(),
        stems_from(n, events, line(run(n, events.drop_last())), was),
    ensures
        stems_from(n, events, line(run(n, events)), origin),
{
    let before = run(n, events.drop_last());
    let after = run(n, events);
    let old_line = line(before);
    let new_line = line(after);
    let count = before.popped.len();
    let entries = before.ring.entries();
    let skips = leading_skips(entries) as int;
    lemma_leading_skips_bound(entries);
    law_pop_is_queue_pop(before.ring);
    assert(after.ring.entries() == queue_popped(entries) && after.popped == if skips
        < entries.len() {
        before.popped.push(handed(entries[skips]))
    } else {
        before.popped
    }) by {
        reveal(step);
    }
    let origin = Seq::new(
        new_line.len(),
        |j: int|
            if j < count {
                was[j]
            } else {
                was[j + skips]
            },
    );
    assert forall|j: int| 0 <= j < new_line.len() implies #[trigger] new_line[j] == old_line[if j
        < count {
        j
    } else {
        j + skips
    }] by {}
    assert forall|j: int| 0 <= j < new_line.len() && (#[trigger] new_line[j] is Data) implies {
        &&& 0 <= origin[j] < events.len()
        &&& events[origin[j]] == Event::Push(new_line[j]->Data_0, new_line[j]->Data_1)
        &&& push_result(n, events, origin[j]) is Ok
    } by {
        assert(old_line[if j < count {
            j
        } else {
            j + skips
        }] is Data);
    }
    assert forall|i: int, j: int|
        0 <= i < j < new_line.len() && (#[trigger] new_line[i] is Data) && (
        #[trigger] new_line[j] is Data) implies origin[i] != origin[j] by {
        let from_i = if i < count {
            i
        } else {
            i + skips
        };
        let from_j = if j < count {
            j
        } else {
            j + skips
        };
        assert(old_line[from_i] is Data && old_line[from_j] is Data);
    }
    origin
}

/// The calls that push `items` in order, from sequence number zero on.
pub open spec fn pushes<T>(items: Seq<T>) -> Seq<Event<T>> {
    Seq::new(items.len(), |i: int| Event::Push(seq_add(0, i), items[i]))
}

/// `count` pops.
pub open spec fn pops<T>(count: nat) -> Seq<Event<T>> {
    Seq::new(count, |i: int| Event::<T>::Pop)
}

/// `items` as packets, from sequence number zero on.
pub open spec fn packets<T>(items: Seq<T>) -> Seq<Entry<T>> {
    Seq::new(items.len(), |i: int| Entry::Data(seq_add(0, i), items[i]))
}

/// One more packet in order goes after those that are there, where there is
/// room. Where there is none, it is handed back, and nothing changes.
proof fn lemma_push_in_order<T>(before: Run<T>, items: Seq<T>, taken: int, data: T)
    requires
        before.ring.valid(),
        power_of_two(before.ring.capacity()),
        0 <= taken <= items.len(),
        before.ring.entries() == packets(items).skip(taken),
        before.expected_seq == seq_add(0, items.len() as int),
    ensures
        ({
            let seq = seq_add(0, items.len() as int);
            let after = step(before, Event::Push(seq, data));
            let result = push_outcome(
                before.ring,
                before.expected_seq,
                before.ring.read_head,
                seq,
                data,
            ).result;
            &&& after.popped == before.popped
            &&& if before.ring.len() < before.ring.capacity() {
                &&& result == Ok::<(), PushError<T>>(())
                &&& after.ring.entries() == packets(items.push(data)).skip(taken)
                &&& after.expected_seq == seq_add(0, items.len() as int + 1)
            } else {
                &&& result == Err::<(), PushError<T>>(PushError::Full(seq, data))
                &&& after.ring.entries() == before.ring.entries()
                &&& after.expected_seq == before.expected_seq
            }
        }),
{
    reveal(step);
    let next = seq_add(0, items.len() as int);
    let entries = before.ring.entries();
    if before.ring.len() < before.ring.capacity() {
        law_expected_packet_is_appended(before.ring, next, data);
        lemma_seq_add_add(0, items.len() as int, 1);
        assert(entries.push(Entry::Data(next, data)) =~= packets(items.push(data)).skip(taken));
    } else {
        law_full_keeps_placeholders(before.ring, next, 0, data);
        assert(seq_add(next, 0) == next);
        assert(entries + placeholders::<T>(next, 0) =~= entries);
    }
}

/// Where a packet is first, it is popped.
proof fn lemma_pop_first<T>(before: Run<T>)
    requires
        before.ring.valid(),
        before.ring.entries().len() > 0,
        before.ring.entries()[0] is Data,
    ensures
        ({
            let after = step(before, Event::Pop);
            let entries = before.ring.entries();
            &&& after.ring.entries() == entries.skip(1)
            &&& after.expected_seq == before.expected_seq
            &&& after.popped == before.popped.push(
                PopResult::Data(entries[0]->Data_0, entries[0]->Data_1),
            )
        }),
{
    reveal(step);
    law_pop_is_queue_pop(before.ring);
    lemma_leading_skips(before.ring.entries(), 0);
}

/// Where nothing is there, nothing is popped.
proof fn lemma_pop_nothing<T>(before: Run<T>)
    requires
        before.ring.valid(),
        before.ring.entries().len() == 0,
    ensures
        step(before, Event::Pop) == before,
{
    reveal(step);
}

/// Packets that are pushed in order are all in the buffer, in that order, as
/// long as there is room for them.
pub proof fn law_pushed_packets_are_stored<T>(n: nat, items: Seq<T>)
    requires
        power_of_two(n as int),
        n <= usize::MAX,
        items.len() <= n,
    ensures
        run(n, pushes(items)).ring.entries() == packets(items),
        run(n, pushes(items)).expected_seq == seq_add(0, items.len() as int),
        run(n, pushes(items)).popped == Seq::<PopResult<T>>::empty(),
    decreases items.len(),
{
    if items.len() == 0 {
        assert(run(n, pushes(items)).ring.entries() =~= packets(items));
    } else {
        let earlier = items.drop_last();
        law_pushed_packets_are_stored(n, earlier);
        law_every_state(n, pushes(earlier));
        assert(packets(earlier).skip(0) =~= packets(earlier));
        lemma_push_in_order(run(n, pushes(earlier)), earlier, 0, items.last());
        assert(packets(items).skip(0) =~= packets(items));
        assert(pushes(items).drop_last() =~= pushes(earlier));
        assert(earlier.push(items.last()) =~= items);
    }
}

/// What was pushed in order is popped in that order, and nothing else: the
/// packets come out first in, first out, and then there is nothing left.
pub proof fn law_first_in_first_out<T>(n: nat, items: Seq<T>, count: nat)
    requires
        power_of_two(n as int),
        n <= usize::MAX,
        count <= items.len() <= n,
    ensures
        ({
            let after = run(n, pushes(items) + pops(count));
            &&& after.popped == Seq::new(
                count,
                |i: int| PopResult::Data(seq_add(0, i), items[i]),
            )
            &&& after.ring.entries() == packets(items).skip(count as int)
            &&& count == items.len() ==> pop_outcome(after.ring).1 == PopResult::<T>::Empty
        }),
    decreases count,
{
    let events = pushes(items) + pops(count);
    let after = run(n, events);
    if count == 0 {
        assert(events =~= pushes(items));
        law_pushed_packets_are_stored(n, items);
        assert(packets(items).skip(0) =~= packets(items));
    } else {
        let fewer = (count - 1) as nat;
        let earlier = pushes(items) + pops(fewer);
        law_first_in_first_out(n, items, fewer);
        law_every_state(n, earlier);
        assert(events.drop_last() =~= earlier);
        lemma_pop_first(run(n, earlier));
        assert(packets(items).skip(fewer as int).skip(1) =~= packets(items).skip(count as int));
    }
    assert(after.popped =~= Seq::new(count, |i: int| PopResult::Data(seq_add(0, i), items[i])));
    if count == items.len() {
        law_every_state(n, events);
        law_pop_is_queue_pop(after.ring);
    }
}

/// The number of pushes that were accepted.
pub open spec fn accepted<T>(n: nat, events: Seq<Event<T>>) -> nat
    decreases events.len(),
{
    if events.len() == 0 {
        0
    } else {
        accepted(n, events.drop_last()) + if events.last() is Push && push_result(
            n,
            events,
            events.len() - 1,
        ) is Ok {
            1nat
        } else {
            0nat
        }
    }
}

/// What is pushed are `items`, in order and from sequence number zero on. One
/// that is not accepted is pushed again.
pub open spec fn pushes_in_order<T>(n: nat, items: Seq<T>, events: Seq<Event<T>>) -> bool {
    forall|i: int|
        0 <= i < events.len() && (#[trigger] events[i] is Push) ==> {
            let k = accepted(n, events.take(i));
            &&& k < items.len()
            &&& events[i] == Event::Push(seq_add(0, k as int), items[k as int])
        }
}

/// The first of `items` have been popped, the next are in the buffer, `count` of
/// them together, and the one after them is expected.
pub open spec fn holds_in_order<T>(state: Run<T>, items: Seq<T>, count: int) -> bool {
    &&& state.popped.len() <= count <= items.len()
    &&& state.popped == Seq::new(
        state.popped.len(),
        |i: int| PopResult::Data(seq_add(0, i), items[i]),
    )
    &&& state.ring.entries() == packets(items.take(count)).skip(state.popped.len() as int)
    &&& state.expected_seq == seq_add(0, count)
}

/// One more pop keeps the order.
proof fn lemma_pop_holds_in_order<T>(before: Run<T>, items: Seq<T>, count: int)
    requires
        before.ring.valid(),
        holds_in_order(before, items, count),
    ensures
        holds_in_order(step(before, Event::Pop), items, count),
{
    let after = step(before, Event::Pop);
    let entries = before.ring.entries();
    let taken = before.popped.len() as int;
    if entries.len() > 0 {
        lemma_pop_first(before);
        assert(entries.skip(1) =~= packets(items.take(count)).skip(taken + 1));
        assert(after.popped =~= Seq::new(
            after.popped.len(),
            |i: int| PopResult::Data(seq_add(0, i), items[i]),
        ));
    } else {
        lemma_pop_nothing(before);
    }
}

/// One more push, of the item that comes next, keeps the order.
proof fn lemma_push_holds_in_order<T>(
    n: nat,
    items: Seq<T>,
    events: Seq<Event<T>>,
    count: int,
)
    requires
        power_of_two(n as int),
        events.len() > 0,
        run(n, events.drop_last()).ring.valid(),
        run(n, events.drop_last()).ring.capacity() == n,
        holds_in_order(run(n, events.drop_last()), items, count),
        count < items.len(),
        events.last() == Event::Push(seq_add(0, count), items[count]),
    ensures
        ({
            let result = push_result(n, events, events.len() - 1);
            let room = run(n, events.drop_last()).ring.len() < n;
            &&& room ==> result == Ok::<(), PushError<T>>(()) && holds_in_order(
                run(n, events),
                items,
                count + 1,
            )
            &&& !room ==> result == Err::<(), PushError<T>>(
                PushError::Full(seq_add(0, count), items[count]),
            ) && holds_in_order(run(n, events), items, count)
        }),
{
    let before = run(n, events.drop_last());
    let taken = before.popped.len() as int;
    lemma_push_in_order(before, items.take(count), taken, items[count]);
    assert(items.take(count).push(items[count]) =~= items.take(count + 1));
    assert(push_result(n, events, events.len() - 1) == push_outcome(
        before.ring,
        before.expected_seq,
        before.ring.read_head,
        seq_add(0, count),
        items[count],
    ).result) by {
        reveal(push_result);
        assert(events.take(events.len() - 1) =~= events.drop_last());
    }
}

/// What is in order is so from the start on.
proof fn lemma_in_order_prefix<T>(n: nat, items: Seq<T>, events: Seq<Event<T>>, len: int)
    requires
        pushes_in_order(n, items, events),
        0 <= len <= events.len(),
    ensures
        pushes_in_order(n, items, events.take(len)),
{
    let earlier = events.take(len);
    assert forall|i: int| 0 <= i < earlier.len() && (#[trigger] earlier[i] is Push) implies {
        let k = accepted(n, earlier.take(i));
        &&& k < items.len()
        &&& earlier[i] == Event::Push(seq_add(0, k as int), items[k as int])
    } by {
        assert(events[i] is Push);
        assert(events.take(i) =~= earlier.take(i));
    }
}

/// Pushes in order keep the order, whatever pops come in between.
proof fn lemma_holds_in_order<T>(n: nat, items: Seq<T>, events: Seq<Event<T>>)
    requires
        power_of_two(n as int),
        n <= usize::MAX,
        pushes_in_order(n, items, events),
    ensures
        holds_in_order(run(n, events), items, accepted(n, events) as int),
    decreases events.len(),
{
    if events.len() == 0 {
        lemma_nothing_in_order(n, items);
    } else {
        let earlier = events.drop_last();
        let last = events.len() - 1;
        let count = accepted(n, earlier) as int;
        assert(events.take(last) =~= earlier);
        lemma_in_order_prefix(n, items, events, last);
        lemma_holds_in_order(n, items, earlier);
        law_every_state(n, earlier);
        if events.last() is Push {
            assert(events[last] is Push);
            lemma_push_holds_in_order(n, items, events, count);
        } else {
            lemma_pop_holds_in_order(run(n, earlier), items, count);
        }
    }
}

/// An empty buffer is in order.
proof fn lemma_nothing_in_order<T>(n: nat, items: Seq<T>)
    ensures
        holds_in_order(run(n, Seq::<Event<T>>::empty()), items, 0),
{
    let start = run(n, Seq::<Event<T>>::empty());
    assert(start.ring.entries() =~= packets(items.take(0)).skip(0));
    assert(start.popped =~= Seq::new(0, |i: int| PopResult::Data(seq_add(0, i), items[i])));
}

/// A push in order is accepted where there is room, and nothing else.
proof fn lemma_push_in_order_result<T>(n: nat, items: Seq<T>, events: Seq<Event<T>>, i: int)
    requires
        power_of_two(n as int),
        n <= usize::MAX,
        pushes_in_order(n, items, events),
        0 <= i < events.len(),
        events[i] is Push,
    ensures
        push_result(n, events, i) == if run(n, events.take(i)).ring.len() < n {
            Ok::<(), PushError<T>>(())
        } else {
            Err(PushError::Full(events[i]->Push_0, events[i]->Push_1))
        },
{
    let before = events.take(i);
    let with = events.take(i + 1);
    lemma_in_order_prefix(n, items, events, i);
    lemma_holds_in_order(n, items, before);
    law_every_state(n, before);
    assert(with.drop_last() =~= before);
    lemma_push_holds_in_order(n, items, with, accepted(n, before) as int);
    assert(push_result(n, events, i) == push_result(n, with, i)) by {
        reveal(push_result);
        assert(with.take(i) =~= before);
    }
}

/// Packets that are pushed in order come out in that order as packets, none of
/// them missing, whatever pops come in between and however often a push has to
/// be repeated. A push is accepted if there is room, and is never too late.
pub proof fn law_in_order_under_any_interleaving<T>(n: nat, items: Seq<T>, events: Seq<Event<T>>)
    requires
        power_of_two(n as int),
        n <= usize::MAX,
        pushes_in_order(n, items, events),
    ensures
        run(n, events).popped == Seq::new(
            run(n, events).popped.len(),
            |i: int| PopResult::Data(seq_add(0, i), items[i]),
        ),
        run(n, events).ring.entries() == packets(items.take(accepted(n, events) as int)).skip(
            run(n, events).popped.len() as int,
        ),
        run(n, events).popped.len() <= accepted(n, events) <= items.len(),
        run(n, events).expected_seq == seq_add(0, accepted(n, events) as int),
        forall|i: int|
            0 <= i < events.len() && (#[trigger] events[i] is Push) ==> push_result(n, events, i)
                == if run(n, events.take(i)).ring.len() < n {
                Ok::<(), PushError<T>>(())
            } else {
                Err(PushError::Full(events[i]->Push_0, events[i]->Push_1))
            },
{
    lemma_holds_in_order(n, items, events);
    assert forall|i: int| 0 <= i < events.len() && (
    #[trigger] events[i] is Push) implies push_result(n, events, i) == if run(
        n,
        events.take(i),
    ).ring.len() < n {
        Ok::<(), PushError<T>>(())
    } else {
        Err(PushError::Full(events[i]->Push_0, events[i]->Push_1))
    } by {
        lemma_push_in_order_result(n, items, events, i);
    }
}

} // verus!
