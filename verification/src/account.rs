//! What becomes of the values that are pushed: each of them is handed out,
//! handed back or dropped, once.

use crate::buffer::{PopResult, PushError};
use crate::history::{law_every_state, run, step, Event, Run};
use crate::model::{jumps, leading_skips, pop_outcome, push_outcome, seq_gap, RingView};
use crate::queue::{lemma_filled, lemma_leading_skips_bound, lemma_slots};
use crate::wrapping::{
    advance, ahead, lemma_slot_of_advance, lemma_steps_to, power_of_two, slot_of,
};
use vstd::multiset::Multiset;
use vstd::prelude::*;
use vstd::seq_lib::lemma_multiset_commutative;

verus! {

/// The value of a slot, if there is one.
pub open spec fn value_of<T>(val: Option<T>) -> Multiset<T> {
    match val {
        Some(v) => Multiset::singleton(v),
        None => Multiset::empty(),
    }
}

/// The values that are stored in slots.
pub open spec fn stored<T>(vals: Seq<Option<T>>) -> Multiset<T>
    decreases vals.len(),
{
    if vals.len() == 0 {
        Multiset::empty()
    } else {
        stored(vals.drop_last()).add(value_of(vals.last()))
    }
}

/// The value that a push hands back, if it does.
pub open spec fn refused<T>(result: Result<(), PushError<T>>) -> Multiset<T> {
    match result {
        Ok(()) => Multiset::empty(),
        Err(PushError::Stale(_, data)) => Multiset::singleton(data),
        Err(PushError::Full(_, data)) => Multiset::singleton(data),
    }
}

/// The value that a pop hands out, if it does.
pub open spec fn handed_out<T>(res: PopResult<T>) -> Multiset<T> {
    match res {
        PopResult::Data(_, data) => Multiset::singleton(data),
        _ => Multiset::empty(),
    }
}

/// A value that is put into a slot takes the place of the one that was there.
proof fn lemma_stored_update<T>(vals: Seq<Option<T>>, i: int, val: Option<T>)
    requires
        0 <= i < vals.len(),
    ensures
        stored(vals.update(i, val)).add(value_of(vals[i])) == stored(vals).add(value_of(val)),
    decreases vals.len(),
{
    let next = vals.update(i, val);
    let fewer = vals.drop_last();
    if i == vals.len() - 1 {
        assert(next.drop_last() =~= fewer);
        assert(stored(next).add(value_of(vals[i])) =~= stored(vals).add(value_of(val)));
    } else {
        lemma_stored_update(fewer, i, val);
        assert(next.drop_last() =~= fewer.update(i, val));
        assert forall|v: T|
            stored(next).add(value_of(vals[i])).count(v) == stored(vals).add(value_of(val)).count(
                v,
            ) by {
            assert(stored(fewer.update(i, val)).add(value_of(fewer[i])).count(v) == stored(
                fewer,
            ).add(value_of(val)).count(v));
        }
        assert(stored(next).add(value_of(vals[i])) =~= stored(vals).add(value_of(val)));
    }
}

/// Nothing is stored in empty slots.
proof fn lemma_nothing_stored<T>(n: nat)
    ensures
        stored(Seq::new(n, |i: int| None::<T>)) == Multiset::<T>::empty(),
    decreases n,
{
    if n > 0 {
        let vals = Seq::new(n, |i: int| None::<T>);
        lemma_nothing_stored::<T>((n - 1) as nat);
        assert(vals.drop_last() =~= Seq::new((n - 1) as nat, |i: int| None::<T>));
    }
    assert(stored(Seq::new(n, |i: int| None::<T>)) =~= Multiset::<T>::empty());
}

/// The value of a slot as a sequence and as a multiset.
proof fn lemma_value_in<T>(ring: RingView<T>, i: int)
    ensures
        ring.value_in(i).to_multiset() == value_of(ring.vals[i]),
{
    broadcast use vstd::seq_lib::group_to_multiset_ensures;

    assert(ring.value_in(i).to_multiset() =~= value_of(ring.vals[i])) by {
        if ring.vals[i] is Some {
            let v = ring.vals[i]->0;
            assert(ring.value_in(i) =~= Seq::<T>::empty().push(v));
        }
    }
}

/// Placeholders take the place of what was left in their slots. The slot after
/// them is left alone.
proof fn lemma_reserved_account<T>(ring: RingView<T>, seq: u16, count: int)
    requires
        power_of_two(ring.capacity()),
        ring.vals.len() == ring.cells.len(),
        ring.capacity() <= usize::MAX,
        0 <= count <= ring.capacity(),
    ensures
        stored(ring.reserved(seq, count).vals).add(ring.left_over(count).to_multiset()) == stored(
            ring.vals,
        ),
        count < ring.capacity() ==> {
            let i = slot_of(advance(ring.write_head, count), ring.capacity());
            &&& 0 <= i < ring.capacity()
            &&& ring.reserved(seq, count).vals[i] == ring.vals[i]
        },
    decreases count,
{
    broadcast use vstd::seq_lib::group_to_multiset_ensures;

    let n = ring.capacity();
    let next = ring.reserved(seq, count);
    if count < n {
        let i = slot_of(advance(ring.write_head, count), n);
        lemma_slot_of_advance(ring.write_head, count, n);
        lemma_steps_to(ring.write_head, count, i, n);
    }
    if count == 0 {
        assert forall|j: int| 0 <= j < n implies next.vals[j] == ring.vals[j] by {
            lemma_steps_to(ring.write_head, 0, j, n);
        }
        assert(next.vals =~= ring.vals);
        assert(ring.left_over(0).to_multiset() =~= Multiset::empty());
        assert(stored(next.vals).add(ring.left_over(0).to_multiset()) =~= stored(ring.vals));
    } else {
        let fewer = ring.reserved(seq, count - 1);
        let i = slot_of(advance(ring.write_head, count - 1), n);
        lemma_reserved_account(ring, seq, count - 1);
        assert forall|j: int| 0 <= j < n implies next.vals[j] == fewer.vals.update(i, None)[j] by {
            lemma_steps_to(ring.write_head, count - 1, j, n);
        }
        assert(next.vals =~= fewer.vals.update(i, None));
        lemma_stored_update(fewer.vals, i, None);
        lemma_multiset_commutative(ring.left_over(count - 1), ring.value_in(i));
        lemma_value_in(ring, i);
        assert forall|v: T|
            stored(next.vals).add(ring.left_over(count).to_multiset()).count(v) == stored(
                ring.vals,
            ).count(v) by {
            assert(stored(next.vals).add(value_of(fewer.vals[i])).count(v) == stored(
                fewer.vals,
            ).add(value_of(None)).count(v));
            assert(stored(fewer.vals).add(ring.left_over(count - 1).to_multiset()).count(v)
                == stored(ring.vals).count(v));
        }
        assert(stored(next.vals).add(ring.left_over(count).to_multiset()) =~= stored(ring.vals));
    }
}

/// A packet that is appended takes the place of what was left in its slot.
proof fn lemma_appended_account<T>(ring: RingView<T>, data: T, i: int)
    requires
        0 <= i < ring.vals.len(),
    ensures
        stored(ring.vals.update(i, Some(data))).add(ring.value_in(i).to_multiset()) == stored(
            ring.vals,
        ).insert(data),
{
    lemma_stored_update(ring.vals, i, Some(data));
    lemma_value_in(ring, i);
    assert(stored(ring.vals.update(i, Some(data))).add(ring.value_in(i).to_multiset())
        =~= stored(ring.vals).insert(data));
}

/// A push accounts for every value: what was stored and what is pushed are
/// stored afterwards, dropped or handed back, each of them once.
pub proof fn law_push_accounts_for_values<T>(
    ring: RingView<T>,
    expected: u16,
    read: usize,
    seq: u16,
    data: T,
)
    requires
        ring.valid(),
        power_of_two(ring.capacity()),
        ring.observable(read),
    ensures
        ({
            let outcome = push_outcome(ring, expected, read, seq, data);
            stored(outcome.ring.vals).add(outcome.retired.to_multiset()).add(
                refused(outcome.result),
            ) == stored(ring.vals).insert(data)
        }),
{
    broadcast use vstd::seq_lib::group_to_multiset_ensures;

    let n = ring.capacity();
    let gap = seq_gap(expected, seq);
    let used = ahead(read, ring.write_head);
    let outcome = push_outcome(ring, expected, read, seq, data);
    assert(Seq::<T>::empty().to_multiset() =~= Multiset::empty());
    if jumps(expected, seq, n) {
        if used < n {
            let i = slot_of(ring.write_head, n);
            lemma_slot_of_advance(ring.write_head, 0, n);
            assert(advance(ring.write_head, 0) == ring.write_head);
            lemma_appended_account(ring, data, i);
            assert(ring.left_over(0) =~= Seq::empty());
            assert(ring.left_over(1) =~= ring.value_in(i));
        }
    } else if gap < 0 {
        let i = ring.slot_behind(read, -gap);
        if -gap <= used {
            lemma_filled(ring, read, -gap, seq, data);
            lemma_appended_account(ring, data, i);
        }
    } else if gap < n - used {
        let mid = ring.reserved(expected, gap);
        let i = slot_of(advance(ring.write_head, gap), n);
        lemma_reserved_account(ring, expected, gap);
        lemma_appended_account(mid, data, i);
        assert(mid.value_in(i) == ring.value_in(i));
        lemma_multiset_commutative(ring.left_over(gap), ring.value_in(i));
        assert forall|v: T|
            stored(outcome.ring.vals).add(outcome.retired.to_multiset()).count(v) == stored(
                ring.vals,
            ).insert(data).count(v) by {
            assert(stored(outcome.ring.vals).add(ring.value_in(i).to_multiset()).count(v)
                == stored(mid.vals).insert(data).count(v));
            assert(stored(mid.vals).add(ring.left_over(gap).to_multiset()).count(v) == stored(
                ring.vals,
            ).count(v));
        }
    } else {
        lemma_reserved_account(ring, expected, n - used);
    }
    assert(stored(outcome.ring.vals).add(outcome.retired.to_multiset()).add(
        refused(outcome.result),
    ) =~= stored(ring.vals).insert(data));
}

/// A pop accounts for every value: what was stored is stored afterwards, or it is
/// the value that is handed out.
pub proof fn law_pop_accounts_for_values<T>(ring: RingView<T>)
    requires
        ring.valid(),
    ensures
        stored(pop_outcome(ring).0.vals).add(handed_out(pop_outcome(ring).1)) == stored(ring.vals),
{
    let k = leading_skips(ring.entries()) as int;
    lemma_leading_skips_bound(ring.entries());
    if k < ring.len() {
        lemma_slots(ring);
        if ring.cells[ring.slot(k)] is Data {
            lemma_stored_update(ring.vals, ring.slot(k), None);
        }
    }
    assert(stored(pop_outcome(ring).0.vals).add(handed_out(pop_outcome(ring).1)) =~= stored(
        ring.vals,
    ));
}

/// The values that are pushed.
pub open spec fn values_pushed<T>(events: Seq<Event<T>>) -> Multiset<T>
    decreases events.len(),
{
    if events.len() == 0 {
        Multiset::empty()
    } else {
        match events.last() {
            Event::Push(_, data) => values_pushed(events.drop_last()).insert(data),
            Event::Pop => values_pushed(events.drop_last()),
        }
    }
}

/// The values that pops have handed out.
pub open spec fn values_popped<T>(popped: Seq<PopResult<T>>) -> Multiset<T>
    decreases popped.len(),
{
    if popped.len() == 0 {
        Multiset::empty()
    } else {
        values_popped(popped.drop_last()).add(handed_out(popped.last()))
    }
}

/// The values that pushes have dropped.
pub open spec fn values_dropped<T>(n: nat, events: Seq<Event<T>>) -> Multiset<T>
    decreases events.len(),
{
    if events.len() == 0 {
        Multiset::empty()
    } else {
        let before = run(n, events.drop_last());
        values_dropped(n, events.drop_last()).add(
            match events.last() {
                Event::Push(seq, data) => push_outcome(
                    before.ring,
                    before.expected_seq,
                    before.ring.read_head,
                    seq,
                    data,
                ).retired.to_multiset(),
                Event::Pop => Multiset::empty(),
            },
        )
    }
}

/// The values that pushes have handed back.
pub open spec fn values_refused<T>(n: nat, events: Seq<Event<T>>) -> Multiset<T>
    decreases events.len(),
{
    if events.len() == 0 {
        Multiset::empty()
    } else {
        let before = run(n, events.drop_last());
        values_refused(n, events.drop_last()).add(
            match events.last() {
                Event::Push(seq, data) => refused(
                    push_outcome(
                        before.ring,
                        before.expected_seq,
                        before.ring.read_head,
                        seq,
                        data,
                    ).result,
                ),
                Event::Pop => Multiset::empty(),
            },
        )
    }
}

/// Whatever is called on the buffer, each value that was pushed has been handed
/// out, dropped or handed back, or is still stored: one of these, and once.
pub proof fn law_values_are_accounted_for<T>(n: nat, events: Seq<Event<T>>)
    requires
        power_of_two(n as int),
        n <= usize::MAX,
    ensures
        values_pushed(events) == values_popped(run(n, events).popped).add(
            stored(run(n, events).ring.vals),
        ).add(values_dropped(n, events)).add(values_refused(n, events)),
    decreases events.len(),
{
    let after = run(n, events);
    if events.len() == 0 {
        lemma_nothing_stored::<T>(n);
    } else {
        let earlier = events.drop_last();
        let before = run(n, earlier);
        law_values_are_accounted_for(n, earlier);
        law_every_state(n, earlier);
        lemma_step_account(before, events.last());
        let account = values_popped(before.popped).add(stored(before.ring.vals)).add(
            values_dropped(n, earlier),
        ).add(values_refused(n, earlier));
        assert forall|v: T|
            values_pushed(events).count(v) == values_popped(after.popped).add(
                stored(after.ring.vals),
            ).add(values_dropped(n, events)).add(values_refused(n, events)).count(v) by {
            assert(values_pushed(earlier).count(v) == account.count(v));
            match events.last() {
                Event::Push(seq, data) => {
                    let outcome = push_outcome(
                        before.ring,
                        before.expected_seq,
                        before.ring.read_head,
                        seq,
                        data,
                    );
                    assert(stored(after.ring.vals).add(outcome.retired.to_multiset()).add(
                        refused(outcome.result),
                    ).count(v) == stored(before.ring.vals).insert(data).count(v));
                },
                Event::Pop => {
                    assert(values_popped(after.popped).add(stored(after.ring.vals)).count(v)
                        == values_popped(before.popped).add(stored(before.ring.vals)).count(v));
                },
            }
        }
    }
    assert(values_pushed(events) =~= values_popped(after.popped).add(stored(after.ring.vals)).add(
        values_dropped(n, events),
    ).add(values_refused(n, events)));
}

/// What one more call does to the values.
proof fn lemma_step_account<T>(before: Run<T>, event: Event<T>)
    requires
        before.ring.valid(),
        power_of_two(before.ring.capacity()),
    ensures
        ({
            let after = step(before, event);
            match event {
                Event::Push(seq, data) => {
                    let outcome = push_outcome(
                        before.ring,
                        before.expected_seq,
                        before.ring.read_head,
                        seq,
                        data,
                    );
                    &&& after.popped == before.popped
                    &&& stored(after.ring.vals).add(outcome.retired.to_multiset()).add(
                        refused(outcome.result),
                    ) == stored(before.ring.vals).insert(data)
                },
                Event::Pop => values_popped(after.popped).add(stored(after.ring.vals))
                    == values_popped(before.popped).add(stored(before.ring.vals)),
            }
        }),
{
    reveal(step);
    let after = step(before, event);
    match event {
        Event::Push(seq, data) => {
            law_push_accounts_for_values(
                before.ring,
                before.expected_seq,
                before.ring.read_head,
                seq,
                data,
            );
        },
        Event::Pop => {
            law_pop_accounts_for_values(before.ring);
            let res = pop_outcome(before.ring).1;
            assert(before.popped.push(res).drop_last() =~= before.popped);
            assert(values_popped(after.popped).add(stored(after.ring.vals)) =~= values_popped(
                before.popped,
            ).add(stored(before.ring.vals)));
        },
    }
}

} // verus!
