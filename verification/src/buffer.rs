//! The two ends of the buffer.

use crate::cell_state::packed;
use crate::door::{leave, Door};
use crate::history::empty_ring;
use crate::model::{jumps, pop_outcome, push_outcome, seq_gap, RingView};
use crate::ring::Shared;
use crate::wrapping::{power_of_two, seq_add, seq_ahead};
use crossbeam_utils::CachePadded;
use std::sync::{Mutex, MutexGuard};
use vstd::prelude::*;

verus! {

/// What the reader is handed.
#[derive(Debug, Clone, Copy)]
pub enum PopResult<T> {
    /// There is nothing to read.
    Empty,
    /// The packet with this sequence number has not arrived.
    Missing(u16),
    /// The packet with this sequence number.
    Data(u16, T),
}

/// Why a packet was not stored. Sequence number and packet are handed back.
#[derive(Debug)]
pub enum PushError<T> {
    /// The packet is too late.
    Stale(u16, T),
    /// There is no room for the packet.
    Full(u16, T),
}

/// Declares [`crossbeam_utils::CachePadded`]. Nothing is claimed of it.
#[verifier::external_type_specification]
#[verifier::external_body]
#[verifier::reject_recursive_types(T)]
pub struct ExCachePadded<T>(CachePadded<T>);

/// Declares [`std::sync::Mutex`]. Nothing is claimed of it.
#[verifier::external_type_specification]
#[verifier::external_body]
#[verifier::reject_recursive_types(T)]
pub struct ExMutex<T: ?Sized>(Mutex<T>);

/// Declares [`std::sync::MutexGuard`]. Nothing is claimed of it.
#[verifier::external_type_specification]
#[verifier::external_body]
#[verifier::reject_recursive_types(T)]
pub struct ExMutexGuard<'a, T: ?Sized + 'a>(MutexGuard<'a, T>);

/// [`CachePadded::new`] puts a value on cache lines of its own. Nothing is
/// claimed of the result.
pub assume_specification<T>[ CachePadded::<T>::new ](t: T) -> CachePadded<T>;

/// [`Mutex::new`] puts a value behind a lock. Nothing is claimed of the result.
pub assume_specification<T>[ Mutex::<T>::new ](t: T) -> Mutex<T>;

/// Waits for the lock with [`Mutex::lock`] and takes it, also where a thread
/// has panicked with it. Nothing is claimed of what is behind the lock: the
/// other end may have changed it. No call of this library asks for the lock
/// while it holds it.
#[verifier::external_body]
pub(crate) fn lock<'a, T, const N: usize>(shared: &'a CachePadded<Mutex<Shared<T, N>>>) -> (guard:
    MutexGuard<'a, Shared<T, N>>) {
    match shared.lock() {
        Ok(guard) => guard,
        Err(poisoned) => poisoned.into_inner(),
    }
}

/// What is behind the lock, from `deref_mut` of [`MutexGuard`]. Nothing is
/// claimed of it: the other end may have changed it before the lock was taken.
#[verifier::external_body]
pub(crate) fn contents<'a, 'b, T, const N: usize>(
    guard: &'a mut MutexGuard<'b, Shared<T, N>>,
) -> (ring: &'a mut Shared<T, N>) {
    guard
}

/// The end that packets are pushed to.
#[verifier::reject_recursive_types(T)]
#[verifier::reject_recursive_types(N)]
pub struct Writer<T, const N: usize> {
    door: Door<T, N>,
    expected_seq: u16,
}

/// The end that packets are popped from.
#[verifier::reject_recursive_types(T)]
#[verifier::reject_recursive_types(N)]
pub struct Reader<T, const N: usize> {
    door: Door<T, N>,
}

/// The two ends of an empty buffer of `N` slots.
pub fn new_pair<T, const N: usize>() -> (pair: (Writer<T, N>, Reader<T, N>))
    ensures
        pair.0.expected_seq() == 0,
        pair.0.feeds(pair.1),
        pair.0.door().made_with(empty_ring(N as nat)),
{
    let (first, second) = Door::pair(Shared::<T, N>::default());
    let w = Writer { door: first, expected_seq: 0 };
    let r = Reader { door: second };
    (w, r)
}

/// What a push makes of the ring that it finds, of the expected sequence number
/// and of the packet.
pub open spec fn is_push<T>(
    found: RingView<T>,
    left: RingView<T>,
    expected: u16,
    expected_after: u16,
    seq: u16,
    data: T,
    res: Result<(), PushError<T>>,
) -> bool {
    let outcome = push_outcome(found, expected, found.read_head, seq, data);
    &&& found.valid()
    &&& left.valid()
    &&& left == outcome.ring
    &&& expected_after == outcome.expected_seq
    &&& res == outcome.result
}

/// What a pop makes of the ring that it finds.
pub open spec fn is_pop<T>(found: RingView<T>, left: RingView<T>, res: PopResult<T>) -> bool {
    &&& found.valid()
    &&& left.valid()
    &&& (left, res) == pop_outcome(found)
}

impl<T, const N: usize> Writer<T, N> {
    /// The sequence number that the writer expects next.
    pub closed spec fn expected_seq(&self) -> u16 {
        self.expected_seq
    }

    /// The way to the ring.
    pub closed spec fn door(&self) -> Door<T, N> {
        self.door
    }

    /// The two ends share one ring.
    pub closed spec fn feeds(&self, reader: Reader<T, N>) -> bool {
        self.door.place() == reader.door.place()
    }

    /// Pushes a packet. Where the buffer does not take it, the packet is handed
    /// back.
    ///
    /// The ring behind the lock is visited once. What comes of the push, and the
    /// ring that is left behind, is what [`push_outcome`] says of the ring that
    /// is found there. The reader decides how much room there is, and which
    /// placeholders are still there. A value that was left in a slot is dropped
    /// when the slot is used again, after the lock is given back.
    pub fn push(&mut self, seq: u16, data: T) -> (res: Result<(), PushError<T>>)
        requires
            power_of_two(N as int),
        ensures
            exists|guard: &mut MutexGuard<Shared<T, N>>, ring: &mut Shared<T, N>|
                {
                    &&& #[trigger] old(self).door().opened(guard, ring)
                    &&& Door::left(*final(guard))
                    &&& ring@.capacity() == N
                    &&& is_push(
                        ring@,
                        final(ring)@,
                        old(self).expected_seq(),
                        final(self).expected_seq(),
                        seq,
                        data,
                        res,
                    )
                },
            final(self).door().visits() == old(self).door().visits() + 1,
            final(self).door().place() == old(self).door().place(),
            match res {
                Ok(()) => final(self).expected_seq() == if old(self).is_late(seq) {
                    old(self).expected_seq()
                } else {
                    seq_add(seq, 1)
                },
                Err(PushError::Stale(s, d)) => {
                    &&& s == seq
                    &&& d == data
                    &&& old(self).is_late(seq)
                    &&& final(self).expected_seq() == old(self).expected_seq()
                },
                Err(PushError::Full(s, d)) => {
                    &&& s == seq
                    &&& d == data
                    &&& !old(self).is_late(seq)
                    &&& if jumps(old(self).expected_seq(), seq, N as int) {
                        final(self).expected_seq() == seq_add(seq, 1)
                    } else {
                        seq_ahead(old(self).expected_seq(), final(self).expected_seq()) <= seq_gap(
                            old(self).expected_seq(),
                            seq,
                        )
                    }
                },
            },
            forall|reader: Reader<T, N>|
                final(self).feeds(reader) == #[trigger] old(self).feeds(reader),
    {
        // declared before the guard, and so dropped after it
        let mut retired: Vec<T> = Vec::new();
        let mut guard = self.door.enter();
        let ring = contents(&mut guard);
        let read = ring.read_head();
        let mut expected_seq = self.expected_seq;
        let res = ring.push(&mut expected_seq, read, seq, data, &mut retired);
        leave(guard);
        self.expected_seq = expected_seq;
        proof {
            old(self).door().law_visit();
        }
        res
    }

    /// `seq` is in the past, and not far from the expected sequence number.
    pub open spec fn is_late(&self, seq: u16) -> bool {
        !jumps(self.expected_seq(), seq, N as int) && seq_gap(self.expected_seq(), seq) < 0
    }

    /// The packed state of slot `i` of the ring as it is found.
    pub fn cell(&self, i: usize) -> (val: u32)
        requires
            i < N,
        ensures
            exists|guard: &mut MutexGuard<Shared<T, N>>, ring: &mut Shared<T, N>|
                {
                    &&& #[trigger] self.door().opened(guard, ring)
                    &&& Door::left(*final(guard))
                    &&& ring@.valid()
                    &&& ring@.capacity() == N
                    &&& final(ring)@ == ring@
                    &&& val == packed(ring@.cells[i as int])
                },
    {
        assert(self.door() == self.door);
        self.door.cell(i)
    }
}

impl<T, const N: usize> Reader<T, N> {
    /// The way to the ring.
    pub closed spec fn door(&self) -> Door<T, N> {
        self.door
    }

    /// Upper bound on the number of available items. Not the exact number, as
    /// some positions may have to be passed over.
    pub fn len_hint(&self) -> (len: usize)
        ensures
            exists|guard: &mut MutexGuard<Shared<T, N>>, ring: &mut Shared<T, N>|
                {
                    &&& #[trigger] self.door().opened(guard, ring)
                    &&& Door::left(*final(guard))
                    &&& ring@.valid()
                    &&& ring@.capacity() == N
                    &&& final(ring)@ == ring@
                    &&& len == ring@.entries().len()
                },
            len <= N,
    {
        assert(self.door() == self.door);
        self.door.len_hint()
    }

    /// Whether there is nothing between the reader and the writer.
    pub fn is_empty(&self) -> (empty: bool)
        ensures
            exists|guard: &mut MutexGuard<Shared<T, N>>, ring: &mut Shared<T, N>|
                {
                    &&& #[trigger] self.door().opened(guard, ring)
                    &&& Door::left(*final(guard))
                    &&& ring@.valid()
                    &&& ring@.capacity() == N
                    &&& final(ring)@ == ring@
                    &&& empty == (ring@.entries().len() == 0)
                },
    {
        assert(self.door() == self.door);
        self.door.is_empty()
    }

    /// Pops the oldest item.
    ///
    /// The ring behind the lock is visited once. What is handed out, and the
    /// ring that is left behind, is what [`pop_outcome`] says of the ring that
    /// is found there, which the writer decides.
    pub fn pop(&mut self) -> (res: PopResult<T>)
        ensures
            exists|guard: &mut MutexGuard<Shared<T, N>>, ring: &mut Shared<T, N>|
                {
                    &&& #[trigger] old(self).door().opened(guard, ring)
                    &&& Door::left(*final(guard))
                    &&& ring@.capacity() == N
                    &&& is_pop(ring@, final(ring)@, res)
                },
            final(self).door().visits() == old(self).door().visits() + 1,
            final(self).door().place() == old(self).door().place(),
            forall|writer: Writer<T, N>|
                writer.feeds(*final(self)) == #[trigger] writer.feeds(*old(self)),
    {
        let mut guard = self.door.enter();
        let ring = contents(&mut guard);
        let res = ring.pop();
        leave(guard);
        proof {
            old(self).door().law_visit();
        }
        res
    }
}

} // verus!
