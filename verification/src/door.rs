//! The way to the ring that two ends share.

use crate::buffer::{contents, lock};
use crate::cell_state::packed;
use crate::model::RingView;
use crate::ring::Shared;
use crossbeam_utils::CachePadded;
use std::sync::{Arc, Mutex, MutexGuard};
use vstd::prelude::*;

verus! {

/// A way to a ring behind a lock. There are two to each ring, and no other way
/// leads there.
#[verifier::reject_recursive_types(T)]
#[verifier::reject_recursive_types(N)]
pub struct Door<T, const N: usize> {
    shared: Arc<CachePadded<Mutex<Shared<T, N>>>>,
    visits: Ghost<nat>,
}

/// Gives the lock back.
pub(crate) fn leave<T, const N: usize>(guard: MutexGuard<Shared<T, N>>) {
}

impl<T, const N: usize> Door<T, N> {
    /// The lock that the ring is behind.
    pub closed spec fn place(&self) -> CachePadded<Mutex<Shared<T, N>>> {
        *self.shared
    }

    /// How often the ring has been visited this way.
    pub closed spec fn visits(&self) -> nat {
        self.visits@
    }

    /// The lock was made with a ring in state `ring` behind it.
    pub closed spec fn made_with(&self, ring: RingView<T>) -> bool {
        exists|first: Shared<T, N>, mutex: Mutex<Shared<T, N>>|
            {
                &&& first@ == ring
                &&& #[trigger] call_ensures(Mutex::<Shared<T, N>>::new, (first,), mutex)
                &&& #[trigger] call_ensures(
                    CachePadded::<Mutex<Shared<T, N>>>::new,
                    (mutex,),
                    *self.shared,
                )
            }
    }

    /// `guard` was handed out by the lock of this ring.
    pub closed spec fn entered(&self, guard: MutexGuard<Shared<T, N>>) -> bool {
        call_ensures(lock::<T, N>, (&*self.shared,), guard)
    }

    /// `guard` was handed out by the lock of this ring, and `ring` is what was
    /// behind it.
    pub closed spec fn opened(
        &self,
        guard: &mut MutexGuard<Shared<T, N>>,
        ring: &mut Shared<T, N>,
    ) -> bool {
        self.entered(*guard) && call_ensures(contents::<T, N>, (guard,), ring)
    }

    /// The lock was given back with `guard`.
    pub closed spec fn left(guard: MutexGuard<Shared<T, N>>) -> bool {
        call_ensures(leave::<T, N>, (guard,), ())
    }

    /// A visit is a call of [`lock`] for the lock of this ring, a call of
    /// [`contents`] for the guard that it hands out, and a call of [`leave`] for
    /// the guard as it is then, and nothing but that.
    pub(crate) proof fn law_visit(&self)
        ensures
            forall|guard: MutexGuard<Shared<T, N>>| #[trigger]
                self.entered(guard) == call_ensures(lock::<T, N>, (&self.place(),), guard),
            forall|guard: &mut MutexGuard<Shared<T, N>>, ring: &mut Shared<T, N>|
                self.opened(guard, ring) == (call_ensures(lock::<T, N>, (&self.place(),), *guard)
                    && #[trigger] call_ensures(contents::<T, N>, (guard,), ring)),
            forall|guard: MutexGuard<Shared<T, N>>|
                Self::left(guard) == #[trigger] call_ensures(leave::<T, N>, (guard,), ()),
    {
    }

    /// The two ways to `ring`.
    pub fn pair(ring: Shared<T, N>) -> (pair: (Self, Self))
        ensures
            pair.0.place() == pair.1.place(),
            pair.0.made_with(ring@),
            pair.0.visits() == 0,
            pair.1.visits() == 0,
    {
        let shared = Arc::new(CachePadded::new(Mutex::new(ring)));
        let first = Door { shared: shared.clone(), visits: Ghost(0) };
        let second = Door { shared, visits: Ghost(0) };
        (first, second)
    }

    /// Takes the lock.
    pub fn enter(&mut self) -> (guard: MutexGuard<'_, Shared<T, N>>)
        ensures
            old(self).entered(guard),
            final(self).visits() == old(self).visits() + 1,
            final(self).place() == old(self).place(),
    {
        self.visits = Ghost(self.visits@ + 1);
        lock(&self.shared)
    }

    /// Number of positions between the reader and the writer, from one visit.
    pub fn len_hint(&self) -> (len: usize)
        ensures
            exists|guard: &mut MutexGuard<Shared<T, N>>, ring: &mut Shared<T, N>|
                {
                    &&& #[trigger] self.opened(guard, ring)
                    &&& Self::left(*final(guard))
                    &&& ring@.valid()
                    &&& ring@.capacity() == N
                    &&& final(ring)@ == ring@
                    &&& len == ring@.entries().len()
                },
            len <= N,
    {
        let mut guard = lock(&self.shared);
        let ring = contents(&mut guard);
        let res = ring.len_hint();
        leave(guard);
        proof {
            self.law_visit();
        }
        res
    }

    /// Whether there is nothing between the reader and the writer, from one visit.
    pub fn is_empty(&self) -> (empty: bool)
        ensures
            exists|guard: &mut MutexGuard<Shared<T, N>>, ring: &mut Shared<T, N>|
                {
                    &&& #[trigger] self.opened(guard, ring)
                    &&& Self::left(*final(guard))
                    &&& ring@.valid()
                    &&& ring@.capacity() == N
                    &&& final(ring)@ == ring@
                    &&& empty == (ring@.entries().len() == 0)
                },
    {
        let mut guard = lock(&self.shared);
        let ring = contents(&mut guard);
        let res = ring.is_empty();
        leave(guard);
        proof {
            self.law_visit();
        }
        res
    }

    /// The packed state of slot `i`, from one visit.
    pub fn cell(&self, i: usize) -> (val: u32)
        requires
            i < N,
        ensures
            exists|guard: &mut MutexGuard<Shared<T, N>>, ring: &mut Shared<T, N>|
                {
                    &&& #[trigger] self.opened(guard, ring)
                    &&& Self::left(*final(guard))
                    &&& ring@.valid()
                    &&& ring@.capacity() == N
                    &&& final(ring)@ == ring@
                    &&& val == packed(ring@.cells[i as int])
                },
    {
        let mut guard = lock(&self.shared);
        let ring = contents(&mut guard);
        let res = ring.cell(i);
        leave(guard);
        proof {
            self.law_visit();
        }
        res
    }
}

} // verus!
