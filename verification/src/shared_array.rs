//! Storage for the values of the ring.

use vstd::prelude::*;

verus! {

/// `N` slots, each of which may store a value.
pub struct SharedArray<T, const N: usize> {
    vals: Vec<Option<T>>,
}

impl<T, const N: usize> View for SharedArray<T, N> {
    type V = Seq<Option<T>>;

    closed spec fn view(&self) -> Seq<Option<T>> {
        self.vals@
    }
}

impl<T, const N: usize> SharedArray<T, N> {
    #[verifier::type_invariant]
    closed spec fn wf(&self) -> bool {
        self.vals@.len() == N
    }

    /// Takes the value out of slot `i`, which must store one.
    pub fn take(&mut self, i: usize) -> (val: T)
        requires
            i < N,
            old(self)@[i as int] is Some,
        ensures
            old(self)@.len() == N,
            final(self)@.len() == N,
            old(self)@[i as int] == Some(val),
            final(self)@ == old(self)@.update(i as int, None),
        no_unwind
    {
        match self.take_if_present(i) {
            Some(val) => val,
            None => vstd::pervasive::unreached(),
        }
    }

    /// Stores a value in slot `i`. The previous value, if any, is handed back,
    /// for the caller to drop.
    pub fn insert(&mut self, i: usize, t: T) -> (prev: Option<T>)
        requires
            i < N,
        ensures
            old(self)@.len() == N,
            final(self)@.len() == N,
            prev == old(self)@[i as int],
            final(self)@ == old(self)@.update(i as int, Some(t)),
        no_unwind
    {
        proof {
            use_type_invariant(&*self);
        }
        let mut slot: Option<T> = Some(t);
        core::mem::swap(&mut self.vals[i], &mut slot);
        slot
    }

    /// Takes the value out of slot `i`, if there is one, for the caller to drop.
    pub fn take_if_present(&mut self, i: usize) -> (val: Option<T>)
        requires
            i < N,
        ensures
            old(self)@.len() == N,
            final(self)@.len() == N,
            val == old(self)@[i as int],
            final(self)@ == old(self)@.update(i as int, None),
        no_unwind
    {
        proof {
            use_type_invariant(&*self);
        }
        let mut slot: Option<T> = None;
        core::mem::swap(&mut self.vals[i], &mut slot);
        slot
    }
}

impl<T, const N: usize> Default for SharedArray<T, N> {
    /// `N` slots that store nothing.
    fn default() -> (res: Self)
        ensures
            res@ == Seq::new(N as nat, |i: int| None::<T>),
    {
        let mut vals: Vec<Option<T>> = Vec::with_capacity(N);
        while vals.len() < N
            invariant
                vals@.len() <= N,
                forall|i: int| 0 <= i < vals@.len() ==> vals@[i] is None,
            decreases N - vals.len(),
        {
            vals.push(None);
        }
        let res = SharedArray { vals };
        assert(res@ =~= Seq::new(N as nat, |i: int| None::<T>));
        res
    }
}

} // verus!
