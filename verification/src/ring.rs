//! The state that the two ends of the buffer share, and the steps that each of
//! them takes on it.

use crate::buffer::{PopResult, PushError};
use crate::cell_state::{is_packed, packed, unpacked, CellState};
use crate::model::{
    jump_thresh, jumps, lemma_leading_skips, look_outcome, pop_outcome, push_outcome, seq_gap,
    RingView,
};
use crate::shared_array::SharedArray;
use crate::wrapping::{
    advance, ahead, lemma_slot_of_advance, lemma_steps_to, power_of_two, seq_add, seq_ahead,
    slot_of, steps_to, wrapping_range_u16, wrapping_range_usize, wrapping_range_usize_contains,
};
use vstd::prelude::*;

verus! {

/// The ring: heads, cell states and values.
pub struct Shared<T, const N: usize> {
    read_head: usize,
    write_head: usize,
    arr: SharedArray<T, N>,
    // packed cell states
    cells: Vec<u32>,
}

/// Sets word `i`.
fn store(cells: &mut Vec<u32>, i: usize, val: u32)
    requires
        i < old(cells)@.len(),
    ensures
        final(cells)@ == old(cells)@.update(i as int, val),
    no_unwind
{
    cells[i] = val;
}

/// Puts a value, if there is one, with those to be dropped.
fn retire<T>(retired: &mut Vec<T>, val: Option<T>)
    ensures
        final(retired)@ == old(retired)@ + match val {
            Some(v) => seq![v],
            None => Seq::empty(),
        },
{
    match val {
        Some(v) => {
            retired.push(v);
        },
        None => {},
    }
}

/// How far a sequence number may be from the expected one before the buffer
/// gives up its contents for it.
fn jump_threshold<const N: usize>() -> (thresh: u16)
    ensures
        thresh == jump_thresh(N as int),
{
    // somewhat arbitrary
    if N > 0xFFFF {
        0xFFFF
    } else {
        N as u16
    }
}

/// Whether `seq` is far away from the expected sequence number. Randomized
/// initial sequence numbers need this (RTP has them), and it deals better with
/// a huge burst of lost packets.
pub fn should_jump_to<const N: usize>(expected_seq: u16, seq: u16) -> (res: bool)
    ensures
        res == jumps(expected_seq, seq, N as int),
{
    let thresh = jump_threshold::<N>() as i32;
    let d = diff(expected_seq, seq) as i32;
    d < -thresh || d > thresh
}

/// The distance from the expected sequence number to `seq`, negative where
/// `seq` is in the past.
pub fn diff(expected_seq: u16, seq: u16) -> (res: i16)
    ensures
        res == seq_gap(expected_seq, seq),
{
    let d: u16 = seq.wrapping_sub(expected_seq);
    assert(d < 0x8000 ==> (d as i16) == d) by (bit_vector);
    assert(d >= 0x8000 ==> (d as i16) == d - 0x1_0000) by (bit_vector);
    d as i16
}

impl<T, const N: usize> View for Shared<T, N> {
    type V = RingView<T>;

    closed spec fn view(&self) -> RingView<T> {
        RingView {
            cells: Seq::new(self.cells@.len(), |i: int| unpacked(self.cells@[i])),
            vals: self.arr@,
            read_head: self.read_head,
            write_head: self.write_head,
        }
    }
}

impl<T, const N: usize> Shared<T, N> {
    #[verifier::type_invariant]
    closed spec fn wf(&self) -> bool {
        &&& self.cells@.len() == N
        &&& self.arr@.len() == N
        &&& forall|i: int|
            0 <= i < N ==> is_packed(#[trigger] self.cells@[i]) && packed(
                unpacked(self.cells@[i]),
            ) == self.cells@[i]
        &&& ahead(self.read_head, self.write_head) <= N
        &&& self.read_head != self.write_head ==> power_of_two(N as int)
        &&& forall|k: int|
            0 <= k < ahead(self.read_head, self.write_head) && unpacked(
                self.cells@[slot_of(#[trigger] advance(self.read_head, k), N as int)],
            ) is Data ==> self.arr@[slot_of(advance(self.read_head, k), N as int)] is Some
    }

    proof fn lemma_valid(&self)
        requires
            self.wf(),
        ensures
            self@.valid(),
            self@.capacity() == N,
    {
        assert forall|k: int|
            0 <= k < self@.len() && self@.cells[#[trigger] self@.slot(k)] is Data implies (
        self@.vals[self@.slot(k)] is Some) by {
            lemma_slot_of_advance(self.read_head, k, N as int);
            let p = advance(self.read_head, k);
        }
    }

    /// The position that the reader comes to next.
    pub fn read_head(&self) -> (head: usize)
        ensures
            head == self@.read_head,
            self@.capacity() == N,
            self@.valid(),
    {
        proof {
            use_type_invariant(self);
            self.lemma_valid();
        }
        self.read_head
    }

    /// The position that the writer comes to next.
    pub fn write_head(&self) -> (head: usize)
        ensures
            head == self@.write_head,
            self@.capacity() == N,
            self@.valid(),
    {
        proof {
            use_type_invariant(self);
            self.lemma_valid();
        }
        self.write_head
    }

    /// Marks every position from `read` up to the write head as one to be
    /// passed over. Later positions come first.
    fn flush(&mut self, read: usize)
        requires
            power_of_two(N as int),
            old(self)@.observable(read),
        ensures
            final(self)@ == old(self)@.flushed(read),
    {
        proof {
            use_type_invariant(&*self);
        }
        let skip = CellState::Skip.pack();
        let ghost start = *self;
        let range = wrapping_range_usize(read, self.write_head);
        let len = range.len();
        let mut i: usize = len;
        while i > 0
            invariant
                i <= len == ahead(read, start.write_head) <= N,
                range@ == Seq::new(len as nat, |j: int| advance(read, j)),
                power_of_two(N as int),
                start.wf(),
                self.wf(),
                self.read_head == start.read_head,
                self.write_head == start.write_head,
                self.arr == start.arr,
                skip == packed(CellState::Skip),
                forall|j: int|
                    0 <= j < N ==> #[trigger] self.cells@[j] == (if i <= steps_to(
                        read,
                        j,
                        N as int,
                    ) < len {
                        skip
                    } else {
                        start.cells@[j]
                    }),
            decreases i,
        {
            i = i - 1;
            let idx = range.get(i) % N;
            assert forall|j: int| 0 <= j < N implies (j == idx <==> #[trigger] steps_to(
                read,
                j,
                N as int,
            ) == i) by {
                lemma_steps_to(read, i as int, j, N as int);
            }
            store(&mut self.cells, idx, skip);
        }
        assert(self@.cells =~= start@.flushed(read).cells) by {
            assert forall|j: int| 0 <= j < N implies self@.cells[j] == start@.flushed(
                read,
            ).cells[j] by {
                if len > 0 {
                    lemma_steps_to(read, 0, j, N as int);
                } else {
                    vstd::arithmetic::div_mod::lemma_mod_bound(j - read, N as int);
                }
            }
        }
    }

    /// The slot at the write head is none that the reader can still come to.
    proof fn lemma_write_slot_free(&self)
        requires
            self.wf(),
            power_of_two(N as int),
            ahead(self.read_head, self.write_head) < N,
        ensures
            0 <= slot_of(self.write_head, N as int) < N,
            forall|k: int|
                0 <= k < ahead(self.read_head, self.write_head) ==> slot_of(
                    #[trigger] advance(self.read_head, k),
                    N as int,
                ) != slot_of(self.write_head, N as int),
            advance(self.read_head, ahead(self.read_head, self.write_head)) == self.write_head,
    {
        let len = ahead(self.read_head, self.write_head);
        lemma_slot_of_advance(self.write_head, 0, N as int);
        let i = slot_of(self.write_head, N as int);
        lemma_steps_to(self.read_head, len, i, N as int);
        assert forall|k: int| 0 <= k < len implies slot_of(
            #[trigger] advance(self.read_head, k),
            N as int,
        ) != i by {
            lemma_steps_to(self.read_head, k, i, N as int);
        }
    }

    /// Appends a packet. Hands back what was left in its slot.
    fn append_data(&mut self, seq: u16, data: T) -> (prev: Option<T>)
        requires
            power_of_two(N as int),
            old(self)@.len() < N,
        ensures
            final(self)@ == old(self)@.appended(seq, data),
            prev == old(self)@.vals[slot_of(old(self)@.write_head, N as int)],
    {
        proof {
            use_type_invariant(&*self);
            self.lemma_write_slot_free();
        }
        let ghost start = *self;
        let idx = self.write_head % N;
        let prev = self.arr.insert(idx, data);
        let val = CellState::Data(seq).pack();
        store(&mut self.cells, idx, val);
        self.write_head = self.write_head.wrapping_add(1);
        assert(self@.cells =~= start@.appended(seq, data).cells);
        prev
    }

    /// Appends a placeholder. Hands back what was left in its slot.
    fn append_reserved(&mut self, seq: u16) -> (prev: Option<T>)
        requires
            power_of_two(N as int),
            old(self)@.len() < N,
        ensures
            final(self)@.cells == old(self)@.cells.update(
                slot_of(old(self)@.write_head, N as int),
                CellState::Reserved(seq),
            ),
            final(self)@.vals == old(self)@.vals.update(
                slot_of(old(self)@.write_head, N as int),
                None,
            ),
            final(self)@.read_head == old(self)@.read_head,
            final(self)@.write_head == advance(old(self)@.write_head, 1),
            prev == old(self)@.vals[slot_of(old(self)@.write_head, N as int)],
    {
        proof {
            use_type_invariant(&*self);
            self.lemma_write_slot_free();
        }
        let ghost start = *self;
        let idx = self.write_head % N;
        let prev = self.arr.take_if_present(idx);
        let val = CellState::Reserved(seq).pack();
        store(&mut self.cells, idx, val);
        self.write_head = self.write_head.wrapping_add(1);
        assert(self@.cells =~= start@.cells.update(idx as int, CellState::Reserved(seq)));
        prev
    }

    /// Appends placeholders for the sequence numbers from `from` up to, and not
    /// with, `to`, as far as there is room for a writer that has seen the
    /// reader at `read`. Returns how many it appended.
    fn append_gap(&mut self, read: usize, from: u16, to: u16, retired: &mut Vec<T>) -> (count:
        usize)
        requires
            power_of_two(N as int),
            old(self)@.observable(read),
        ensures
            ({
                let gap = seq_ahead(from, to);
                let room = N - ahead(read, old(self)@.write_head);
                &&& count == if gap < room { gap } else { room }
                &&& final(self)@ == old(self)@.reserved(from, count as int)
                &&& final(retired)@ == old(retired)@ + old(self)@.left_over(count as int)
            }),
    {
        proof {
            use_type_invariant(&*self);
        }
        let ghost start = *self;
        let range = wrapping_range_u16(from, to);
        let gap = range.len();
        let mut i: u16 = 0;
        while i < gap && self.write_head != read.wrapping_add(N)
            invariant
                i <= gap == seq_ahead(from, to),
                range@ == Seq::new(gap as nat, |j: int| seq_add(from, j)),
                power_of_two(N as int),
                start.wf(),
                start@.observable(read),
                i + ahead(read, start.write_head) <= N,
                retired@ == old(retired)@ + start@.left_over(i as int),
                self@.read_head == start@.read_head,
                self@.write_head == advance(start.write_head, i as int),
                self@.cells.len() == N,
                self@.vals.len() == N,
                forall|j: int|
                    0 <= j < N ==> #[trigger] self@.cells[j] == start@.reserved(
                        from,
                        i as int,
                    ).cells[j],
                forall|j: int|
                    0 <= j < N ==> #[trigger] self@.vals[j] == start@.reserved(
                        from,
                        i as int,
                    ).vals[j],
            decreases gap - i,
        {
            let s = range.get(i);
            let ghost idx = slot_of(self.write_head, N as int);
            assert forall|j: int| 0 <= j < N implies (j == idx <==> #[trigger] steps_to(
                start.write_head,
                j,
                N as int,
            ) == i) by {
                lemma_steps_to(start.write_head, i as int, j, N as int);
            }
            let prev = self.append_reserved(s);
            retire(retired, prev);
            i = i + 1;
        }
        assert(self@.cells =~= start@.reserved(from, i as int).cells);
        assert(self@.vals =~= start@.reserved(from, i as int).vals);
        i as usize
    }

    /// Stores a packet in the placeholder at position `pos`, if that is what is
    /// there, and hands back what was left in its slot. Hands the packet back
    /// where it is not.
    fn fill(&mut self, pos: usize, seq: u16, data: T) -> (res: Result<Option<T>, T>)
        requires
            power_of_two(N as int),
        ensures
            ({
                let i = slot_of(pos, N as int);
                if old(self)@.cells[i] == CellState::Reserved(seq) {
                    &&& res == Ok::<Option<T>, T>(old(self)@.vals[i])
                    &&& final(self)@ == old(self)@.filled(i, seq, data)
                } else {
                    &&& res == Err::<Option<T>, T>(data)
                    &&& final(self)@ == old(self)@
                }
            }),
    {
        proof {
            use_type_invariant(&*self);
            lemma_slot_of_advance(pos, 0, N as int);
        }
        let ghost start = *self;
        let idx = pos % N;
        let expected_state = CellState::Reserved(seq).pack();
        if self.cells[idx] == expected_state {
            let prev = self.arr.insert(idx, data);
            let val = CellState::Data(seq).pack();
            store(&mut self.cells, idx, val);
            assert(self@.cells =~= start@.filled(idx as int, seq, data).cells);
            Ok(prev)
        } else {
            Err(data)
        }
    }

    /// Pushes a packet whose number is far from the expected one: the buffer is
    /// given up for it.
    fn push_jump(&mut self, read: usize, seq: u16, data: T, retired: &mut Vec<T>) -> (res: Result<
        (),
        PushError<T>,
    >)
        requires
            power_of_two(N as int),
            old(self)@.observable(read),
        ensures
            if ahead(read, old(self)@.write_head) < N {
                &&& res == Ok::<(), PushError<T>>(())
                &&& final(self)@ == old(self)@.flushed(read).appended(seq, data)
                &&& final(retired)@ == old(retired)@ + old(self)@.left_over(1)
            } else {
                &&& res == Err::<(), PushError<T>>(PushError::Full(seq, data))
                &&& final(self)@ == old(self)@.flushed(read)
                &&& final(retired)@ == old(retired)@
            },
    {
        proof {
            use_type_invariant(&*self);
        }
        let ghost start = self@;
        self.flush(read);
        if self.write_head.wrapping_sub(N) == read {
            Err(PushError::Full(seq, data))
        } else {
            let prev = self.append_data(seq, data);
            retire(retired, prev);
            proof {
                assert(advance(start.write_head, 0) == start.write_head);
                assert(start.left_over(0) =~= Seq::<T>::empty());
                assert(start.left_over(1) =~= start.value_in(
                    slot_of(start.write_head, N as int),
                ));
            }
            Ok(())
        }
    }

    /// Pushes a packet whose number lies `lookback` before the expected one: it
    /// goes to its placeholder, unless the reader has passed that already.
    fn push_late(
        &mut self,
        read: usize,
        lookback: usize,
        seq: u16,
        data: T,
        retired: &mut Vec<T>,
    ) -> (res: Result<(), PushError<T>>)
        requires
            power_of_two(N as int),
            old(self)@.observable(read),
            0 < lookback <= 0x8000,
        ensures
            ({
                let i = old(self)@.slot_behind(read, lookback as int);
                if lookback <= ahead(read, old(self)@.write_head) && old(self)@.cells[i]
                    == CellState::Reserved(seq) {
                    &&& res == Ok::<(), PushError<T>>(())
                    &&& final(self)@ == old(self)@.filled(i, seq, data)
                    &&& final(retired)@ == old(retired)@ + old(self)@.value_in(i)
                } else {
                    &&& res == Err::<(), PushError<T>>(PushError::Stale(seq, data))
                    &&& final(self)@ == old(self)@
                    &&& final(retired)@ == old(retired)@
                }
            }),
    {
        proof {
            use_type_invariant(&*self);
        }
        let pos = self.write_head.wrapping_sub(lookback);
        if wrapping_range_usize_contains(read, self.write_head, pos) {
            assert(pos == advance(read, ahead(read, self.write_head) - lookback));
            match self.fill(pos, seq, data) {
                Ok(prev) => {
                    retire(retired, prev);
                    Ok(())
                },
                Err(data) => Err(PushError::Stale(seq, data)),
            }
        } else {
            Err(PushError::Stale(seq, data))
        }
    }

    /// Pushes a packet whose number is the expected one or a future one, after
    /// placeholders for the numbers between.
    fn push_next(
        &mut self,
        expected_seq: &mut u16,
        read: usize,
        seq: u16,
        data: T,
        retired: &mut Vec<T>,
    ) -> (res: Result<(), PushError<T>>)
        requires
            power_of_two(N as int),
            old(self)@.observable(read),
        ensures
            ({
                let gap = seq_ahead(*old(expected_seq), seq);
                let room = N - ahead(read, old(self)@.write_head);
                if gap < room {
                    &&& res == Ok::<(), PushError<T>>(())
                    &&& final(self)@ == old(self)@.reserved(*old(expected_seq), gap).appended(
                        seq,
                        data,
                    )
                    &&& *final(expected_seq) == seq_add(seq, 1)
                    &&& final(retired)@ == old(retired)@ + old(self)@.left_over(gap + 1)
                } else {
                    &&& res == Err::<(), PushError<T>>(PushError::Full(seq, data))
                    &&& final(self)@ == old(self)@.reserved(*old(expected_seq), room)
                    &&& *final(expected_seq) == seq_add(*old(expected_seq), room)
                    &&& final(retired)@ == old(retired)@ + old(self)@.left_over(room)
                }
            }),
    {
        proof {
            use_type_invariant(&*self);
        }
        let ghost start = self@;
        let count = self.append_gap(read, *expected_seq, seq, retired);
        *expected_seq = expected_seq.wrapping_add(count as u16);
        if self.write_head != read.wrapping_add(N) {
            proof {
                // nothing has been put into the slot that comes next
                let i = slot_of(self.write_head, N as int);
                lemma_slot_of_advance(self.write_head, 0, N as int);
                lemma_steps_to(start.write_head, count as int, i, N as int);
            }
            let prev = self.append_data(seq, data);
            retire(retired, prev);
            *expected_seq = seq.wrapping_add(1);
            assert(retired@ =~= old(retired)@ + start.left_over(count + 1));
            Ok(())
        } else {
            Err(PushError::Full(seq, data))
        }
    }

    /// Pushes a packet for a writer that expects number `expected_seq` and has
    /// seen the reader at `read`, which may have moved on since. The values
    /// that were left in the slots that this puts to use go to `retired`.
    #[verifier::rlimit(30)]
    pub fn push(
        &mut self,
        expected_seq: &mut u16,
        read: usize,
        seq: u16,
        data: T,
        retired: &mut Vec<T>,
    ) -> (res: Result<(), PushError<T>>)
        requires
            power_of_two(N as int),
            old(self)@.observable(read),
        ensures
            ({
                let outcome = push_outcome(old(self)@, *old(expected_seq), read, seq, data);
                &&& res == outcome.result
                &&& final(self)@ == outcome.ring
                &&& *final(expected_seq) == outcome.expected_seq
                &&& final(retired)@ == old(retired)@ + outcome.retired
            }),
            final(self)@.capacity() == N,
            final(self)@.valid(),
    {
        proof {
            use_type_invariant(&*self);
            self.lemma_valid();
        }
        let res = if should_jump_to::<N>(*expected_seq, seq) {
            *expected_seq = seq.wrapping_add(1);
            self.push_jump(read, seq, data, retired)
        } else {
            let d = diff(*expected_seq, seq);
            if d < 0 {
                let lookback: usize = (-(d as i32)) as usize;
                self.push_late(read, lookback, seq, data, retired)
            } else {
                self.push_next(expected_seq, read, seq, data, retired)
            }
        };
        proof {
            use_type_invariant(&*self);
            self.lemma_valid();
        }
        res
    }

    /// One look at the ring by a reader that has seen the writer at `write`,
    /// which may have moved on since. `None` where the position was to be
    /// passed over.
    pub fn look(&mut self, write: usize) -> (res: Option<PopResult<T>>)
        requires
            ahead(old(self)@.read_head, write) <= old(self)@.len(),
        ensures
            res == look_outcome(old(self)@, write).1,
            final(self)@ == look_outcome(old(self)@, write).0,
            final(self)@.capacity() == N,
            final(self)@.valid(),
    {
        proof {
            use_type_invariant(&*self);
            self.lemma_valid();
        }
        if self.read_head == write {
            return Some(PopResult::Empty);
        }
        let ghost start = *self;
        let next = self.read_head.wrapping_add(1);
        proof {
            lemma_slot_of_advance(self.read_head, 0, N as int);
            assert(ahead(next, self.write_head) == ahead(self.read_head, self.write_head) - 1);
            // the positions that stay are in other slots than the one that goes
            assert forall|k: int| 0 <= k < ahead(next, self.write_head) implies {
                let i = slot_of(#[trigger] advance(next, k), N as int);
                &&& i != slot_of(self.read_head, N as int)
                &&& unpacked(self.cells@[i]) is Data ==> self.arr@[i] is Some
            } by {
                assert(advance(next, k) == advance(self.read_head, k + 1));
                let i = slot_of(self.read_head, N as int);
                lemma_steps_to(self.read_head, 0, i, N as int);
                lemma_steps_to(self.read_head, k + 1, i, N as int);
            }
        }
        let idx = self.read_head % N;
        let state = CellState::unpack(self.cells[idx]);
        self.read_head = next;
        let res = match state {
            CellState::Skip => None,
            CellState::Reserved(seq) => Some(PopResult::Missing(seq)),
            CellState::Data(seq) => {
                assert(advance(start.read_head, 0) == start.read_head);
                let data = self.arr.take(idx);
                Some(PopResult::Data(seq, data))
            },
        };
        proof {
            use_type_invariant(&*self);
            self.lemma_valid();
        }
        res
    }

    /// Hands out the oldest entry that is not to be passed over.
    pub fn pop(&mut self) -> (res: PopResult<T>)
        ensures
            old(self)@.capacity() == N,
            old(self)@.valid(),
            res == pop_outcome(old(self)@).1,
            final(self)@ == pop_outcome(old(self)@).0,
            final(self)@.capacity() == N,
            final(self)@.valid(),
    {
        proof {
            use_type_invariant(&*self);
            self.lemma_valid();
        }
        let ghost start = self@;
        let ghost mut k: int = 0;
        loop
            invariant
                start == old(self)@,
                0 <= k <= start.len(),
                start.valid(),
                start.capacity() == N,
                self@ == start.consumed(k),
                forall|i: int| 0 <= i < k ==> #[trigger] start.entries()[i] is Skip,
            decreases start.len() - k,
        {
            let write = self.write_head();
            assert(self@.slot(0) == start.slot(k));
            let look = self.look(write);
            if let Some(res) = look {
                proof {
                    lemma_leading_skips(start.entries(), k);
                    if k < start.len() {
                        assert(self@ == start.taken(k));
                    }
                }
                return res;
            }
            proof {
                k = k + 1;
                assert(start.consumed(k - 1).consumed(1) == start.consumed(k));
            }
        }
    }

    /// Number of positions between the reader and the writer: an upper bound on
    /// the number of entries that can be popped, as some may have to be passed
    /// over.
    pub fn len_hint(&self) -> (len: usize)
        ensures
            self@.capacity() == N,
            self@.valid(),
            len == self@.entries().len(),
            len <= N,
    {
        proof {
            use_type_invariant(self);
            self.lemma_valid();
        }
        self.write_head.wrapping_sub(self.read_head)
    }

    /// Whether the reader has come to the writer.
    pub fn is_empty(&self) -> (empty: bool)
        ensures
            self@.capacity() == N,
            self@.valid(),
            empty == (self@.entries().len() == 0),
    {
        self.len_hint() == 0
    }

    /// The packed state of slot `i`.
    pub fn cell(&self, i: usize) -> (val: u32)
        requires
            i < N,
        ensures
            self@.capacity() == N,
            self@.valid(),
            val == packed(self@.cells[i as int]),
    {
        proof {
            use_type_invariant(self);
            self.lemma_valid();
        }
        self.cells[i]
    }
}

impl<T, const N: usize> Default for Shared<T, N> {
    /// An empty ring.
    fn default() -> (res: Self)
        ensures
            res@ == (RingView {
                cells: Seq::new(N as nat, |i: int| CellState::Skip),
                vals: Seq::new(N as nat, |i: int| None::<T>),
                read_head: 0,
                write_head: 0,
            }),
            res@.valid(),
    {
        let skip = CellState::Skip.pack();
        let mut cells: Vec<u32> = Vec::with_capacity(N);
        while cells.len() < N
            invariant
                cells@.len() <= N,
                forall|i: int| 0 <= i < cells@.len() ==> #[trigger] cells@[i] == skip,
            decreases N - cells.len(),
        {
            cells.push(skip);
        }
        let res = Shared { read_head: 0, write_head: 0, arr: SharedArray::default(), cells };
        proof {
            res.lemma_valid();
        }
        assert(res@.cells =~= Seq::new(N as nat, |i: int| CellState::Skip));
        res
    }
}

} // verus!
