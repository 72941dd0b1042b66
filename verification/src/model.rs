//! The mathematical model of the ring buffer: what a state of the ring is, and
//! what pushing and popping make of it.

use crate::buffer::{PopResult, PushError};
use crate::cell_state::CellState;
use crate::wrapping::{advance, ahead, power_of_two, seq_add, seq_ahead, slot_of, steps_to};
use vstd::prelude::*;

verus! {

/// What one readable position holds, as the reader will see it.
pub enum Entry<T> {
    /// A position that the reader passes over.
    Skip,
    /// A placeholder for a packet that has not arrived.
    Missing(u16),
    /// A packet.
    Data(u16, T),
}

/// A state of the ring.
pub struct RingView<T> {
    /// The state of each slot.
    pub cells: Seq<CellState>,
    /// The value stored in each slot, if any. A slot may still store a value
    /// that can no longer be read.
    pub vals: Seq<Option<T>>,
    /// The position that the reader comes to next.
    pub read_head: usize,
    /// The position that the writer comes to next.
    pub write_head: usize,
}

impl<T> RingView<T> {
    /// Number of slots.
    pub open spec fn capacity(self) -> int {
        self.cells.len() as int
    }

    /// Number of positions between the reader and the writer.
    pub open spec fn len(self) -> int {
        ahead(self.read_head, self.write_head)
    }

    /// The slot of the position `k` steps after the read head.
    pub open spec fn slot(self, k: int) -> int {
        slot_of(advance(self.read_head, k), self.capacity())
    }

    /// What slot `i` holds.
    pub open spec fn entry(self, i: int) -> Entry<T> {
        match self.cells[i] {
            CellState::Skip => Entry::Skip,
            CellState::Reserved(seq) => Entry::Missing(seq),
            CellState::Data(seq) => Entry::Data(seq, self.vals[i]->0),
        }
    }

    /// Everything between the reader and the writer, oldest first.
    pub open spec fn entries(self) -> Seq<Entry<T>> {
        Seq::new(self.len() as nat, |k: int| self.entry(self.slot(k)))
    }

    /// No more is stored than there are slots for, and each position that is
    /// said to hold a packet does hold one.
    pub open spec fn valid(self) -> bool {
        &&& self.vals.len() == self.cells.len()
        &&& self.capacity() <= usize::MAX
        &&& self.len() <= self.capacity()
        &&& self.len() > 0 ==> power_of_two(self.capacity())
        &&& forall|k: int|
            0 <= k < self.len() && self.cells[#[trigger] self.slot(k)] is Data
                ==> self.vals[self.slot(k)] is Some
    }

    /// `read` is the read head, or one that it had before it moved on to where
    /// it is now, while the writer has not gone more than one turn past it.
    pub open spec fn observable(self, read: usize) -> bool {
        &&& ahead(read, self.write_head) <= self.capacity()
        &&& ahead(read, self.read_head) <= ahead(read, self.write_head)
    }

    /// Every position from `read` up to the write head is to be passed over.
    /// The values stay where they are.
    pub open spec fn flushed(self, read: usize) -> Self {
        RingView {
            cells: Seq::new(
                self.cells.len(),
                |i: int|
                    if steps_to(read, i, self.capacity()) < ahead(read, self.write_head) {
                        CellState::Skip
                    } else {
                        self.cells[i]
                    },
            ),
            ..self
        }
    }

    /// `count` placeholders are appended, for the sequence numbers from `seq`
    /// on. What was stored in their slots is gone.
    pub open spec fn reserved(self, seq: u16, count: int) -> Self {
        RingView {
            cells: Seq::new(
                self.cells.len(),
                |i: int|
                    if steps_to(self.write_head, i, self.capacity()) < count {
                        CellState::Reserved(
                            seq_add(seq, steps_to(self.write_head, i, self.capacity())),
                        )
                    } else {
                        self.cells[i]
                    },
            ),
            vals: Seq::new(
                self.vals.len(),
                |i: int|
                    if steps_to(self.write_head, i, self.capacity()) < count {
                        None
                    } else {
                        self.vals[i]
                    },
            ),
            write_head: advance(self.write_head, count),
            ..self
        }
    }

    /// A packet is stored in slot `i`.
    pub open spec fn filled(self, i: int, seq: u16, data: T) -> Self {
        RingView {
            cells: self.cells.update(i, CellState::Data(seq)),
            vals: self.vals.update(i, Some(data)),
            ..self
        }
    }

    /// A packet is appended.
    pub open spec fn appended(self, seq: u16, data: T) -> Self {
        RingView {
            write_head: advance(self.write_head, 1),
            ..self.filled(slot_of(self.write_head, self.capacity()), seq, data)
        }
    }

    /// The slot of the position `back` steps before the write head, for a
    /// reader at `read`.
    pub open spec fn slot_behind(self, read: usize, back: int) -> int {
        slot_of(advance(read, ahead(read, self.write_head) - back), self.capacity())
    }

    /// The value in slot `i`, if there is one.
    pub open spec fn value_in(self, i: int) -> Seq<T> {
        match self.vals[i] {
            Some(val) => seq![val],
            None => Seq::empty(),
        }
    }

    /// The values that are left in the slots of the `count` positions from the
    /// write head on, in the order of the positions.
    pub open spec fn left_over(self, count: int) -> Seq<T>
        decreases count,
    {
        if count <= 0 {
            Seq::empty()
        } else {
            self.left_over(count - 1) + self.value_in(
                slot_of(advance(self.write_head, count - 1), self.capacity()),
            )
        }
    }

    /// The reader has moved on by `count` positions.
    pub open spec fn consumed(self, count: int) -> Self {
        RingView { read_head: advance(self.read_head, count), ..self }
    }

    /// The reader has moved past the position `k` steps ahead of it, and has
    /// taken the value out of its slot if there is a packet.
    pub open spec fn taken(self, k: int) -> Self {
        let i = self.slot(k);
        RingView {
            vals: if self.cells[i] is Data {
                self.vals.update(i, None)
            } else {
                self.vals
            },
            ..self.consumed(k + 1)
        }
    }
}

/// How far a sequence number may be from the expected one before the buffer
/// gives up its contents for it.
pub open spec fn jump_thresh(capacity: int) -> int {
    if capacity > 0xFFFF {
        0xFFFF
    } else {
        capacity
    }
}

/// `seq` is far from the expected sequence number: it is more than
/// `jump_thresh` before it or after it.
pub open spec fn jumps(expected: u16, seq: u16, capacity: int) -> bool {
    !(-jump_thresh(capacity) <= seq_gap(expected, seq) <= jump_thresh(capacity))
}

/// The distance from the expected sequence number to `seq`, negative where
/// `seq` is in the past.
pub open spec fn seq_gap(expected: u16, seq: u16) -> int {
    if seq_ahead(expected, seq) < 0x8000 {
        seq_ahead(expected, seq)
    } else {
        seq_ahead(expected, seq) - 0x1_0000
    }
}

/// The number at distance `seq_gap` is the one that the gap was taken to.
pub proof fn lemma_seq_gap(expected: u16, seq: u16)
    ensures
        seq_add(expected, seq_gap(expected, seq)) == seq,
{
}

/// Near enough numbers are told apart by their distance.
pub proof fn lemma_gap_of_seq_add(expected: u16, gap: int)
    requires
        -0x8000 <= gap < 0x8000,
    ensures
        seq_gap(expected, seq_add(expected, gap)) == gap,
{
}

/// What comes of a push.
pub struct PushOutcome<T> {
    /// The ring after it.
    pub ring: RingView<T>,
    /// The sequence number that is expected next.
    pub expected_seq: u16,
    /// What the caller is told.
    pub result: Result<(), PushError<T>>,
    /// The values that were left in the slots that it has put to use: nobody
    /// can read them any more, and they are dropped.
    pub retired: Seq<T>,
}

/// What comes of pushing `data` under number `seq`, where the writer expects
/// number `expected` and has seen the reader at `read`.
///
/// - A number that is far off empties the buffer, and becomes the new time
///   base whether or not there is room for the packet.
/// - A number in the past goes to its placeholder, where that is still there.
/// - Any other number is appended after placeholders for the numbers between;
///   where there is no room for all of that, the placeholders that fit are
///   appended and the packet is refused.
pub open spec fn push_outcome<T>(
    ring: RingView<T>,
    expected: u16,
    read: usize,
    seq: u16,
    data: T,
) -> PushOutcome<T> {
    let used = ahead(read, ring.write_head);
    let room = ring.capacity() - used;
    let gap = seq_gap(expected, seq);
    if jumps(expected, seq, ring.capacity()) {
        if room > 0 {
            PushOutcome {
                ring: ring.flushed(read).appended(seq, data),
                expected_seq: seq_add(seq, 1),
                result: Ok(()),
                retired: ring.left_over(1),
            }
        } else {
            PushOutcome {
                ring: ring.flushed(read),
                expected_seq: seq_add(seq, 1),
                result: Err(PushError::Full(seq, data)),
                retired: Seq::empty(),
            }
        }
    } else if gap < 0 {
        let slot = ring.slot_behind(read, -gap);
        if -gap <= used && ring.cells[slot] == CellState::Reserved(seq) {
            PushOutcome {
                ring: ring.filled(slot, seq, data),
                expected_seq: expected,
                result: Ok(()),
                retired: ring.value_in(slot),
            }
        } else {
            PushOutcome {
                ring,
                expected_seq: expected,
                result: Err(PushError::Stale(seq, data)),
                retired: Seq::empty(),
            }
        }
    } else if gap < room {
        PushOutcome {
            ring: ring.reserved(expected, gap).appended(seq, data),
            expected_seq: seq_add(seq, 1),
            result: Ok(()),
            retired: ring.left_over(gap + 1),
        }
    } else {
        PushOutcome {
            ring: ring.reserved(expected, room),
            expected_seq: seq_add(expected, room),
            result: Err(PushError::Full(seq, data)),
            retired: ring.left_over(room),
        }
    }
}

/// What comes of one look at the ring by a reader that has seen the writer at
/// `write`: nothing is told where the position is to be passed over.
pub open spec fn look_outcome<T>(ring: RingView<T>, write: usize) -> (
    RingView<T>,
    Option<PopResult<T>>,
) {
    let entry = ring.entry(ring.slot(0));
    if ring.read_head == write {
        (ring, Some(PopResult::Empty))
    } else if entry is Skip {
        (ring.consumed(1), None)
    } else {
        (ring.taken(0), Some(handed(entry)))
    }
}

/// How many entries at the front are to be passed over.
pub open spec fn leading_skips<T>(entries: Seq<Entry<T>>) -> nat
    decreases entries.len(),
{
    if entries.len() > 0 && entries[0] is Skip {
        1 + leading_skips(entries.skip(1))
    } else {
        0
    }
}

/// The entries to be passed over are those before the first that is not.
pub proof fn lemma_leading_skips<T>(entries: Seq<Entry<T>>, k: int)
    requires
        0 <= k <= entries.len(),
        forall|i: int| 0 <= i < k ==> #[trigger] entries[i] is Skip,
        k < entries.len() ==> !(entries[k] is Skip),
    ensures
        leading_skips(entries) == k,
    decreases k,
{
    if k > 0 {
        let rest = entries.skip(1);
        assert forall|i: int| 0 <= i < k - 1 implies #[trigger] rest[i] is Skip by {
            assert(entries[i + 1] is Skip);
        }
        lemma_leading_skips(rest, k - 1);
    }
}

/// What the reader is handed of an entry.
pub open spec fn handed<T>(entry: Entry<T>) -> PopResult<T> {
    match entry {
        Entry::Skip => PopResult::Empty,
        Entry::Missing(seq) => PopResult::Missing(seq),
        Entry::Data(seq, data) => PopResult::Data(seq, data),
    }
}

/// What comes of a pop: the entries to be passed over are, and the entry after
/// them is handed out.
pub open spec fn pop_outcome<T>(ring: RingView<T>) -> (RingView<T>, PopResult<T>) {
    let skips = leading_skips(ring.entries()) as int;
    if skips < ring.len() {
        (ring.taken(skips), handed(ring.entries()[skips]))
    } else {
        (ring.consumed(skips), PopResult::Empty)
    }
}

} // verus!
