//! What the ring records of each position, and its packed form.

use vstd::prelude::*;

verus! {

/// State of one position of the ring.
#[derive(Clone, Copy, PartialEq, Eq, Structural, Debug)]
pub enum CellState {
    /// Nothing to read here: the reader passes over the position.
    Skip,
    /// The packet with this sequence number has not arrived (yet).
    Reserved(u16),
    /// The packet with this sequence number is stored.
    Data(u16),
}

/// Discriminator of [`CellState::Skip`].
pub const SKIP: u16 = 0;

/// Discriminator of [`CellState::Reserved`].
pub const NO_DATA: u16 = 1;

/// Discriminator of [`CellState::Data`].
pub const WITH_DATA: u16 = 2;

/// The packed form of a state: the discriminator in the upper half, the
/// sequence number in the lower half.
pub open spec fn packed(state: CellState) -> u32 {
    match state {
        CellState::Skip => 0,
        CellState::Reserved(seq) => (0x1_0000 + seq) as u32,
        CellState::Data(seq) => (0x2_0000 + seq) as u32,
    }
}

/// A word whose discriminator is one of the three that are in use.
pub open spec fn is_packed(val: u32) -> bool {
    val < 0x3_0000
}

/// The state that a word stands for.
pub open spec fn unpacked(val: u32) -> CellState {
    if val < 0x1_0000 {
        CellState::Skip
    } else if val < 0x2_0000 {
        CellState::Reserved((val - 0x1_0000) as u16)
    } else {
        CellState::Data((val - 0x2_0000) as u16)
    }
}

impl CellState {
    /// Reads a packed state.
    pub fn unpack(val: u32) -> (state: Self)
        requires
            is_packed(val),
        ensures
            state == unpacked(val),
    {
        // 16 least significant bits are a u16 sequence number
        let seq: u16 = (val & 0xFFFF) as u16;
        // the remaining bits are used as a discriminator
        let v: u16 = (val >> 16u32) as u16;
        assert(val < 0x3_0000 ==> (val & 0xFFFF) < 0x1_0000 && (val >> 16u32) < 3 && val == (val
            >> 16u32) * 0x1_0000 + (val & 0xFFFF)) by (bit_vector);
        if v == NO_DATA {
            CellState::Reserved(seq)
        } else if v == SKIP {
            CellState::Skip
        } else {
            CellState::Data(seq)
        }
    }

    /// Packs a state into a word.
    pub fn pack(self) -> (val: u32)
        ensures
            val == packed(self),
            is_packed(val),
            unpacked(val) == self,
    {
        match self {
            CellState::Skip => {
                assert((0u16 as u32) << 16u32 == 0u32) by (bit_vector);
                (SKIP as u32) << 16u32
            },
            CellState::Reserved(seq) => {
                assert(((1u16 as u32) << 16u32 | (seq as u32)) == 0x1_0000 + seq) by (bit_vector);
                (NO_DATA as u32) << 16u32 | (seq as u32)
            },
            CellState::Data(seq) => {
                assert(((2u16 as u32) << 16u32 | (seq as u32)) == 0x2_0000 + seq) by (bit_vector);
                (WITH_DATA as u32) << 16u32 | (seq as u32)
            },
        }
    }
}

} // verus!
