//! Cell states and their packed form.

use orb::cell_state::CellState;

#[test]
fn cell_state_pack_unpack() {
    let c = CellState::Skip;
    assert_eq!(c, CellState::unpack(c.pack()));

    let c = CellState::Reserved(0);
    assert_eq!(c, CellState::unpack(c.pack()));

    let c = CellState::Reserved(u16::MAX);
    assert_eq!(c, CellState::unpack(c.pack()));

    let c = CellState::Data(0);
    assert_eq!(c, CellState::unpack(c.pack()));

    let c = CellState::Data(u16::MAX);
    assert_eq!(c, CellState::unpack(c.pack()));
}

#[test]
fn packed_states_are_exact() {
    assert_eq!(CellState::Skip.pack(), 0);
    assert_eq!(CellState::Reserved(7).pack(), 0x1_0007);
    assert_eq!(CellState::Data(0xABCD).pack(), 0x2_ABCD);
    assert_eq!(CellState::unpack(0x1_FFFF), CellState::Reserved(0xFFFF));
    assert_eq!(CellState::unpack(0xFFFF), CellState::Skip);
}
