use hexhashi_logic::hashi::{Bridge, CoordinateSystem};
use hexhashi_logic::hex::{BridgeState, HexBridge, HexSystem, Island};
use std::collections::BTreeMap;

fn spans_after_two_cycles<B: Bridge>(bridge: &mut B) -> (Option<usize>, usize, usize) {
    bridge.cycle();
    let count = bridge.cycle();
    (count, bridge.get_count(), bridge.get_max())
}

fn summary<S: CoordinateSystem>(system: &S, from: usize) -> (Vec<usize>, (usize, usize), usize, bool) {
    (
        system.get_connected_islands(from),
        system.get_row_column_for_index(from),
        system.get_actual_bridges(from),
        system.is_solved(),
    )
}

#[test]
fn bridge_through_its_interface() {
    let mut bridge = HexBridge { state: BridgeState::Empty, gap_indices: vec![] };
    assert_eq!(spans_after_two_cycles(&mut bridge), (Some(2), 2, 2));
    assert_eq!(Bridge::get_state(&bridge), &BridgeState::Full);
    assert_eq!(spans_after_two_cycles(&mut bridge), (Some(1), 1, 2));
    assert_eq!(bridge.get_max(), 2);
}

#[test]
fn puzzle_through_its_interface() {
    let mut islands = vec![Island::Empty; 22];
    islands[4] = Island::Bridged(1);
    islands[5] = Island::Bridged(3);
    islands[6] = Island::Bridged(2);
    let bridges = BTreeMap::from([
        ((4usize, 5usize), HexBridge { state: BridgeState::Partial, gap_indices: vec![] }),
        ((5usize, 6usize), HexBridge { state: BridgeState::Full, gap_indices: vec![] }),
    ]);
    let sys = HexSystem { columns: 4, rows: 5, islands, bridges };
    assert_eq!(summary(&sys, 5), (vec![4, 6], (1, 1), 3, true));
    assert_eq!(summary(&sys, 6), (vec![5], (1, 2), 2, true));
    assert_eq!(sys.get_bridges(5), vec![&BridgeState::Partial, &BridgeState::Full]);
    assert_eq!(sys.get_bridges(4), vec![&BridgeState::Partial]);
    assert_eq!(sys.get_bridges(0), Vec::<&BridgeState>::new());
}
