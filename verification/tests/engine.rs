use hexhashi_logic::hex::{BridgeError, BridgeState, HexBridge, HexSystem, Island};
use std::collections::BTreeMap;

fn bridge(state: BridgeState, gap_indices: Vec<usize>) -> HexBridge {
    HexBridge { state, gap_indices }
}

/// Islands 0, 4, 6 and 15 on a 4 x 5 grid: the bridges 0-15 and 4-6 cross on cell 5.
fn crossing_fixture() -> HexSystem {
    let mut islands = vec![Island::Empty; 22];
    islands[0] = Island::Bridged(1);
    islands[4] = Island::Bridged(1);
    islands[6] = Island::Bridged(1);
    islands[15] = Island::Bridged(1);
    let bridges = HexSystem::fill_bridges(&islands, 4, 5);
    HexSystem { columns: 4, rows: 5, islands, bridges }
}

fn two_islands(target: usize, state: BridgeState) -> HexSystem {
    let mut islands = vec![Island::Empty; 22];
    islands[0] = Island::Bridged(target);
    islands[1] = Island::Bridged(target);
    let bridges = BTreeMap::from([((0usize, 1usize), bridge(state, vec![]))]);
    HexSystem { columns: 4, rows: 5, islands, bridges }
}

#[test]
fn bridge_cycle_has_period_three() {
    let mut b = bridge(BridgeState::Empty, vec![3, 4]);
    assert_eq!(b.get_count(), 0);
    assert_eq!(b.cycle(), Some(1));
    assert_eq!(b.get_state(), &BridgeState::Partial);
    assert_eq!(b.cycle(), Some(2));
    assert_eq!(b.get_state(), &BridgeState::Full);
    assert_eq!(b.get_count(), 2);
    assert_eq!(b.cycle(), Some(0));
    assert_eq!(b.get_state(), &BridgeState::Empty);
    assert_eq!(b.gap_indices, vec![3, 4]);
}

#[test]
fn cycle_bridge_has_period_three() {
    let mut sys = crossing_fixture();
    let before = sys.clone();
    assert!(sys.is_valid());
    assert_eq!(sys.cycle_bridge(15, 0), Ok(false));
    assert_eq!(sys.get_bridge(0, 15).unwrap().get_state(), &BridgeState::Partial);
    assert_eq!(sys.get_actual_bridges(0), 1);
    assert_eq!(sys.cycle_bridge(0, 15), Ok(false));
    assert_eq!(sys.get_bridge(0, 15).unwrap().get_state(), &BridgeState::Full);
    assert_eq!(sys.get_actual_bridges(15), 2);
    assert_eq!(sys.cycle_bridge(0, 15), Ok(false));
    assert_eq!(sys.get_bridge(15, 0).unwrap().get_state(), &BridgeState::Empty);
    assert_eq!(sys.get_bridge(15, 0).unwrap().get_count(), 0);
    assert_eq!(sys.islands, before.islands);
    assert_eq!(sys.bridges.len(), before.bridges.len());
    for (key, b) in &sys.bridges {
        assert_eq!(b.state, before.bridges[key].state);
        assert_eq!(b.gap_indices, before.bridges[key].gap_indices);
    }
}

#[test]
fn crossing_bridges_exclude_each_other() {
    let mut sys = crossing_fixture();
    assert_eq!(sys.get_bridge(0, 15).unwrap().gap_indices, vec![10, 5]);
    assert_eq!(sys.get_bridge(4, 6).unwrap().gap_indices, vec![5]);
    assert_eq!(sys.cycle_bridge(0, 15), Ok(false));
    assert_eq!(sys.cycle_bridge(4, 6), Err(BridgeError::Blocked));
    assert_eq!(sys.get_bridge(4, 6).unwrap().get_state(), &BridgeState::Empty);
    assert_eq!(sys.get_bridge(0, 15).unwrap().get_state(), &BridgeState::Partial);
    // the bridge in place can still be cycled, and frees the other when it is gone
    assert_eq!(sys.cycle_bridge(0, 15), Ok(false));
    assert_eq!(sys.cycle_bridge(6, 4), Err(BridgeError::Blocked));
    assert_eq!(sys.cycle_bridge(0, 15), Ok(false));
    assert_eq!(sys.cycle_bridge(4, 6), Ok(false));
    assert_eq!(sys.get_bridge(4, 6).unwrap().get_state(), &BridgeState::Partial);
    assert_eq!(sys.cycle_bridge(0, 15), Err(BridgeError::Blocked));
    assert_eq!(sys.get_bridge(0, 15).unwrap().get_state(), &BridgeState::Empty);
}

#[test]
fn bridges_that_share_no_cell_do_not_block() {
    let mut sys = crossing_fixture();
    assert_eq!(sys.bridges.keys().collect::<Vec<_>>(), vec![&(0usize, 4usize), &(0, 15), &(4, 6)]);
    assert_eq!(sys.cycle_bridge(0, 4), Ok(false));
    assert_eq!(sys.cycle_bridge(0, 15), Ok(false));
    assert_eq!(sys.cycle_bridge(4, 0), Ok(false));
    assert_eq!(sys.get_bridge(0, 4).unwrap().get_state(), &BridgeState::Full);
    assert_eq!(sys.get_bridge(0, 15).unwrap().get_state(), &BridgeState::Partial);
}

#[test]
fn missing_bridge_is_not_found() {
    let mut sys = crossing_fixture();
    let before = sys.clone();
    assert_eq!(sys.cycle_bridge(1, 3), Err(BridgeError::NotFound));
    assert_eq!(sys.cycle_bridge(0, 0), Err(BridgeError::NotFound));
    assert_eq!(sys.cycle_bridge(0, 6), Err(BridgeError::NotFound));
    assert_eq!(sys.cycle_bridge(100, 200), Err(BridgeError::NotFound));
    for (key, b) in &sys.bridges {
        assert_eq!(b.state, before.bridges[key].state);
    }
}

#[test]
fn error_texts() {
    assert_eq!(BridgeError::NotFound.to_string(), "Bridge is not found.");
    assert_eq!(BridgeError::Blocked.to_string(), "Bridge is blocked.");
}

#[test]
fn cycle_bridge_reports_solved() {
    let mut sys = two_islands(2, BridgeState::Empty);
    assert_eq!(sys.cycle_bridge(0, 1), Ok(false));
    assert_eq!(sys.cycle_bridge(0, 1), Ok(true));
    assert_eq!(sys.cycle_bridge(1, 0), Ok(false));
}

#[test]
fn two_islands_with_full_bridge_are_solved() {
    assert!(two_islands(2, BridgeState::Full).is_solved());
    assert!(!two_islands(2, BridgeState::Partial).is_solved());
    assert!(!two_islands(2, BridgeState::Empty).is_solved());
    assert!(two_islands(1, BridgeState::Partial).is_solved());
}

#[test]
fn first_island_must_meet_its_target_too() {
    let mut islands = vec![Island::Empty; 22];
    islands[0] = Island::Bridged(3);
    islands[1] = Island::Bridged(2);
    let bridges = BTreeMap::from([((0usize, 1usize), bridge(BridgeState::Full, vec![]))]);
    let sys = HexSystem { columns: 4, rows: 5, islands, bridges };
    assert!(!sys.is_solved());
}

#[test]
fn second_component_is_not_solved() {
    let mut islands = vec![Island::Empty; 22];
    islands[0] = Island::Bridged(2);
    islands[1] = Island::Bridged(2);
    islands[20] = Island::Bridged(1);
    islands[21] = Island::Bridged(1);
    let bridges = BTreeMap::from([
        ((0usize, 1usize), bridge(BridgeState::Full, vec![])),
        ((20usize, 21usize), bridge(BridgeState::Partial, vec![])),
    ]);
    let sys = HexSystem { columns: 4, rows: 5, islands, bridges };
    assert!(sys.is_valid());
    assert_eq!(sys.get_actual_bridges(0), 2);
    assert_eq!(sys.get_actual_bridges(20), 1);
    assert!(!sys.is_solved());
}

#[test]
fn single_island_without_target_is_solved() {
    let mut islands = vec![Island::Empty; 22];
    islands[7] = Island::Bridged(0);
    let sys = HexSystem { columns: 4, rows: 5, islands, bridges: BTreeMap::new() };
    assert!(sys.is_solved());
}

#[test]
fn network_with_a_cycle_is_solved() {
    let mut islands = vec![Island::Empty; 22];
    islands[0] = Island::Bridged(3);
    islands[1] = Island::Bridged(3);
    islands[5] = Island::Bridged(2);
    let bridges = BTreeMap::from([
        ((0usize, 1usize), bridge(BridgeState::Full, vec![])),
        ((0usize, 5usize), bridge(BridgeState::Partial, vec![])),
        ((1usize, 5usize), bridge(BridgeState::Partial, vec![])),
    ]);
    let sys = HexSystem { columns: 4, rows: 5, islands, bridges };
    assert!(sys.is_solved());
}

#[test]
fn actual_bridges_sums_the_spans_at_an_island() {
    let mut islands = vec![Island::Empty; 22];
    islands[0] = Island::Bridged(2);
    islands[1] = Island::Bridged(3);
    islands[4] = Island::Bridged(1);
    islands[5] = Island::Bridged(2);
    let bridges = BTreeMap::from([
        ((0usize, 1usize), bridge(BridgeState::Full, vec![])),
        ((0usize, 4usize), bridge(BridgeState::Empty, vec![])),
        ((0usize, 5usize), bridge(BridgeState::Partial, vec![])),
        ((1usize, 5usize), bridge(BridgeState::Partial, vec![])),
        ((4usize, 5usize), bridge(BridgeState::Full, vec![])),
    ]);
    let sys = HexSystem { columns: 4, rows: 5, islands, bridges };
    assert_eq!(sys.get_actual_bridges(0), 3);
    assert_eq!(sys.get_actual_bridges(1), 3);
    assert_eq!(sys.get_actual_bridges(4), 2);
    assert_eq!(sys.get_actual_bridges(5), 4);
    assert_eq!(sys.get_actual_bridges(6), 0);
    assert_eq!(sys.get_actual_bridges(21), 0);
    assert_eq!(sys.get_actual_bridges(1000), 0);
}

#[test]
fn connected_islands_in_increasing_order() {
    let sys = crossing_fixture();
    assert_eq!(sys.get_connected_islands(0), vec![4, 15]);
    assert_eq!(sys.get_connected_islands(15), vec![0]);
    assert_eq!(sys.get_connected_islands(4), vec![0, 6]);
    assert_eq!(sys.get_connected_islands(6), vec![4]);
    assert_eq!(sys.get_connected_islands(5), Vec::<usize>::new());
    let mut cycled = crossing_fixture();
    assert_eq!(cycled.cycle_bridge(0, 15), Ok(false));
    assert_eq!(cycled.get_connected_islands(0), vec![4, 15]);
}

#[test]
fn get_bridge_takes_the_islands_in_any_order() {
    let sys = crossing_fixture();
    assert!(sys.get_bridge(15, 0).is_some());
    assert!(sys.get_bridge(0, 15).is_some());
    assert!(sys.get_bridge(0, 6).is_none());
    assert!(sys.get_bridge(0, 0).is_none());
}

#[test]
fn is_valid_checks_the_invariant() {
    assert!(crossing_fixture().is_valid());
    let mut blocked = crossing_fixture();
    blocked.islands[1] = Island::Blocked;
    assert!(!blocked.is_valid());
    let mut short = crossing_fixture();
    short.islands.pop();
    assert!(!short.is_valid());
    let mut wide = crossing_fixture();
    wide.columns = 5;
    assert!(!wide.is_valid());
    let mut reversed = crossing_fixture();
    reversed.bridges.insert((15, 0), bridge(BridgeState::Empty, vec![]));
    assert!(!reversed.is_valid());
    let mut to_empty = crossing_fixture();
    to_empty.bridges.insert((0, 1), bridge(BridgeState::Empty, vec![]));
    assert!(!to_empty.is_valid());
    let mut over_island = crossing_fixture();
    over_island.bridges.insert((0, 4), bridge(BridgeState::Empty, vec![6]));
    assert!(!over_island.is_valid());
    let mut outside = crossing_fixture();
    outside.bridges.insert((0, 4), bridge(BridgeState::Empty, vec![22]));
    assert!(!outside.is_valid());
    let mut no_rows = crossing_fixture();
    no_rows.rows = 0;
    assert!(!no_rows.is_valid());
}
