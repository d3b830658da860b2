use hexhashi_logic::hex::{BridgeState, HexSystem, Island};

fn islands_at(cells: &[usize]) -> Vec<Island> {
    let mut islands = vec![Island::Empty; 22];
    for cell in cells {
        islands[*cell] = Island::Bridged(1);
    }
    islands
}

#[test]
fn gap_cells_run_from_the_larger_island_to_the_smaller() {
    let islands = islands_at(&[0, 2, 3, 15]);
    let bridges = HexSystem::fill_bridges(&islands, 4, 5);
    assert_eq!(bridges[&(0, 2)].gap_indices, vec![1]);
    assert_eq!(bridges[&(0, 15)].gap_indices, vec![10, 5]);
    assert_eq!(bridges[&(2, 3)].gap_indices, Vec::<usize>::new());
    assert_eq!(bridges[&(3, 15)].gap_indices, vec![11, 7]);
}

#[test]
fn deriving_twice_gives_the_same_bridges() {
    let islands = islands_at(&[0, 2, 3, 10, 14, 15, 16, 19, 21]);
    let first = HexSystem::fill_bridges(&islands, 4, 5);
    let second = HexSystem::fill_bridges(&islands, 4, 5);
    assert_eq!(first.len(), 13);
    assert_eq!(first.keys().collect::<Vec<_>>(), second.keys().collect::<Vec<_>>());
    for (key, bridge) in &first {
        assert_eq!(bridge.gap_indices, second[key].gap_indices);
        assert_eq!(bridge.state, BridgeState::Empty);
        assert_eq!(second[key].state, BridgeState::Empty);
    }
}

#[test]
fn island_between_two_islands_hides_them_from_each_other() {
    let islands = islands_at(&[0, 1, 2]);
    let bridges = HexSystem::fill_bridges(&islands, 4, 5);
    assert_eq!(bridges.keys().collect::<Vec<_>>(), vec![&(0usize, 1usize), &(1, 2)]);
}

#[test]
fn no_islands_no_bridges() {
    let islands = islands_at(&[]);
    assert!(HexSystem::fill_bridges(&islands, 4, 5).is_empty());
    let islands = islands_at(&[9]);
    assert!(HexSystem::fill_bridges(&islands, 4, 5).is_empty());
}

#[test]
fn islands_off_a_common_line_get_no_bridge() {
    // 0 is at row 0, column 0 and 6 at row 1, column 2
    let islands = islands_at(&[0, 6]);
    assert!(HexSystem::fill_bridges(&islands, 4, 5).is_empty());
}

#[test]
fn find_end_walks_over_empty_cells() {
    let islands = islands_at(&[0, 15]);
    assert_eq!(HexSystem::find_end(&islands, 4, 5, 0, 3), Some((15, vec![5, 10])));
    assert_eq!(HexSystem::find_end(&islands, 4, 5, 15, 0), Some((0, vec![10, 5])));
    assert_eq!(HexSystem::find_end(&islands, 4, 5, 0, 2), None);
    assert_eq!(HexSystem::find_end(&islands, 4, 5, 0, 0), None);
    assert_eq!(HexSystem::find_end(&islands, 4, 5, 0, 6), None);
}

#[test]
fn derived_bridges_through_every_direction() {
    // 10 is in the middle of the grid; one island in each of the six directions
    let islands = islands_at(&[10, 0, 2, 12, 20, 18, 9]);
    let bridges = HexSystem::fill_bridges(&islands, 4, 5);
    assert_eq!(bridges[&(0, 10)].gap_indices, vec![5]);
    assert_eq!(bridges[&(2, 10)].gap_indices, vec![6]);
    assert_eq!(bridges[&(10, 12)].gap_indices, vec![11]);
    assert_eq!(bridges[&(10, 20)].gap_indices, vec![15]);
    assert_eq!(bridges[&(10, 18)].gap_indices, vec![14]);
    assert_eq!(bridges[&(9, 10)].gap_indices, Vec::<usize>::new());
}
