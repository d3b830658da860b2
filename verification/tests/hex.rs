use hexhashi_logic::hex::{
    BridgeError, BridgeState, GameParameters, HexBridge, HexSystem, Island,
};
use std::collections::BTreeMap;

// NW, NE, E, SE, SW, W
#[test]
fn check_connections() {
    for i in 0..22 {
        let x = HexSystem::get_connected_indices(4, 5, i);
        let res: [Option<usize>; 6] = match i {
            0 => [None, None, Some(1), Some(5), Some(4), None],
            1 => [None, None, Some(2), Some(6), Some(5), Some(0)],
            2 => [None, None, Some(3), Some(7), Some(6), Some(1)],
            3 => [None, None, None, Some(8), Some(7), Some(2)],
            4 => [None, Some(0), Some(5), Some(9), None, None],
            5 => [Some(0), Some(1), Some(6), Some(10), Some(9), Some(4)],
            6 => [Some(1), Some(2), Some(7), Some(11), Some(10), Some(5)],
            7 => [Some(2), Some(3), Some(8), Some(12), Some(11), Some(6)],
            8 => [Some(3), None, None, None, Some(12), Some(7)],
            9 => [Some(4), Some(5), Some(10), Some(14), Some(13), None],
            10 => [Some(5), Some(6), Some(11), Some(15), Some(14), Some(9)],
            11 => [Some(6), Some(7), Some(12), Some(16), Some(15), Some(10)],
            12 => [Some(7), Some(8), None, Some(17), Some(16), Some(11)],
            13 => [None, Some(9), Some(14), Some(18), None, None],
            14 => [Some(9), Some(10), Some(15), Some(19), Some(18), Some(13)],
            15 => [Some(10), Some(11), Some(16), Some(20), Some(19), Some(14)],
            16 => [Some(11), Some(12), Some(17), Some(21), Some(20), Some(15)],
            17 => [Some(12), None, None, None, Some(21), Some(16)],
            18 => [Some(13), Some(14), Some(19), None, None, None],
            19 => [Some(14), Some(15), Some(20), None, None, Some(18)],
            20 => [Some(15), Some(16), Some(21), None, None, Some(19)],
            21 => [Some(16), Some(17), None, None, None, Some(20)],
            _ => unreachable!(),
        };
        assert_eq!(res, x);
    }
}

#[test]
fn size_calc() {
    assert_eq!(HexSystem::get_size(4, 5), 22);
    assert_eq!(HexSystem::get_size(3, 3), 10);
    assert_eq!(HexSystem::get_size(6, 2), 13);
    assert_eq!(HexSystem::get_size(6, 3), 19);
    assert_eq!(HexSystem::get_size(1, 1), 1);
    assert_eq!(HexSystem::get_size(15, 14), 217);
    assert_eq!(HexSystem::get_size(15, 15), 232);
    assert_eq!(HexSystem::get_size(15, 16), 248);
    assert_eq!(HexSystem::get_size(14, 14), 203);
    assert_eq!(HexSystem::get_size(14, 15), 217);
    assert_eq!(HexSystem::get_size(14, 16), 232);
    assert_eq!(HexSystem::get_size(16, 14), 231);
    assert_eq!(HexSystem::get_size(16, 15), 247);
    assert_eq!(HexSystem::get_size(16, 16), 264);
}

#[test]
fn very_small_hashi() {
    let params = GameParameters {
        seed: 1,
        max_columns: 4,
        max_rows: 5,
        num_islands: 5,
        max_bridge_length: 2,
    };
    let hex = HexSystem::generate_new(params);
    println!("{}", hex.to_string());
}

#[test]
fn small_hashi() {
    let params = GameParameters {
        seed: 1,
        max_columns: 4,
        max_rows: 5,
        num_islands: 8,
        max_bridge_length: 3,
    };
    let hex = HexSystem::generate_new(params);
    println!("{}", hex.to_string());
}

#[test]
fn medium_hashi() {
    let params = GameParameters {
        seed: 1,
        max_columns: 15,
        max_rows: 15,
        num_islands: 28,
        max_bridge_length: 7,
    };
    let hex = HexSystem::generate_new(params);
    println!("{}", hex.to_string());
}

#[test]
fn random_hashi() {
    let params = GameParameters {
        seed: 63,
        max_columns: 10,
        max_rows: 10,
        num_islands: 40,
        max_bridge_length: 10,
    };
    let hex = HexSystem::generate_new(params);
    println!("{}", hex.to_string());
}

#[test]
fn solution_check() {
    let mut islands = vec![Island::Empty; 22];
    islands[0] = Island::Bridged(2);
    islands[1] = Island::Bridged(2);
    let bridges = BTreeMap::from([(
        (0usize, 1usize),
        HexBridge {
            state: BridgeState::Full,
            gap_indices: vec![],
        },
    )]);
    let hex = HexSystem {
        columns: 4,
        rows: 5,
        islands,
        bridges,
    };
    assert!(hex.is_solved());
}

#[test]
fn solution_check_complex() {
    let mut islands = vec![Island::Empty; 22];
    islands[0] = Island::Bridged(2);
    islands[1] = Island::Bridged(3);
    islands[4] = Island::Bridged(1);
    islands[5] = Island::Bridged(2);
    let bridges = BTreeMap::from([
        (
            (0usize, 1usize),
            HexBridge {
                state: BridgeState::Full,
                gap_indices: vec![],
            },
        ),
        (
            (0usize, 4usize),
            HexBridge {
                state: BridgeState::Empty,
                gap_indices: vec![],
            },
        ),
        (
            (0usize, 5usize),
            HexBridge {
                state: BridgeState::Empty,
                gap_indices: vec![],
            },
        ),
        (
            (1usize, 5usize),
            HexBridge {
                state: BridgeState::Partial,
                gap_indices: vec![],
            },
        ),
        (
            (4usize, 5usize),
            HexBridge {
                state: BridgeState::Partial,
                gap_indices: vec![],
            },
        ),
    ]);
    let hex = HexSystem {
        columns: 4,
        rows: 5,
        islands,
        bridges,
    };
    assert!(hex.is_solved());
}

#[test]
fn fill_bridges_small() {
    let mut islands = vec![Island::Empty; 22];
    islands[0] = Island::Bridged(1);
    islands[2] = Island::Bridged(1);
    islands[3] = Island::Bridged(1);
    islands[15] = Island::Bridged(1);
    let bridges = HexSystem::fill_bridges(&islands, 4, 5);
    assert_eq!(
        bridges.keys().collect::<Vec<_>>(),
        vec![&(0usize, 2usize), &(0, 15), &(2, 3), &(3, 15)]
    );
    assert!(bridges.values().all(|b| b.state == BridgeState::Empty));
}

#[test]
fn fill_bridges_small_complex() {
    let mut islands = vec![Island::Empty; 22];
    islands[0] = Island::Bridged(1);
    islands[2] = Island::Bridged(1);
    islands[3] = Island::Bridged(1);
    islands[10] = Island::Bridged(1);
    islands[14] = Island::Bridged(1);
    islands[15] = Island::Bridged(1);
    islands[16] = Island::Bridged(1);
    islands[19] = Island::Bridged(1);
    islands[21] = Island::Bridged(1);
    let bridges = HexSystem::fill_bridges(&islands, 4, 5);
    assert_eq!(
        bridges.keys().collect::<Vec<_>>(),
        vec![
            &(0usize, 2usize),
            &(0, 10),
            &(2, 3),
            &(2, 10),
            &(3, 15),
            &(10, 14),
            &(10, 15),
            &(14, 15),
            &(14, 19),
            &(15, 16),
            &(15, 19),
            &(16, 21),
            &(19, 21)
        ]
    );
    assert!(bridges.values().all(|b| b.state == BridgeState::Empty));
}

#[test]
fn solution_unsolvable() {
    let mut islands = vec![Island::Empty; 22];
    islands[0] = Island::Bridged(2);
    islands[1] = Island::Bridged(3);
    let bridges = BTreeMap::from([(
        (0usize, 1usize),
        HexBridge {
            state: BridgeState::Full,
            gap_indices: vec![],
        },
    )]);
    let hex = HexSystem {
        columns: 4,
        rows: 5,
        islands,
        bridges,
    };
    assert!(!hex.is_solved());
}

#[test]
fn solution_not_solved() {
    let mut islands = vec![Island::Empty; 22];
    islands[0] = Island::Bridged(2);
    islands[1] = Island::Bridged(2);
    let bridges = BTreeMap::from([(
        (0usize, 1usize),
        HexBridge {
            state: BridgeState::Partial,
            gap_indices: vec![],
        },
    )]);
    let hex = HexSystem {
        columns: 4,
        rows: 5,
        islands,
        bridges,
    };
    assert!(!hex.is_solved());
}

#[test]
fn cycle_bridges_good() {
    let mut islands = vec![Island::Empty; 22];
    islands[0] = Island::Bridged(1);
    islands[2] = Island::Bridged(1);
    islands[3] = Island::Bridged(1);
    islands[15] = Island::Bridged(1);
    let bridges = HexSystem::fill_bridges(&islands, 4, 5);
    let mut sys = HexSystem {
        columns: 4,
        rows: 5,
        islands,
        bridges,
    };
    let b = sys.get_bridge(0, 2);
    assert!(b.is_some());
    assert_eq!(b.unwrap().get_state(), &BridgeState::Empty);
    let c = sys.cycle_bridge(0, 2);
    assert!(c.is_ok());
    assert_eq!(c.unwrap(), false);
    let b = sys.get_bridge(0, 2);
    assert!(b.is_some());
    assert_eq!(b.unwrap().get_state(), &BridgeState::Partial);
    assert_eq!(b.unwrap().get_count(), 1);
}

#[test]
fn cycle_bridges_blocked() {
    let mut islands = vec![Island::Empty; 22];
    islands[0] = Island::Bridged(1);
    islands[4] = Island::Bridged(1);
    islands[6] = Island::Bridged(1);
    islands[15] = Island::Bridged(1);
    let bridges = HexSystem::fill_bridges(&islands, 4, 5);
    let mut sys = HexSystem {
        columns: 4,
        rows: 5,
        islands,
        bridges,
    };
    let c = sys.cycle_bridge(0, 15);
    assert!(c.is_ok());
    assert_eq!(c.unwrap(), false);
    let b = sys.cycle_bridge(4, 6);
    assert!(b.is_err());
    assert_eq!(b.unwrap_err(), BridgeError::Blocked);
}

#[test]
fn cycle_bridges_not_found() {
    let mut islands = vec![Island::Empty; 22];
    islands[0] = Island::Bridged(1);
    islands[4] = Island::Bridged(1);
    islands[6] = Island::Bridged(1);
    islands[15] = Island::Bridged(1);
    let bridges = HexSystem::fill_bridges(&islands, 4, 5);
    let mut sys = HexSystem {
        columns: 4,
        rows: 5,
        islands,
        bridges,
    };
    let b = sys.cycle_bridge(14, 15);
    assert!(b.is_err());
    assert_eq!(b.unwrap_err(), BridgeError::NotFound);
}

#[test]
fn bridge_not_found() {
    let mut islands = vec![Island::Empty; 22];
    islands[0] = Island::Bridged(1);
    islands[4] = Island::Bridged(1);
    islands[6] = Island::Bridged(1);
    islands[15] = Island::Bridged(1);
    let bridges = HexSystem::fill_bridges(&islands, 4, 5);
    let sys = HexSystem {
        columns: 4,
        rows: 5,
        islands,
        bridges,
    };
    let c = sys.get_bridge(1, 3);
    assert!(c.is_none());
}

#[test]
fn row_col() {
    let mut islands = vec![Island::Empty; 22];
    islands[0] = Island::Bridged(1);
    islands[4] = Island::Bridged(1);
    islands[6] = Island::Bridged(1);
    islands[15] = Island::Bridged(1);
    let bridges = HexSystem::fill_bridges(&islands, 4, 5);
    let sys = HexSystem {
        columns: 4,
        rows: 5,
        islands,
        bridges,
    };
    let rc = sys.get_row_column_for_index(0);
    assert_eq!(rc, (0, 0));
    let rc = sys.get_row_column_for_index(21);
    assert_eq!(rc, (4, 3));
    let rc = sys.get_row_column_for_index(4);
    assert_eq!(rc, (1, 0));
}
