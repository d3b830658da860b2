use hexhashi_logic::hex::{HexSystem, Island};
use std::collections::BTreeMap;

fn empty_system(columns: usize, rows: usize) -> HexSystem {
    HexSystem {
        columns,
        rows,
        islands: vec![Island::Empty; HexSystem::get_size(columns, rows)],
        bridges: BTreeMap::new(),
    }
}

/// Row and column offsets of one step in each direction, for even and for odd rows.
fn offset(direction: usize, row: usize) -> (i64, i64) {
    let even = row % 2 == 0;
    match direction {
        0 => (-1, if even { 0 } else { -1 }),
        1 => (-1, if even { 1 } else { 0 }),
        2 => (0, 1),
        3 => (1, if even { 1 } else { 0 }),
        4 => (1, if even { 0 } else { -1 }),
        5 => (0, -1),
        _ => unreachable!(),
    }
}

fn check_geometry(columns: usize, rows: usize) {
    let sys = empty_system(columns, rows);
    let size = HexSystem::get_size(columns, rows);
    for index in 0..size {
        let (row, column) = sys.get_row_column_for_index(index);
        assert!(row < rows);
        let width = if row % 2 == 0 { columns } else { columns + 1 };
        assert!(column < width);
        let neighbors = HexSystem::get_connected_indices(columns, rows, index);
        for direction in 0..6 {
            let (row_step, column_step) = offset(direction, row);
            let target_row = row as i64 + row_step;
            let target_column = column as i64 + column_step;
            let target_width = if target_row % 2 == 0 { columns } else { columns + 1 } as i64;
            let inside = 0 <= target_row
                && target_row < rows as i64
                && 0 <= target_column
                && target_column < target_width;
            match neighbors[direction] {
                Some(other) => {
                    assert!(inside);
                    assert!(other < size);
                    let (other_row, other_column) = sys.get_row_column_for_index(other);
                    assert_eq!(other_row as i64, target_row);
                    assert_eq!(other_column as i64, target_column);
                    let back = HexSystem::get_connected_indices(columns, rows, other);
                    assert_eq!(back[(direction + 3) % 6], Some(index));
                }
                None => assert!(!inside),
            }
        }
    }
}

#[test]
fn neighbors_match_row_and_column() {
    check_geometry(4, 5);
    check_geometry(1, 1);
    check_geometry(1, 2);
    check_geometry(3, 3);
    check_geometry(6, 2);
    check_geometry(15, 15);
    check_geometry(2, 9);
}

// The neighbours as a list without the missing ones, in increasing order.
#[test]
fn hex_check_connections() {
    for i in 0..22 {
        let mut x: Vec<usize> = HexSystem::get_connected_indices(4, 5, i)
            .into_iter()
            .flatten()
            .collect();
        x.sort();
        let res: Option<Vec<usize>> = match i {
            0 => Some(vec![1, 4, 5]),
            1 => Some(vec![0, 2, 5, 6]),
            2 => Some(vec![1, 3, 6, 7]),
            3 => Some(vec![2, 7, 8]),
            4 => Some(vec![0, 5, 9]),
            5 => Some(vec![0, 1, 4, 6, 9, 10]),
            6 => Some(vec![1, 2, 5, 7, 10, 11]),
            7 => Some(vec![2, 3, 6, 8, 11, 12]),
            8 => Some(vec![3, 7, 12]),
            9 => Some(vec![4, 5, 10, 13, 14]),
            10 => Some(vec![5, 6, 9, 11, 14, 15]),
            11 => Some(vec![6, 7, 10, 12, 15, 16]),
            12 => Some(vec![7, 8, 11, 16, 17]),
            13 => Some(vec![9, 14, 18]),
            14 => Some(vec![9, 10, 13, 15, 18, 19]),
            15 => Some(vec![10, 11, 14, 16, 19, 20]),
            16 => Some(vec![11, 12, 15, 17, 20, 21]),
            17 => Some(vec![12, 16, 21]),
            18 => Some(vec![13, 14, 19]),
            19 => Some(vec![14, 15, 18, 20]),
            20 => Some(vec![15, 16, 19, 21]),
            21 => Some(vec![16, 17, 20]),
            _ => None,
        };
        if let Some(res) = res {
            assert_eq!(res, x);
        } else {
            panic!("must not happen.")
        }
    }
}

#[test]
fn hex_size_calc() {
    assert_eq!(HexSystem::get_size(4, 5), 22);
    assert_eq!(HexSystem::get_size(3, 3), 10);
    assert_eq!(HexSystem::get_size(6, 2), 13);
    assert_eq!(HexSystem::get_size(6, 3), 19);
    assert_eq!(HexSystem::get_size(1, 1), 1);
    assert_eq!(HexSystem::get_size(15, 14), 217);
    assert_eq!(HexSystem::get_size(15, 15), 232);
    assert_eq!(HexSystem::get_size(15, 16), 248);
    assert_eq!(HexSystem::get_size(14, 14), 203);
    assert_eq!(HexSystem::get_size(14, 15), 217);
    assert_eq!(HexSystem::get_size(14, 16), 232);
    assert_eq!(HexSystem::get_size(16, 14), 231);
    assert_eq!(HexSystem::get_size(16, 15), 247);
    assert_eq!(HexSystem::get_size(16, 16), 264);
}

#[test]
fn checked_size_tells_valid_grids() {
    assert_eq!(HexSystem::checked_size(4, 5), Some(22));
    assert_eq!(HexSystem::checked_size(1, 1), Some(1));
    assert_eq!(HexSystem::checked_size(0, 5), None);
    assert_eq!(HexSystem::checked_size(4, 0), None);
    assert_eq!(HexSystem::checked_size(usize::MAX, 2), None);
    assert_eq!(HexSystem::checked_size(usize::MAX / 2 + 1, 1), None);
    assert_eq!(HexSystem::checked_size(usize::MAX / 2, 1), Some(usize::MAX / 2));
}

#[test]
fn no_neighbors_outside_the_grid() {
    let none: [Option<usize>; 6] = [None; 6];
    assert_eq!(HexSystem::get_connected_indices(4, 5, 22), none);
    assert_eq!(HexSystem::get_connected_indices(4, 5, usize::MAX), none);
    assert_eq!(HexSystem::get_connected_indices(0, 5, 0), none);
    assert_eq!(HexSystem::get_connected_indices(4, 0, 0), none);
    assert_eq!(HexSystem::get_connected_indices(usize::MAX, usize::MAX, 3), none);
}

#[test]
fn single_cell_has_no_neighbors() {
    let none: [Option<usize>; 6] = [None; 6];
    assert_eq!(HexSystem::get_connected_indices(1, 1, 0), none);
}

#[test]
fn last_row_of_three_rows_has_no_southern_neighbors() {
    // rows: 0..=2, 3..=6, 7..=9
    assert_eq!(
        HexSystem::get_connected_indices(3, 3, 7),
        [Some(3), Some(4), Some(8), None, None, None]
    );
    assert_eq!(
        HexSystem::get_connected_indices(3, 3, 9),
        [Some(5), Some(6), None, None, None, Some(8)]
    );
    assert_eq!(
        HexSystem::get_connected_indices(3, 3, 6),
        [Some(2), None, None, None, Some(9), Some(5)]
    );
}

#[test]
fn next_to_last_row_of_large_grid_has_southern_neighbors() {
    // 15 x 15: row 13 holds 201..=216, row 14 holds 217..=231
    assert_eq!(
        HexSystem::get_connected_indices(15, 15, 214),
        [Some(198), Some(199), Some(215), Some(230), Some(229), Some(213)]
    );
    assert_eq!(
        HexSystem::get_connected_indices(15, 15, 216),
        [Some(200), None, None, None, Some(231), Some(215)]
    );
}

#[test]
fn row_and_column_of_every_cell_of_second_row() {
    let sys = empty_system(4, 5);
    assert_eq!(sys.get_row_column_for_index(3), (0, 3));
    assert_eq!(sys.get_row_column_for_index(8), (1, 4));
    assert_eq!(sys.get_row_column_for_index(9), (2, 0));
    assert_eq!(sys.get_row_column_for_index(13), (3, 0));
    assert_eq!(sys.get_row_column_for_index(17), (3, 4));
    assert_eq!(sys.get_row_column_for_index(18), (4, 0));
}

#[test]
fn hex_very_small_hashi() {
    let hex = HexSystem::generate_new(hexhashi_logic::hex::GameParameters {
        seed: 1,
        max_columns: 4,
        max_rows: 5,
        num_islands: 5,
        max_bridge_length: 2,
    });
    println!("{}", hex.to_string());
}

#[test]
fn hex_small_hashi() {
    let hex = HexSystem::generate_new(hexhashi_logic::hex::GameParameters {
        seed: 1,
        max_columns: 4,
        max_rows: 5,
        num_islands: 8,
        max_bridge_length: 3,
    });
    println!("{}", hex.to_string());
}
