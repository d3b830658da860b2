use hexhashi_logic::hex::{HexSystem, Island};
use std::collections::BTreeMap;

#[test]
fn board_of_two_rows() {
    let mut islands = vec![Island::Empty; 5];
    islands[0] = Island::Bridged(1);
    islands[3] = Island::Bridged(12);
    let sys = HexSystem { columns: 2, rows: 2, islands, bridges: BTreeMap::new() };
    assert_eq!(
        sys.to_string(),
        "\u{250f}\u{2501}\u{2501}\u{2501}\u{2501}\u{2501}\u{2513}\n\
         \u{2503} 1   \u{2503}\n\
         \u{2503}  12  \u{2503}\n\
         \u{2517}\u{2501}\u{2501}\u{2501}\u{2501}\u{2501}\u{251b}"
    );
}

#[test]
fn board_of_the_small_grid() {
    let mut islands = vec![Island::Empty; 22];
    islands[0] = Island::Bridged(2);
    islands[3] = Island::Bridged(0);
    islands[4] = Island::Bridged(6);
    islands[8] = Island::Bridged(3);
    islands[10] = Island::Bridged(4);
    islands[21] = Island::Bridged(1);
    let sys = HexSystem { columns: 4, rows: 5, islands, bridges: BTreeMap::new() };
    let lines: Vec<String> = sys.to_string().lines().map(|l| l.to_string()).collect();
    assert_eq!(lines.len(), 7);
    assert_eq!(lines[0], format!("\u{250f}{}\u{2513}", "\u{2501}".repeat(9)));
    assert_eq!(lines[1], "\u{2503} 2     0 \u{2503}");
    assert_eq!(lines[2], "\u{2503}6       3\u{2503}");
    assert_eq!(lines[3], "\u{2503}   4     \u{2503}");
    assert_eq!(lines[4], "\u{2503}         \u{2503}");
    assert_eq!(lines[5], "\u{2503}       1 \u{2503}");
    assert_eq!(lines[6], format!("\u{2517}{}\u{251b}", "\u{2501}".repeat(9)));
}

#[test]
fn blocked_cells_are_blank() {
    let mut islands = vec![Island::Empty; 1];
    islands[0] = Island::Blocked;
    let sys = HexSystem { columns: 1, rows: 1, islands, bridges: BTreeMap::new() };
    assert_eq!(
        sys.to_string(),
        "\u{250f}\u{2501}\u{2501}\u{2501}\u{2513}\n\u{2503}   \u{2503}\n\u{2517}\u{2501}\u{2501}\u{2501}\u{251b}"
    );
}
