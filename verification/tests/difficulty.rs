use hexhashi_logic::difficulty::Difficulty;
use hexhashi_logic::hex::HexSystem;
use std::str::FromStr;

#[test]
fn levels_are_named_in_any_case() {
    assert_eq!(Difficulty::parse("easy").unwrap(), Difficulty::Easy);
    assert_eq!(Difficulty::parse("Medium").unwrap(), Difficulty::Medium);
    assert_eq!(Difficulty::parse("HARD").unwrap(), Difficulty::Hard);
    assert_eq!(Difficulty::parse("eXtReMe").unwrap(), Difficulty::Extreme);
    assert_eq!(Difficulty::from_str("hard").unwrap(), Difficulty::Hard);
    assert_eq!("Extreme".parse::<Difficulty>().unwrap(), Difficulty::Extreme);
}

#[test]
fn other_texts_name_no_level() {
    assert!(Difficulty::parse("").is_err());
    assert!(Difficulty::parse("easy ").is_err());
    assert!(Difficulty::parse("simple").is_err());
    assert!(Difficulty::from_str("hardest").is_err());
    assert_eq!(
        Difficulty::parse("nightmare").unwrap_err().to_string(),
        "Cannot convert to difficulty"
    );
}

#[test]
fn lower_case_names_only() {
    assert_eq!(Difficulty::from_lowercase(&"medium".to_string()).unwrap(), Difficulty::Medium);
    assert!(Difficulty::from_lowercase(&"Medium".to_string()).is_err());
}

#[test]
fn parameters_of_each_level() {
    let easy = Difficulty::parameters(Some(Difficulty::Easy), 7);
    assert_eq!(
        (easy.seed, easy.max_columns, easy.max_rows, easy.num_islands, easy.max_bridge_length),
        (7, 10, 10, 10, 1)
    );
    let none = Difficulty::parameters(None, 8);
    assert_eq!(
        (none.seed, none.max_columns, none.max_rows, none.num_islands, none.max_bridge_length),
        (8, 10, 10, 10, 1)
    );
    let medium = Difficulty::parameters(Some(Difficulty::Medium), 9);
    assert_eq!(
        (medium.seed, medium.max_columns, medium.max_rows, medium.num_islands, medium.max_bridge_length),
        (9, 10, 10, 20, 3)
    );
    let hard = Difficulty::parameters(Some(Difficulty::Hard), 10);
    assert_eq!(
        (hard.seed, hard.max_columns, hard.max_rows, hard.num_islands, hard.max_bridge_length),
        (10, 10, 10, 25, 5)
    );
    let extreme = Difficulty::parameters(Some(Difficulty::Extreme), 11);
    assert_eq!(
        (
            extreme.seed,
            extreme.max_columns,
            extreme.max_rows,
            extreme.num_islands,
            extreme.max_bridge_length
        ),
        (11, 10, 10, 50, 7)
    );
}

#[test]
fn every_level_generates_a_puzzle() {
    for level in [Difficulty::Easy, Difficulty::Medium, Difficulty::Hard, Difficulty::Extreme] {
        let puzzle = HexSystem::generate_new(Difficulty::parameters(Some(level), 42));
        assert!(puzzle.is_valid());
        assert_eq!(puzzle.islands.len(), 105);
    }
}
