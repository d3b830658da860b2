//! Levels of difficulty and the puzzles that they stand for.
use crate::hex::GameParameters;
use vstd::prelude::*;
use vstd::string::StringExecFns;

verus! {

/// How hard a puzzle is to be.
#[derive(Clone, Copy, Debug, PartialEq, Eq, Structural)]
pub enum Difficulty {
    Easy,
    Medium,
    Hard,
    Extreme,
}

/// A text that names no level of difficulty.
#[derive(Debug)]
pub struct DifficultyConversionError;

/// The lower case form of `text`, as `str::to_lowercase` gives it.
pub uninterp spec fn lowercase_of(text: Seq<char>) -> Seq<char>;

/// Calls `str::to_lowercase`, which maps every character of the text to
/// its lower case form as Unicode defines it. The result depends on the
/// text alone.
#[verifier::external_body]
fn lowercase(text: &str) -> (lower: String)
    ensures
        lower@ == lowercase_of(text@),
{
    text.to_lowercase()
}

/// The level that the lower case name `name` stands for.
pub open spec fn level_named(name: Seq<char>) -> Option<Difficulty> {
    if name == "easy"@ {
        Some(Difficulty::Easy)
    } else if name == "medium"@ {
        Some(Difficulty::Medium)
    } else if name == "hard"@ {
        Some(Difficulty::Hard)
    } else if name == "extreme"@ {
        Some(Difficulty::Extreme)
    } else {
        None
    }
}

/// The puzzle that is generated for `difficulty` from `seed`. No level
/// stands for the easy one.
pub open spec fn parameters_for(difficulty: Option<Difficulty>, seed: u64) -> GameParameters {
    match difficulty {
        Some(Difficulty::Medium) => GameParameters {
            seed,
            max_columns: 10,
            max_rows: 10,
            num_islands: 20,
            max_bridge_length: 3,
        },
        Some(Difficulty::Hard) => GameParameters {
            seed,
            max_columns: 10,
            max_rows: 10,
            num_islands: 25,
            max_bridge_length: 5,
        },
        Some(Difficulty::Extreme) => GameParameters {
            seed,
            max_columns: 10,
            max_rows: 10,
            num_islands: 50,
            max_bridge_length: 7,
        },
        _ => GameParameters {
            seed,
            max_columns: 10,
            max_rows: 10,
            num_islands: 10,
            max_bridge_length: 1,
        },
    }
}

impl DifficultyConversionError {
    /// The error in words.
    pub fn to_string(&self) -> (text: String)
        ensures
            text@ == "Cannot convert to difficulty"@,
    {
        String::from_str("Cannot convert to difficulty")
    }
}

impl Difficulty {
    /// The level that the lower case name `name` stands for.
    pub fn from_lowercase(name: &String) -> (level: Result<Difficulty, DifficultyConversionError>)
        ensures
            match level {
                Ok(difficulty) => level_named(name@) == Some(difficulty),
                Err(_) => level_named(name@) is None,
            },
    {
        if *name == String::from_str("easy") {
            Ok(Difficulty::Easy)
        } else if *name == String::from_str("medium") {
            Ok(Difficulty::Medium)
        } else if *name == String::from_str("hard") {
            Ok(Difficulty::Hard)
        } else if *name == String::from_str("extreme") {
            Ok(Difficulty::Extreme)
        } else {
            Err(DifficultyConversionError)
        }
    }

    /// The level that `text` names, in whatever case it is written.
    pub fn parse(text: &str) -> (level: Result<Difficulty, DifficultyConversionError>)
        ensures
            match level {
                Ok(difficulty) => level_named(lowercase_of(text@)) == Some(difficulty),
                Err(_) => level_named(lowercase_of(text@)) is None,
            },
    {
        let lower = lowercase(text);
        Difficulty::from_lowercase(&lower)
    }

    /// The puzzle that is generated for `difficulty` from `seed`.
    pub fn parameters(difficulty: Option<Difficulty>, seed: u64) -> (params: GameParameters)
        ensures
            params == parameters_for(difficulty, seed),
            crate::grid::valid_grid(params.max_columns, params.max_rows),
    {
        let (num_islands, max_bridge_length): (usize, usize) = match difficulty {
            Some(Difficulty::Medium) => (20, 3),
            Some(Difficulty::Hard) => (25, 5),
            Some(Difficulty::Extreme) => (50, 7),
            _ => (10, 1),
        };
        GameParameters { seed, max_columns: 10, max_rows: 10, num_islands, max_bridge_length }
    }
}

impl core::str::FromStr for Difficulty {
    type Err = DifficultyConversionError;

    /// The level that `s` names, in whatever case it is written.
    fn from_str(s: &str) -> (level: Result<Self, Self::Err>)
        ensures
            match level {
                Ok(difficulty) => level_named(lowercase_of(s@)) == Some(difficulty),
                Err(_) => level_named(lowercase_of(s@)) is None,
            },
    {
        Difficulty::parse(s)
    }
}

} // verus!
