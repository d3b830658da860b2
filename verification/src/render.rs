//! A puzzle as text: the grid in a frame, one line for each row, with the
//! target of every island at its place.
use crate::grid::{
    lemma_next_row_start, lemma_row_start_is_size, lemma_row_start_monotonic, row_start,
    size_spec, valid_grid,
};
use crate::hex::{BridgeError, HexSystem, Island};
use vstd::prelude::*;
use vstd::string::StringExecFns;

verus! {

/// The decimal digit `digit`.
pub open spec fn digit_text(digit: nat) -> Seq<char> {
    if digit == 0 {
        "0"@
    } else if digit == 1 {
        "1"@
    } else if digit == 2 {
        "2"@
    } else if digit == 3 {
        "3"@
    } else if digit == 4 {
        "4"@
    } else if digit == 5 {
        "5"@
    } else if digit == 6 {
        "6"@
    } else if digit == 7 {
        "7"@
    } else if digit == 8 {
        "8"@
    } else {
        "9"@
    }
}

/// `number` in decimal digits.
pub open spec fn number_text(number: nat) -> Seq<char>
    decreases number,
{
    if number < 10 {
        digit_text(number)
    } else {
        number_text(number / 10) + digit_text(number % 10)
    }
}

/// A cell: the target of an island, a blank for any other cell.
pub open spec fn cell_text(cell: Island) -> Seq<char> {
    match cell {
        Island::Bridged(target) => number_text(target as nat),
        _ => " "@,
    }
}

/// The `count` cells from `start` on, each followed by a blank.
pub open spec fn spaced_cells(islands: Seq<Island>, start: int, count: nat) -> Seq<char>
    decreases count,
{
    if count == 0 {
        Seq::empty()
    } else {
        spaced_cells(islands, start, (count - 1) as nat) + cell_text(islands[start + count - 1])
            + " "@
    }
}

/// The line of row `row`: an even row is indented by a blank, an odd row
/// has one cell more and fills the frame.
pub open spec fn row_text(islands: Seq<Island>, columns: int, row: int) -> Seq<char> {
    let start = row_start(columns, row);
    if row % 2 == 0 {
        "\u{2503} "@ + spaced_cells(islands, start, columns as nat) + "\u{2503}\n"@
    } else {
        "\u{2503}"@ + spaced_cells(islands, start, columns as nat) + cell_text(
            islands[start + columns],
        ) + "\u{2503}\n"@
    }
}

/// The lines of the first `rows` rows.
pub open spec fn rows_text(islands: Seq<Island>, columns: int, rows: nat) -> Seq<char>
    decreases rows,
{
    if rows == 0 {
        Seq::empty()
    } else {
        rows_text(islands, columns, (rows - 1) as nat) + row_text(islands, columns, rows - 1)
    }
}

/// A horizontal bar of `length` strokes.
pub open spec fn bar_text(length: nat) -> Seq<char>
    decreases length,
{
    if length == 0 {
        Seq::empty()
    } else {
        bar_text((length - 1) as nat) + "\u{2501}"@
    }
}

/// The whole board: the rows between the top and the bottom of the frame.
pub open spec fn board_text(islands: Seq<Island>, columns: int, rows: nat) -> Seq<char> {
    "\u{250f}"@ + bar_text((2 * columns + 1) as nat) + "\u{2513}\n"@ + rows_text(
        islands,
        columns,
        rows,
    ) + "\u{2517}"@ + bar_text((2 * columns + 1) as nat) + "\u{251b}"@
}

/// What the library says of an error.
pub open spec fn error_text(error: BridgeError) -> Seq<char> {
    match error {
        BridgeError::NotFound => "Bridge is not found."@,
        BridgeError::Blocked => "Bridge is blocked."@,
    }
}

/// The text of one decimal digit.
fn digit_str(digit: usize) -> (text: &'static str)
    requires
        digit < 10,
    ensures
        text@ == digit_text(digit as nat),
{
    if digit == 0 {
        "0"
    } else if digit == 1 {
        "1"
    } else if digit == 2 {
        "2"
    } else if digit == 3 {
        "3"
    } else if digit == 4 {
        "4"
    } else if digit == 5 {
        "5"
    } else if digit == 6 {
        "6"
    } else if digit == 7 {
        "7"
    } else if digit == 8 {
        "8"
    } else {
        "9"
    }
}

/// Append `number` in decimal digits to `text`.
fn push_number(text: &mut String, number: usize)
    ensures
        final(text)@ == old(text)@ + number_text(number as nat),
    decreases number,
{
    if number >= 10 {
        push_number(text, number / 10);
    }
    text.append(digit_str(number % 10));
    proof {
        if number >= 10 {
            assert(final(text)@ =~= old(text)@ + (number_text((number / 10) as nat) + digit_text(
                (number % 10) as nat,
            )));
        }
    }
}

/// Append a cell to `text`.
fn push_cell(text: &mut String, cell: Island)
    ensures
        final(text)@ == old(text)@ + cell_text(cell),
{
    match cell {
        Island::Bridged(target) => push_number(text, target),
        _ => text.append(" "),
    }
}

/// Append a horizontal bar of `length` strokes to `text`.
fn push_bar(text: &mut String, length: usize)
    ensures
        final(text)@ == old(text)@ + bar_text(length as nat),
{
    let mut done: usize = 0;
    assert(text@ =~= old(text)@ + bar_text(0));
    while done < length
        invariant
            done <= length,
            text@ == old(text)@ + bar_text(done as nat),
        decreases length - done,
    {
        text.append("\u{2501}");
        done += 1;
        assert(text@ =~= old(text)@ + bar_text(done as nat));
    }
}

impl BridgeError {
    /// The error in words.
    pub fn to_string(&self) -> (text: String)
        ensures
            text@ == error_text(*self),
    {
        match self {
            BridgeError::NotFound => String::from_str("Bridge is not found."),
            BridgeError::Blocked => String::from_str("Bridge is blocked."),
        }
    }
}

impl HexSystem {
    /// Append the `count` cells from `start` on to `text`, each followed by a blank.
    fn push_spaced(&self, text: &mut String, start: usize, count: usize)
        requires
            start + count <= self.islands@.len(),
        ensures
            final(text)@ == old(text)@ + spaced_cells(self.islands@, start as int, count as nat),
    {
        let mut done: usize = 0;
        let size = self.islands.len();
        assert(text@ =~= old(text)@ + spaced_cells(self.islands@, start as int, 0));
        while done < count
            invariant
                done <= count,
                size == self.islands@.len(),
                start + count <= size,
                text@ == old(text)@ + spaced_cells(self.islands@, start as int, done as nat),
            decreases count - done,
        {
            push_cell(text, self.islands[start + done]);
            text.append(" ");
            done += 1;
            assert(text@ =~= old(text)@ + spaced_cells(self.islands@, start as int, done as nat));
        }
    }

    /// The puzzle as text: the grid in a frame, one line for each row,
    /// with the target of every island at its place and a blank for every
    /// other cell.
    pub fn to_string(&self) -> (text: String)
        requires
            valid_grid(self.columns, self.rows),
            self.islands@.len() == size_spec(self.columns as int, self.rows as int),
        ensures
            text@ == board_text(self.islands@, self.columns as int, self.rows as nat),
    {
        let columns = self.columns;
        proof {
            assert(columns * self.rows >= columns) by (nonlinear_arith)
                requires
                    self.rows >= 1,
                    columns >= 0,
            ;
        }
        let mut text = String::from_str("\u{250f}");
        push_bar(&mut text, 2 * columns + 1);
        text.append("\u{2513}\n");
        let ghost head = text@;
        let mut row: usize = 0;
        let mut start: usize = 0;
        assert(text@ =~= head + rows_text(self.islands@, columns as int, 0));
        while row < self.rows
            invariant
                row <= self.rows,
                columns == self.columns,
                valid_grid(self.columns, self.rows),
                self.islands@.len() == size_spec(self.columns as int, self.rows as int),
                start == row_start(columns as int, row as int),
                text@ == head + rows_text(self.islands@, columns as int, row as nat),
            decreases self.rows - row,
        {
            proof {
                lemma_next_row_start(columns as int, row as int);
                lemma_row_start_monotonic(columns as int, row + 1, self.rows as int);
                lemma_row_start_is_size(columns as int, self.rows as int);
            }
            let ghost above = text@;
            if row % 2 == 0 {
                text.append("\u{2503} ");
                self.push_spaced(&mut text, start, columns);
                text.append("\u{2503}\n");
                start = start + columns;
            } else {
                text.append("\u{2503}");
                self.push_spaced(&mut text, start, columns);
                push_cell(&mut text, self.islands[start + columns]);
                text.append("\u{2503}\n");
                start = start + columns + 1;
            }
            proof {
                assert(text@ =~= above + row_text(self.islands@, columns as int, row as int));
                assert(text@ =~= head + rows_text(self.islands@, columns as int, (row + 1) as nat));
            }
            row += 1;
        }
        text.append("\u{2517}");
        push_bar(&mut text, 2 * columns + 1);
        text.append("\u{251b}");
        assert(text@ =~= board_text(self.islands@, self.columns as int, self.rows as nat));
        text
    }
}

} // verus!
