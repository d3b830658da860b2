//! What any puzzle of bridges and islands offers, whatever its grid.
use crate::grid::{column_of, row_of};
use crate::hex::{next_state, span, BridgeState, HexBridge, HexSystem};
use vstd::prelude::*;

verus! {

/// A bridge that is cycled through its states.
pub trait Bridge {
    /// The state of the bridge.
    spec fn state_spec(&self) -> BridgeState;

    /// Advance the bridge to its next state and report the new number of spans.
    fn cycle(&mut self) -> (count: Option<usize>)
        ensures
            final(self).state_spec() == next_state(old(self).state_spec()),
            count == Some(span(final(self).state_spec()) as usize),
    ;

    /// Number of spans of the bridge.
    fn get_count(&self) -> (count: usize)
        ensures
            count == span(self.state_spec()),
    ;

    /// Largest number of spans that the bridge can have.
    fn get_max(&self) -> (max: usize)
        ensures
            span(self.state_spec()) <= max,
    ;

    /// State of the bridge.
    fn get_state(&self) -> (state: &BridgeState)
        ensures
            *state == self.state_spec(),
    ;
}

/// A puzzle whose islands are addressed by one index.
pub trait CoordinateSystem {
    /// Whether the puzzle is well-formed.
    spec fn valid_spec(&self) -> bool;

    /// Whether the puzzle has an island.
    spec fn inhabited_spec(&self) -> bool;

    /// The islands that a bridge can join to `from`, in increasing order.
    spec fn connected_spec(&self, from: usize) -> Seq<usize>;

    /// Row and column of the cell with index `from`.
    spec fn position_spec(&self, from: usize) -> (int, int);

    /// Spans of all bridges that touch island `from`.
    spec fn actual_spec(&self, from: usize) -> nat;

    /// Whether the puzzle is solved.
    spec fn is_solved_spec(&self) -> bool;

    /// Get connected islands for `from` island.
    fn get_connected_islands(&self, from: usize) -> (connected: Vec<usize>)
        ensures
            connected@ == self.connected_spec(from),
    ;

    /// Get row, column for `from` index of island.
    fn get_row_column_for_index(&self, from: usize) -> (position: (usize, usize))
        requires
            self.valid_spec(),
        ensures
            (position.0 as int, position.1 as int) == self.position_spec(from),
    ;

    /// Get actual number of bridges for an island with index `from`.
    fn get_actual_bridges(&self, from: usize) -> (actual: usize)
        requires
            self.valid_spec(),
        ensures
            actual == self.actual_spec(from),
    ;

    /// Check if game is solved.
    fn is_solved(&self) -> (solved: bool)
        requires
            self.valid_spec(),
            self.inhabited_spec(),
        ensures
            solved == self.is_solved_spec(),
    ;
}

impl Bridge for HexBridge {
    open spec fn state_spec(&self) -> BridgeState {
        self.state
    }

    fn cycle(&mut self) -> (count: Option<usize>) {
        HexBridge::cycle(self)
    }

    fn get_count(&self) -> (count: usize) {
        HexBridge::get_count(self)
    }

    fn get_max(&self) -> (max: usize) {
        HexBridge::get_max(self)
    }

    fn get_state(&self) -> (state: &BridgeState) {
        HexBridge::get_state(self)
    }
}

impl CoordinateSystem for HexSystem {
    open spec fn valid_spec(&self) -> bool {
        self.wf()
    }

    open spec fn inhabited_spec(&self) -> bool {
        exists|i: int| self.is_island(i)
    }

    open spec fn connected_spec(&self, from: usize) -> Seq<usize> {
        self.connected_islands_spec(from)
    }

    open spec fn position_spec(&self, from: usize) -> (int, int) {
        (row_of(self.columns as int, from as int), column_of(self.columns as int, from as int))
    }

    open spec fn actual_spec(&self, from: usize) -> nat {
        self.actual_bridges_spec(from)
    }

    open spec fn is_solved_spec(&self) -> bool {
        self.solved_spec()
    }

    fn get_connected_islands(&self, from: usize) -> (connected: Vec<usize>) {
        HexSystem::get_connected_islands(self, from)
    }

    fn get_row_column_for_index(&self, from: usize) -> (position: (usize, usize)) {
        proof {
            assert(self.columns * self.rows >= self.columns) by (nonlinear_arith)
                requires
                    self.rows >= 1,
                    self.columns >= 0,
            ;
        }
        HexSystem::get_row_column_for_index(self, from)
    }

    fn get_actual_bridges(&self, from: usize) -> (actual: usize) {
        HexSystem::get_actual_bridges(self, from)
    }

    fn is_solved(&self) -> (solved: bool) {
        HexSystem::is_solved(self)
    }
}

} // verus!
