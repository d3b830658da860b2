//! The puzzle model: islands, bridges and the puzzle that holds them.
use crate::grid::{
    column_of, lemma_neighbor_by_index, neighbor, period, row_of, size_spec, valid_grid,
};
use std::collections::BTreeMap;
use vstd::std_specs::iter::IteratorSpec;
use vstd::prelude::*;

verus! {

/// Number of parallel spans of a bridge.
#[derive(Clone, Copy, Debug, PartialEq, Eq, PartialOrd, Structural)]
pub enum BridgeState {
    Empty,
    Partial,
    Full,
}

/// A bridge between two islands.
///
/// `gap_indices` lists the empty cells that the bridge passes over, in the
/// order in which they are met when walking from the island with the larger
/// index to the one with the smaller index.
#[derive(Clone, Debug)]
pub struct HexBridge {
    pub state: BridgeState,
    pub gap_indices: Vec<usize>,
}

/// Why a bridge could not be cycled.
#[derive(Clone, Copy, Debug, PartialEq, Eq, Structural)]
pub enum BridgeError {
    /// No bridge can be placed between the two islands.
    NotFound,
    /// The bridge would cross another bridge that is in place.
    Blocked,
}

/// A cell of the grid.
#[derive(Clone, Copy, Debug, PartialEq, Eq, Structural)]
pub enum Island {
    /// No island here.
    Empty,
    /// An island that asks for this many bridge spans.
    Bridged(usize),
    /// A cell kept free during generation because a bridge runs over it.
    Blocked,
}

/// A puzzle.
///
/// Linear space: cell 0 is top left, and all odd rows have one more column.
#[derive(Clone, Debug)]
pub struct HexSystem {
    pub columns: usize,
    pub rows: usize,
    pub islands: Vec<Island>,
    pub bridges: BTreeMap<(usize, usize), HexBridge>,
}

/// What a puzzle is generated from.
pub struct GameParameters {
    /// Seed of the pseudo-random number generator.
    pub seed: u64,
    /// Number of cells in the even rows of the grid.
    pub max_columns: usize,
    /// Number of rows of the grid.
    pub max_rows: usize,
    /// Number of islands asked for.
    pub num_islands: usize,
    /// Largest number of steps between two islands that the tour joins.
    pub max_bridge_length: usize,
}

/// Spans that a bridge in state `state` contributes to each of its islands.
pub open spec fn span(state: BridgeState) -> nat {
    match state {
        BridgeState::Empty => 0,
        BridgeState::Partial => 1,
        BridgeState::Full => 2,
    }
}

/// The state that follows `state` when a bridge is cycled.
pub open spec fn next_state(state: BridgeState) -> BridgeState {
    match state {
        BridgeState::Empty => BridgeState::Partial,
        BridgeState::Partial => BridgeState::Full,
        BridgeState::Full => BridgeState::Empty,
    }
}

/// The key under which the bridge between islands `a` and `b` is stored.
pub open spec fn bridge_key(a: usize, b: usize) -> (usize, usize) {
    if a <= b {
        (a, b)
    } else {
        (b, a)
    }
}

/// Whether two gap lists share a cell.
pub open spec fn gaps_intersect(first: Seq<usize>, second: Seq<usize>) -> bool {
    exists|i: int, j: int|
        0 <= i < first.len() && 0 <= j < second.len() && first[i] == second[j]
}

/// Whether every bridge of `bridges` is stored under the ordered pair of two
/// distinct islands of `islands`, and runs over empty cells only.
pub open spec fn bridges_fit(
    islands: Seq<Island>,
    bridges: Map<(usize, usize), HexBridge>,
) -> bool {
    forall|key: (usize, usize)| #[trigger]
        bridges.contains_key(key) ==> {
            &&& key.0 < key.1 < islands.len()
            &&& islands[key.0 as int] is Bridged
            &&& islands[key.1 as int] is Bridged
            &&& forall|g: int|
                0 <= g < bridges[key].gap_indices@.len() ==> {
                    &&& (#[trigger] bridges[key].gap_indices@[g]) < islands.len()
                    &&& islands[bridges[key].gap_indices@[g] as int] is Empty
                }
        }
}

/// Number of spans that join islands `a` and `b` where the bridges are in `states`.
pub open spec fn span_in(states: Map<(usize, usize), BridgeState>, a: usize, b: usize) -> nat {
    if states.contains_key(bridge_key(a, b)) {
        span(states[bridge_key(a, b)])
    } else {
        0
    }
}

/// Spans that join island `from` to the islands with an index below `limit`.
pub open spec fn spans_below(
    states: Map<(usize, usize), BridgeState>,
    from: usize,
    limit: nat,
) -> nat
    decreases limit,
{
    if limit == 0 {
        0
    } else {
        spans_below(states, from, (limit - 1) as nat) + span_in(states, from, (limit - 1) as usize)
    }
}

/// Whether cell `index` of `islands` is an island.
pub open spec fn is_island(islands: Seq<Island>, index: int) -> bool {
    0 <= index < islands.len() && islands[index] is Bridged
}

/// The spans at an island after the bridge under `key` has taken the
/// state `state`: they change by what that bridge gains or loses where the
/// bridge touches the island, and stay as they are where it does not.
pub proof fn lemma_spans_after_change(
    states: Map<(usize, usize), BridgeState>,
    key: (usize, usize),
    state: BridgeState,
    from: usize,
    limit: nat,
)
    requires
        key.0 < key.1,
        limit <= usize::MAX,
    ensures
        spans_below(states.insert(key, state), from, limit) == spans_below(states, from, limit) + (
        if (from == key.0 && key.1 < limit) || (from == key.1 && key.0 < limit) {
            span(state) - span_in(states, key.0, key.1)
        } else {
            0
        }),
    decreases limit,
{
    if limit > 0 {
        let other = (limit - 1) as usize;
        lemma_spans_after_change(states, key, state, from, (limit - 1) as nat);
        if bridge_key(from, other) != key {
            assert(span_in(states.insert(key, state), from, other) == span_in(states, from, other));
        } else {
            assert(bridge_key(key.0, key.1) == key);
        }
    }
}

/// An island has at most two spans for every island that a bridge joins it to.
pub proof fn lemma_spans_at_most(
    states: Map<(usize, usize), BridgeState>,
    from: usize,
    limit: nat,
    others: Set<usize>,
)
    requires
        limit <= usize::MAX,
        others.finite(),
        forall|o: usize|
            o < limit && #[trigger] states.contains_key(bridge_key(from, o)) ==> others.contains(o),
    ensures
        spans_below(states, from, limit) <= 2 * others.len(),
    decreases limit,
{
    if limit > 0 {
        let last = (limit - 1) as usize;
        if states.contains_key(bridge_key(from, last)) {
            assert(others.contains(last));
            lemma_spans_at_most(states, from, (limit - 1) as nat, others.remove(last));
        } else {
            lemma_spans_at_most(states, from, (limit - 1) as nat, others);
        }
    }
}

/// Where there are no bridges, no island has spans.
pub proof fn lemma_spans_of_none(from: usize, limit: nat)
    ensures
        spans_below(Map::<(usize, usize), BridgeState>::empty(), from, limit) == 0,
    decreases limit,
{
    if limit > 0 {
        lemma_spans_of_none(from, (limit - 1) as nat);
    }
}

impl HexSystem {
    /// The state of every bridge, by its key.
    pub open spec fn states(&self) -> Map<(usize, usize), BridgeState> {
        states_of(self.bridges@)
    }

    /// Whether no two bridges that are in place run over the same cell.
    pub open spec fn uncrossed(&self) -> bool {
        crossing_free(self.bridges@, self.states())
    }

    /// Whether a bridge can be placed between islands `a` and `b`.
    pub open spec fn has_bridge(&self, a: usize, b: usize) -> bool {
        self.bridges@.contains_key(bridge_key(a, b))
    }

    /// Spans of all bridges that touch island `from`: the spans that join
    /// it to any other island.
    pub open spec fn actual_bridges_spec(&self, from: usize) -> nat {
        spans_below(self.states(), from, self.islands@.len())
    }

    /// The islands below `limit` that a bridge can join to `from`, in increasing order.
    pub open spec fn connected_below(&self, from: usize, limit: nat) -> Seq<usize>
        decreases limit,
    {
        if limit == 0 {
            Seq::empty()
        } else if self.has_bridge(from, (limit - 1) as usize) {
            self.connected_below(from, (limit - 1) as nat).push((limit - 1) as usize)
        } else {
            self.connected_below(from, (limit - 1) as nat)
        }
    }

    /// The islands that a bridge can join to `from`, in increasing order.
    pub open spec fn connected_islands_spec(&self, from: usize) -> Seq<usize> {
        self.connected_below(from, self.islands@.len())
    }

    /// The islands that a bridge can join to `from` are those at the other
    /// end of a bridge that touches `from`, each once and in increasing
    /// order.
    pub proof fn lemma_connected_islands(&self, from: usize, limit: nat)
        requires
            limit <= usize::MAX,
        ensures
            forall|o: usize|
                self.connected_below(from, limit).contains(o) <==> o < limit && self.has_bridge(
                    from,
                    o,
                ),
            forall|i: int, j: int|
                0 <= i < j < self.connected_below(from, limit).len() ==> self.connected_below(
                    from,
                    limit,
                )[i] < self.connected_below(from, limit)[j],
            forall|i: int|
                0 <= i < self.connected_below(from, limit).len() ==> self.connected_below(
                    from,
                    limit,
                )[i] < limit,
        decreases limit,
    {
        let all = self.connected_below(from, limit);
        if limit > 0 {
            let last = (limit - 1) as usize;
            let rest = self.connected_below(from, (limit - 1) as nat);
            self.lemma_connected_islands(from, (limit - 1) as nat);
            assert forall|o: usize| all.contains(o) <==> o < limit && self.has_bridge(
                from,
                o,
            ) by {
                if self.has_bridge(from, last) {
                    assert(all == rest.push(last));
                    assert(all[rest.len() as int] == last);
                    if rest.contains(o) {
                        let i = choose|i: int| 0 <= i < rest.len() && rest[i] == o;
                        assert(all[i] == o);
                    }
                    if all.contains(o) && o != last {
                        let i = choose|i: int| 0 <= i < all.len() && all[i] == o;
                        assert(rest[i] == o);
                    }
                }
            }
        }
    }

    /// In a well-formed puzzle the islands that a bridge can join to
    /// `from` are the other ends of all the bridges that touch `from`.
    pub proof fn lemma_connected_touching(&self, from: usize, key: (usize, usize))
        requires
            self.wf(),
            self.bridges@.contains_key(key),
        ensures
            key.0 == from ==> self.connected_islands_spec(from).contains(key.1),
            key.1 == from ==> self.connected_islands_spec(from).contains(key.0),
    {
        let size = self.islands@.len();
        self.lemma_connected_islands(from, size);
        assert(bridge_key(key.0, key.1) == key);
        assert(bridge_key(key.1, key.0) == key);
        if key.0 == from {
            assert(key.1 < size && self.has_bridge(from, key.1));
            assert(self.connected_below(from, size).contains(key.1));
        }
        if key.1 == from {
            assert(key.0 < size && self.has_bridge(from, key.0));
            assert(self.connected_below(from, size).contains(key.0));
        }
    }

    /// Whether cell `index` is an island.
    pub open spec fn is_island(&self, index: int) -> bool {
        is_island(self.islands@, index)
    }

    /// The puzzle's invariant.
    ///
    /// The cells fill a valid grid and none is `Blocked`; every bridge is
    /// stored under the ordered pair of two distinct islands, and runs over
    /// empty cells of the grid only.
    pub open spec fn wf(&self) -> bool {
        &&& valid_grid(self.columns, self.rows)
        &&& self.islands@.len() == size_spec(self.columns as int, self.rows as int)
        &&& forall|i: int|
            0 <= i < self.islands@.len() ==> !(#[trigger] self.islands@[i] is Blocked)
        &&& bridges_fit(self.islands@, self.bridges@)
    }

    /// Whether the bridge under `other` is in place and runs over a gap
    /// cell of the bridge under `key`.
    pub open spec fn crosses(&self, other: (usize, usize), key: (usize, usize)) -> bool {
        crosses_in(self.bridges@, other, key)
    }

    /// Whether cycling the bridge stored under `key` is ruled out: another
    /// bridge that is in place runs over one of its gap cells.
    pub open spec fn crossed(&self, key: (usize, usize)) -> bool {
        crossed_in(self.bridges@, key)
    }
}

/// Whether the bridge under `other` is in place and runs over a gap cell
/// of the bridge under `key`.
pub open spec fn crosses_in(
    bridges: Map<(usize, usize), HexBridge>,
    other: (usize, usize),
    key: (usize, usize),
) -> bool {
    &&& bridges.contains_key(other)
    &&& other != key
    &&& bridges[other].state != BridgeState::Empty
    &&& gaps_intersect(bridges[other].gap_indices@, bridges[key].gap_indices@)
}

/// Whether another bridge that is in place runs over a gap cell of the
/// bridge under `key`.
pub open spec fn crossed_in(bridges: Map<(usize, usize), HexBridge>, key: (usize, usize)) -> bool {
    exists|other: (usize, usize)| #[trigger] crosses_in(bridges, other, key)
}

/// Whether no two bridges that are in place in `states` run over the same cell.
pub open spec fn crossing_free(
    bridges: Map<(usize, usize), HexBridge>,
    states: Map<(usize, usize), BridgeState>,
) -> bool {
    forall|first: (usize, usize), second: (usize, usize)|
        first != second && #[trigger] states.contains_key(first) && states[first]
            != BridgeState::Empty && #[trigger] states.contains_key(second) && states[second]
            != BridgeState::Empty ==> !gaps_intersect(
            bridges[first].gap_indices@,
            bridges[second].gap_indices@,
        )
}

/// The state of every bridge of `bridges`, by its key.
pub open spec fn states_of(bridges: Map<(usize, usize), HexBridge>) -> Map<
    (usize, usize),
    BridgeState,
> {
    Map::new(
        |key: (usize, usize)| bridges.contains_key(key),
        |key: (usize, usize)| bridges[key].state,
    )
}

/// The bridges after the bridge under `key` has moved on to its next state.
pub open spec fn cycled(bridges: Map<(usize, usize), HexBridge>, key: (usize, usize)) -> Map<
    (usize, usize),
    HexBridge,
> {
    bridges.insert(
        key,
        HexBridge {
            state: next_state(bridges[key].state),
            gap_indices: bridges[key].gap_indices,
        },
    )
}

/// Cycling is cyclic with period three: after three steps a bridge is in
/// the state in which it began, and has as many spans.
pub proof fn lemma_cycle_period(bridges: Map<(usize, usize), HexBridge>, key: (usize, usize))
    requires
        bridges.contains_key(key),
    ensures
        cycled(cycled(cycled(bridges, key), key), key) == bridges,
        next_state(next_state(next_state(bridges[key].state))) == bridges[key].state,
        span(next_state(next_state(next_state(bridges[key].state)))) == span(bridges[key].state),
{
    assert(cycled(cycled(cycled(bridges, key), key), key) =~= bridges);
}

/// Cycling a bridge changes nothing that could block it: a bridge that
/// could be cycled once can be cycled again.
pub proof fn lemma_cycle_keeps_free(bridges: Map<(usize, usize), HexBridge>, key: (usize, usize))
    requires
        bridges.contains_key(key),
    ensures
        crossed_in(cycled(bridges, key), key) == crossed_in(bridges, key),
{
    let after = cycled(bridges, key);
    if crossed_in(bridges, key) {
        let other = choose|other: (usize, usize)| #[trigger] crosses_in(bridges, other, key);
        assert(crosses_in(after, other, key));
    }
    if crossed_in(after, key) {
        let other = choose|other: (usize, usize)| #[trigger] crosses_in(after, other, key);
        assert(crosses_in(bridges, other, key));
    }
}

/// Cycling never makes bridges cross: where no two bridges in place run
/// over the same cell, and the bridge under `key` is free to be cycled, no
/// two bridges in place run over the same cell afterwards.
pub proof fn lemma_cycle_keeps_uncrossed(
    bridges: Map<(usize, usize), HexBridge>,
    key: (usize, usize),
)
    requires
        bridges.contains_key(key),
        !crossed_in(bridges, key),
        crossing_free(bridges, states_of(bridges)),
    ensures
        crossing_free(cycled(bridges, key), states_of(cycled(bridges, key))),
{
    let after = cycled(bridges, key);
    assert forall|first: (usize, usize), second: (usize, usize)|
        first != second && #[trigger] states_of(after).contains_key(first) && states_of(
            after,
        )[first] != BridgeState::Empty && #[trigger] states_of(after).contains_key(second)
            && states_of(after)[second] != BridgeState::Empty implies !gaps_intersect(
        after[first].gap_indices@,
        after[second].gap_indices@,
    ) by {
        let one = after[first].gap_indices@;
        let two = after[second].gap_indices@;
        if first == key {
            assert(!crosses_in(bridges, second, key));
            if gaps_intersect(one, two) {
                let (i, j) = choose|i: int, j: int|
                    0 <= i < one.len() && 0 <= j < two.len() && one[i] == two[j];
                assert(two[j] == one[i]);
                assert(gaps_intersect(two, one));
            }
        } else if second == key {
            assert(!crosses_in(bridges, first, key));
        } else {
            assert(states_of(bridges).contains_key(first));
            assert(states_of(bridges).contains_key(second));
        }
    }
}

/// Crossing bridges exclude each other: while a bridge with a span runs
/// over a gap cell of another bridge, that other bridge cannot be cycled.
pub proof fn lemma_crossing_excludes(
    bridges: Map<(usize, usize), HexBridge>,
    first: (usize, usize),
    second: (usize, usize),
)
    requires
        bridges.contains_key(first),
        bridges.contains_key(second),
        first != second,
        gaps_intersect(bridges[first].gap_indices@, bridges[second].gap_indices@),
        bridges[first].state != BridgeState::Empty,
    ensures
        crossed_in(bridges, second),
{
    assert(crosses_in(bridges, first, second));
}

impl HexBridge {
    /// Advance the bridge to its next state and report the new number of spans.
    pub fn cycle(&mut self) -> (count: Option<usize>)
        ensures
            final(self).state == next_state(old(self).state),
            final(self).gap_indices == old(self).gap_indices,
            count == Some(span(final(self).state) as usize),
    {
        self.state =
        match self.state {
            BridgeState::Empty => BridgeState::Partial,
            BridgeState::Partial => BridgeState::Full,
            BridgeState::Full => BridgeState::Empty,
        };
        Some(self.get_count())
    }

    /// Number of spans of the bridge.
    pub fn get_count(&self) -> (count: usize)
        ensures
            count == span(self.state),
    {
        match self.state {
            BridgeState::Empty => 0,
            BridgeState::Partial => 1,
            BridgeState::Full => 2,
        }
    }

    /// Largest number of spans that a bridge can have.
    pub fn get_max(&self) -> (max: usize)
        ensures
            max == 2,
            span(self.state) <= max,
    {
        2
    }

    /// State of the bridge.
    pub fn get_state(&self) -> (state: &BridgeState)
        ensures
            *state == self.state,
    {
        &self.state
    }
}

impl HexSystem {
    /// Size of the vector needed to store a `columns` x `rows` puzzle.
    pub fn get_size(columns: usize, rows: usize) -> (size: usize)
        requires
            size_spec(columns as int, rows as int) <= usize::MAX,
        ensures
            size == size_spec(columns as int, rows as int),
    {
        proof {
            assert(0 <= columns * rows) by (nonlinear_arith)
                requires
                    0 <= columns,
                    0 <= rows,
            ;
        }
        columns * rows + rows / 2
    }

    /// Size of a `columns` x `rows` puzzle, if the library can address such a grid.
    pub fn checked_size(columns: usize, rows: usize) -> (size: Option<usize>)
        ensures
            size is Some <==> valid_grid(columns, rows),
            size is Some ==> size->0 == size_spec(columns as int, rows as int),
    {
        if columns == 0 || rows == 0 {
            return None;
        }
        let cells = match columns.checked_mul(rows) {
            Some(cells) => cells,
            None => {
                return None;
            },
        };
        let size = match cells.checked_add(rows / 2) {
            Some(size) => size,
            None => {
                return None;
            },
        };
        if size > (usize::MAX - 1) / 2 {
            return None;
        }
        Some(size)
    }

    /// Indices of the cells next to `from`, in the order NW, NE, E, SE, SW, W.
    ///
    /// ```text
    ///  x - c - 1 ------ x - c
    ///     /      \    /     \
    ///  x - 1 ----- x ----- x + 1
    ///     \      /   \      /
    ///    x + c  ------ x + c + 1
    /// ```
    ///
    /// An entry is `None` where the step would leave the grid: in the first
    /// and last row, and in the first and last column of the row of `from`.
    pub fn get_connected_indices(columns: usize, rows: usize, from: usize) -> (connections: [Option<
        usize,
    >; 6])
        ensures
            forall|direction: int|
                0 <= direction < 6 ==> connections[direction] == neighbor(
                    columns,
                    rows,
                    from,
                    direction,
                ),
    {
        let size = match HexSystem::checked_size(columns, rows) {
            Some(size) => size,
            None => {
                return [None, None, None, None, None, None];
            },
        };
        if from >= size {
            return [None, None, None, None, None, None];
        }
        proof {
            assert(columns * rows >= columns) by (nonlinear_arith)
                requires
                    rows >= 1,
                    columns >= 0,
            ;
            vstd::arithmetic::div_mod::lemma_fundamental_div_mod(
                from as int,
                period(columns as int),
            );
            assert(period(columns as int) * (from as int / period(columns as int)) >= 2 * (
            from as int / period(columns as int))) by (nonlinear_arith)
                requires
                    period(columns as int) >= 2,
                    from as int / period(columns as int) >= 0,
            ;
        }
        let width = 2 * columns + 1;
        let even_row = from % width < columns;
        let row = 2 * (from / width) + if even_row {
            0
        } else {
            1
        };
        let column = from % width - if even_row {
            0
        } else {
            columns
        };
        let first_column = column == 0;
        let last_column = column + 1 == columns + if even_row {
            0
        } else {
            1
        };
        proof {
            assert(row == row_of(columns as int, from as int));
            assert(column == column_of(columns as int, from as int));
            lemma_neighbor_by_index(columns, rows, from, 0);
            lemma_neighbor_by_index(columns, rows, from, 1);
            lemma_neighbor_by_index(columns, rows, from, 2);
            lemma_neighbor_by_index(columns, rows, from, 3);
            lemma_neighbor_by_index(columns, rows, from, 4);
            lemma_neighbor_by_index(columns, rows, from, 5);
        }
        let north = row > 0;
        let south = row + 1 < rows;
        let north_west = if north && (even_row || !first_column) {
            Some(from - columns - 1)
        } else {
            None
        };
        let north_east = if north && (even_row || !last_column) {
            Some(from - columns)
        } else {
            None
        };
        let east = if !last_column {
            Some(from + 1)
        } else {
            None
        };
        let south_east = if south && (even_row || !last_column) {
            Some(from + columns + 1)
        } else {
            None
        };
        let south_west = if south && (even_row || !first_column) {
            Some(from + columns)
        } else {
            None
        };
        let west = if !first_column {
            Some(from - 1)
        } else {
            None
        };
        [north_west, north_east, east, south_east, south_west, west]
    }

    /// Row and column of the cell with index `from`.
    pub fn get_row_column_for_index(&self, from: usize) -> (position: (usize, usize))
        requires
            1 <= self.columns,
            2 * self.columns < usize::MAX,
        ensures
            position.0 == row_of(self.columns as int, from as int),
            position.1 == column_of(self.columns as int, from as int),
    {
        let width = 2 * self.columns + 1;
        let even_row = from % width < self.columns;
        proof {
            vstd::arithmetic::div_mod::lemma_fundamental_div_mod(from as int, width as int);
            assert(width * (from / width) >= 2 * (from / width)) by (nonlinear_arith)
                requires
                    width >= 2,
                    from / width >= 0,
            ;
        }
        let row = 2 * (from / width) + if even_row {
            0
        } else {
            1
        };
        let column = from % width - if even_row {
            0
        } else {
            self.columns
        };
        (row, column)
    }

    /// The key under which the bridge between `from` and `to` is stored.
    pub fn key_of(from: usize, to: usize) -> (key: (usize, usize))
        ensures
            key == bridge_key(from, to),
    {
        if from <= to {
            (from, to)
        } else {
            (to, from)
        }
    }

    /// Get the bridge between `from` and `to`.
    ///
    /// `None` says that no bridge can be placed between the two islands,
    /// which is not the same as a bridge without spans.
    pub fn get_bridge(&self, from: usize, to: usize) -> (bridge: Option<&HexBridge>)
        ensures
            bridge is Some <==> self.has_bridge(from, to),
            bridge is Some ==> *bridge->0 == self.bridges@[bridge_key(from, to)],
    {
        let key = HexSystem::key_of(from, to);
        self.bridges.get(&key)
    }

    /// Get connected islands for `from` island: every island that a
    /// bridge can join to it, whatever the bridge's state.
    pub fn get_connected_islands(&self, from: usize) -> (connected: Vec<usize>)
        ensures
            connected@ == self.connected_islands_spec(from),
    {
        let mut connected: Vec<usize> = Vec::new();
        let mut other: usize = 0;
        while other < self.islands.len()
            invariant
                other <= self.islands@.len(),
                connected@ == self.connected_below(from, other as nat),
            decreases self.islands@.len() - other,
        {
            if self.get_bridge(from, other).is_some() {
                connected.push(other);
            }
            other += 1;
        }
        connected
    }

    /// The states of the bridges that touch `from`, in the order of the
    /// islands at their other ends.
    pub fn get_bridges(&self, from: usize) -> (states: Vec<&BridgeState>)
        ensures
            states@.len() == self.connected_islands_spec(from).len(),
            forall|i: int|
                0 <= i < states@.len() ==> *#[trigger] states@[i] == self.bridges@[bridge_key(
                    from,
                    self.connected_islands_spec(from)[i],
                )].state,
    {
        let mut states: Vec<&BridgeState> = Vec::new();
        let mut other: usize = 0;
        while other < self.islands.len()
            invariant
                other <= self.islands@.len(),
                states@.len() == self.connected_below(from, other as nat).len(),
                forall|i: int|
                    0 <= i < states@.len() ==> *#[trigger] states@[i] == self.bridges@[bridge_key(
                        from,
                        self.connected_below(from, other as nat)[i],
                    )].state,
            decreases self.islands@.len() - other,
        {
            match self.get_bridge(from, other) {
                Some(bridge) => {
                    states.push(bridge.get_state());
                },
                None => {},
            }
            other += 1;
        }
        states
    }

    /// Get actual number of bridges for an island with index `from`.
    pub fn get_actual_bridges(&self, from: usize) -> (actual: usize)
        requires
            2 * self.islands@.len() <= usize::MAX,
        ensures
            actual == self.actual_bridges_spec(from),
    {
        let mut actual: usize = 0;
        let mut other: usize = 0;
        while other < self.islands.len()
            invariant
                other <= self.islands@.len(),
                2 * self.islands@.len() <= usize::MAX,
                actual == spans_below(self.states(), from, other as nat),
                actual <= 2 * other,
            decreases self.islands@.len() - other,
        {
            match self.get_bridge(from, other) {
                Some(bridge) => {
                    actual += bridge.get_count();
                },
                None => {},
            }
            other += 1;
        }
        actual
    }

    /// Whether two gap lists share a cell.
    fn share_cell(first: &Vec<usize>, second: &Vec<usize>) -> (shared: bool)
        ensures
            shared == gaps_intersect(first@, second@),
    {
        let mut i: usize = 0;
        while i < first.len()
            invariant
                i <= first@.len(),
                forall|x: int, y: int|
                    0 <= x < i && 0 <= y < second@.len() ==> first@[x] != second@[y],
            decreases first@.len() - i,
        {
            let mut j: usize = 0;
            while j < second.len()
                invariant
                    i < first@.len(),
                    j <= second@.len(),
                    forall|y: int| 0 <= y < j ==> first@[i as int] != second@[y],
                decreases second@.len() - j,
            {
                if first[i] == second[j] {
                    return true;
                }
                j += 1;
            }
            i += 1;
        }
        false
    }

    /// Whether another bridge that is in place runs over a gap cell of the bridge under `key`.
    fn is_crossed(&self, key: (usize, usize)) -> (crossed: bool)
        requires
            self.bridges@.contains_key(key),
        ensures
            crossed == self.crossed(key),
    {
        let gaps = match self.bridges.get(&key) {
            Some(bridge) => &bridge.gap_indices,
            None => {
                return false;
            },
        };
        proof {
            vstd::std_specs::btree::axiom_spec_keys_iter(&self.bridges);
        }
        for other in it: self.bridges.keys()
            invariant
                it.seq() == self.bridges.keys().remaining(),
                self.bridges@.contains_key(key),
                gaps@ == self.bridges@[key].gap_indices@,
                forall|k: int|
                    0 <= k < it.index() ==> !self.crosses(*#[trigger] it.seq()[k], key),
        {
            assert(it.seq().unref().to_set().contains(*other)) by {
                assert(it.seq().unref()[it.index()] == *other);
            }
            if other.0 != key.0 || other.1 != key.1 {
                match self.bridges.get(other) {
                    Some(bridge) => {
                        if bridge.get_count() > 0 && HexSystem::share_cell(
                            &bridge.gap_indices,
                            gaps,
                        ) {
                            assert(self.crosses(*other, key));
                            return true;
                        }
                    },
                    None => {},
                }
            }
        }
        proof {
            assert forall|other: (usize, usize)| !self.crosses(other, key) by {
                if self.bridges@.contains_key(other) {
                    let all = self.bridges.keys().remaining();
                    assert(all.unref().to_set().contains(other));
                    let k = choose|k: int| 0 <= k < all.unref().len() && all.unref()[k] == other;
                    assert(*all[k] == other);
                }
            }
        }
        false
    }

    /// Cycle through the states of bridge between `from` and `to`.
    ///
    /// Fails with `NotFound` where no bridge can be placed between the two
    /// islands, and with `Blocked` where another bridge that is in place
    /// runs over one of this bridge's gap cells; the puzzle is then left as
    /// it was. Otherwise the bridge moves on to its next state, nothing else
    /// changes, and the result says whether the puzzle is now solved.
    pub fn cycle_bridge(&mut self, from: usize, to: usize) -> (result: Result<bool, BridgeError>)
        requires
            old(self).wf(),
        ensures
            final(self).wf(),
            old(self).uncrossed() ==> final(self).uncrossed(),
            match result {
                Err(BridgeError::NotFound) => {
                    &&& !old(self).has_bridge(from, to)
                    &&& *final(self) == *old(self)
                },
                Err(BridgeError::Blocked) => {
                    &&& old(self).has_bridge(from, to)
                    &&& old(self).crossed(bridge_key(from, to))
                    &&& *final(self) == *old(self)
                },
                Ok(solved) => {
                    &&& old(self).has_bridge(from, to)
                    &&& !old(self).crossed(bridge_key(from, to))
                    &&& final(self).columns == old(self).columns
                    &&& final(self).rows == old(self).rows
                    &&& final(self).islands == old(self).islands
                    &&& final(self).bridges@ == cycled(old(self).bridges@, bridge_key(from, to))
                    &&& solved == final(self).solved_spec()
                },
            },
    {
        let key = HexSystem::key_of(from, to);
        if !self.bridges.contains_key(&key) {
            return Err(BridgeError::NotFound);
        }
        if self.is_crossed(key) {
            return Err(BridgeError::Blocked);
        }
        let mut bridge = match self.bridges.remove(&key) {
            Some(bridge) => bridge,
            None => {
                return Err(BridgeError::NotFound);
            },
        };
        bridge.cycle();
        self.bridges.insert(key, bridge);
        proof {
            if old(self).uncrossed() {
                lemma_cycle_keeps_uncrossed(old(self).bridges@, key);
            }
            assert(final(self).bridges@ =~= old(self).bridges@.insert(key, bridge));
            assert(old(self).bridges@.contains_key(key));
            assert forall|other: (usize, usize)| #[trigger]
                self.bridges@.contains_key(other) implies old(self).bridges@.contains_key(
                other,
            ) && self.bridges@[other].gap_indices == old(self).bridges@[other].gap_indices by {}
            assert(self.is_island(key.0 as int));
        }
        Ok(self.is_solved())
    }

    /// Whether the bridge under `key` joins two distinct islands and runs over empty cells only.
    pub open spec fn bridge_fits(&self, key: (usize, usize)) -> bool {
        &&& key.0 < key.1 < self.islands@.len()
        &&& self.islands@[key.0 as int] is Bridged
        &&& self.islands@[key.1 as int] is Bridged
        &&& forall|g: int|
            0 <= g < self.bridges@[key].gap_indices@.len() ==> {
                &&& (#[trigger] self.bridges@[key].gap_indices@[g]) < self.islands@.len()
                &&& self.islands@[self.bridges@[key].gap_indices@[g] as int] is Empty
            }
    }

    /// Whether `bridge`, stored under `key`, joins two distinct islands
    /// and runs over empty cells only.
    fn check_bridge(&self, key: (usize, usize), bridge: &HexBridge) -> (fits: bool)
        requires
            self.bridges@.contains_key(key),
            self.bridges@[key] == *bridge,
        ensures
            fits == self.bridge_fits(key),
    {
        let size = self.islands.len();
        if !(key.0 < key.1 && key.1 < size) {
            return false;
        }
        if !matches!(self.islands[key.0], Island::Bridged(_)) || !matches!(
            self.islands[key.1],
            Island::Bridged(_)
        ) {
            return false;
        }
        let mut g: usize = 0;
        while g < bridge.gap_indices.len()
            invariant
                g <= bridge.gap_indices@.len(),
                size == self.islands@.len(),
                self.bridges@[key] == *bridge,
                forall|h: int|
                    0 <= h < g ==> {
                        &&& (#[trigger] bridge.gap_indices@[h]) < self.islands@.len()
                        &&& self.islands@[bridge.gap_indices@[h] as int] is Empty
                    },
            decreases bridge.gap_indices@.len() - g,
        {
            let cell = bridge.gap_indices[g];
            if cell >= size || !matches!(self.islands[cell], Island::Empty) {
                return false;
            }
            g += 1;
        }
        true
    }

    /// Check the puzzle's invariant.
    ///
    /// A puzzle that is put together by hand is to pass this check before
    /// it is handed to the operations that ask for a well-formed puzzle.
    pub fn is_valid(&self) -> (valid: bool)
        ensures
            valid == self.wf(),
    {
        match HexSystem::checked_size(self.columns, self.rows) {
            Some(size) => {
                if size != self.islands.len() {
                    return false;
                }
            },
            None => {
                return false;
            },
        }
        let mut index: usize = 0;
        while index < self.islands.len()
            invariant
                index <= self.islands@.len(),
                forall|i: int| 0 <= i < index ==> !(#[trigger] self.islands@[i] is Blocked),
            decreases self.islands@.len() - index,
        {
            if matches!(self.islands[index], Island::Blocked) {
                return false;
            }
            index += 1;
        }
        proof {
            vstd::std_specs::btree::axiom_spec_keys_iter(&self.bridges);
        }
        for key in it: self.bridges.keys()
            invariant
                it.seq() == self.bridges.keys().remaining(),
                forall|k: int| 0 <= k < it.index() ==> self.bridge_fits(*#[trigger] it.seq()[k]),
        {
            assert(it.seq().unref().to_set().contains(*key)) by {
                assert(it.seq().unref()[it.index()] == *key);
            }
            match self.bridges.get(key) {
                Some(bridge) => {
                    if !self.check_bridge(*key, bridge) {
                        assert(!bridges_fit(self.islands@, self.bridges@));
                        return false;
                    }
                },
                None => {},
            }
        }
        proof {
            assert forall|key: (usize, usize)| #[trigger]
                self.bridges@.contains_key(key) implies self.bridge_fits(key) by {
                let all = self.bridges.keys().remaining();
                assert(all.unref().to_set().contains(key));
                let k = choose|k: int| 0 <= k < all.unref().len() && all.unref()[k] == key;
                assert(*all[k] == key);
            }
        }
        true
    }
}

} // verus!
