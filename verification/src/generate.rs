//! Generation of a puzzle by a random tour over the grid.
//!
//! The tour starts on one island and walks from island to island. Each
//! walk takes a direction, a length and a width; where it ends the tour
//! lays a bridge of that width and an island. The bridges of the tour give
//! every island its target, and are then taken away again.
use crate::bridges::{
    connects, gaps_between, is_candidate, is_candidate_map, lemma_at_most_twelve_spans,
    lemma_gaps_between, lemma_ray_geometry, lemma_ray_symmetric, lemma_ray_transfer, ray,
    ray_gaps, reaches,
};
use crate::grid::{lemma_neighbor_geometry, neighbor, opposite, size_spec, valid_grid};
use crate::hex::{
    bridge_key, crossing_free, gaps_intersect, is_island, span_in, BridgeState, GameParameters,
    HexBridge, HexSystem, Island,
};
use crate::random::{draw, seeded};
use crate::solve::{
    joined, lemma_joined_symmetric, lemma_linked_monotonic, lemma_linked_reflexive,
    lemma_linked_step, lemma_linked_transitive, lemma_spans_below_equal, lemma_star_connected,
    linked, meets_target, solvable, solved,
};
use std::collections::BTreeMap;
use vstd::prelude::*;

verus! {

/// Number of walks that may fail before the tour gives up.
pub const ATTEMPTS: usize = 50;

/// Number of islands among `cells`.
pub open spec fn count_islands(cells: Seq<Island>) -> nat
    decreases cells.len(),
{
    if cells.len() == 0 {
        0
    } else {
        count_islands(cells.drop_last()) + if cells.last() is Bridged {
            1nat
        } else {
            0nat
        }
    }
}

/// Where a walk of at most `remaining` steps from `from` in `direction`
/// ends, and the cells as it leaves them.
///
/// The walk ends where the grid ends, on the first cell that is not empty,
/// and after `remaining` steps. With `mark` set, every empty cell that it
/// passes becomes `Blocked`.
pub open spec fn walk(
    cells: Seq<Island>,
    columns: usize,
    rows: usize,
    from: usize,
    direction: int,
    remaining: nat,
    mark: bool,
) -> (usize, Seq<Island>)
    decreases remaining,
{
    match neighbor(columns, rows, from, direction) {
        None => (from, cells),
        Some(next) => {
            if remaining <= 1 || next >= cells.len() || !(cells[next as int] is Empty) {
                (next, cells)
            } else {
                walk(
                    if mark {
                        cells.update(next as int, Island::Blocked)
                    } else {
                        cells
                    },
                    columns,
                    rows,
                    next,
                    direction,
                    (remaining - 1) as nat,
                    mark,
                )
            }
        },
    }
}

/// The state of the bridge that a walk of width `width` leaves behind,
/// where `before` is the bridge that lay there.
pub open spec fn laid(before: Option<BridgeState>, width: usize) -> BridgeState {
    match before {
        Some(_) => BridgeState::Full,
        None => if width == 1 {
            BridgeState::Partial
        } else {
            BridgeState::Full
        },
    }
}

/// The state of the bridge under `key` in `bridges`, if there is one.
pub open spec fn state_at(bridges: Map<(usize, usize), HexBridge>, key: (usize, usize)) -> Option<
    BridgeState,
> {
    if bridges.contains_key(key) {
        Some(bridges[key].state)
    } else {
        None
    }
}

proof fn lemma_count_bound(cells: Seq<Island>)
    ensures
        count_islands(cells) <= cells.len(),
    decreases cells.len(),
{
    if cells.len() > 0 {
        lemma_count_bound(cells.drop_last());
    }
}

proof fn lemma_count_update(cells: Seq<Island>, index: int, cell: Island)
    requires
        0 <= index < cells.len(),
    ensures
        count_islands(cells.update(index, cell)) + (if cells[index] is Bridged {
            1nat
        } else {
            0nat
        }) == count_islands(cells) + (if cell is Bridged {
            1nat
        } else {
            0nat
        }),
    decreases cells.len(),
{
    let after = cells.update(index, cell);
    if index == cells.len() - 1 {
        assert(after.drop_last() =~= cells.drop_last());
    } else {
        lemma_count_update(cells.drop_last(), index, cell);
        assert(after.drop_last() =~= cells.drop_last().update(index, cell));
    }
}

proof fn lemma_count_none(cells: Seq<Island>)
    requires
        forall|i: int| 0 <= i < cells.len() ==> !(#[trigger] cells[i] is Bridged),
    ensures
        count_islands(cells) == 0,
    decreases cells.len(),
{
    if cells.len() > 0 {
        lemma_count_none(cells.drop_last());
    }
}

/// The cells as the tour's bridges see them: the cells that the tour has
/// blocked are free for its bridges, and the empty cells are not.
pub open spec fn lanes(cells: Seq<Island>) -> Seq<Island> {
    Seq::new(
        cells.len(),
        |i: int|
            match cells[i] {
                Island::Empty => Island::Blocked,
                Island::Blocked => Island::Empty,
                Island::Bridged(target) => Island::Bridged(target),
            },
    )
}

/// What a walk does to the cells, and where it ends.
///
/// Only empty cells change, and they become blocked. Where the walk ends
/// on another cell than it left from, and that cell is not blocked, the
/// cells between the two are blocked: once the end is an island, the two
/// are joined by a straight line over blocked cells.
proof fn lemma_walk(
    cells: Seq<Island>,
    columns: usize,
    rows: usize,
    from: usize,
    direction: int,
    remaining: nat,
    mark: bool,
)
    requires
        valid_grid(columns, rows),
        cells.len() == size_spec(columns as int, rows as int),
        from < cells.len(),
        0 <= direction < 6,
        remaining >= 1,
        mark || remaining == 1,
    ensures
        ({
            let (end, marked) = walk(cells, columns, rows, from, direction, remaining, mark);
            &&& marked.len() == cells.len()
            &&& end < cells.len()
            &&& forall|i: int|
                0 <= i < cells.len() && !(cells[i] is Empty) ==> #[trigger] marked[i] == cells[i]
            &&& forall|i: int|
                0 <= i < cells.len() && cells[i] is Empty ==> !(#[trigger] marked[i] is Bridged)
            &&& end != from && !(marked[end as int] is Blocked) ==> reaches(
                lanes(marked.update(end as int, Island::Bridged(0))),
                columns,
                rows,
                from,
                end,
                direction,
            )
            &&& end != from && !(marked[end as int] is Blocked) ==> forall|g: int|
                0 <= g < ray_gaps(
                    lanes(marked.update(end as int, Island::Bridged(0))),
                    columns,
                    rows,
                    from,
                    direction,
                ).len() ==> cells[#[trigger] ray_gaps(
                    lanes(marked.update(end as int, Island::Bridged(0))),
                    columns,
                    rows,
                    from,
                    direction,
                )[g] as int] is Empty
        }),
    decreases remaining,
{
    let (end, marked) = walk(cells, columns, rows, from, direction, remaining, mark);
    if neighbor(columns, rows, from, direction) is Some {
        lemma_neighbor_geometry(columns, rows, from, direction);
        let next = neighbor(columns, rows, from, direction)->0;
        if remaining <= 1 || !(cells[next as int] is Empty) {
            if !(marked[end as int] is Blocked) {
                let after = lanes(marked.update(end as int, Island::Bridged(0)));
                assert(after[next as int] is Bridged);
                assert(ray(after, columns, rows, from, direction) == Some(
                    (next, Seq::<usize>::empty()),
                ));
            }
        } else {
            let blocked = cells.update(next as int, Island::Blocked);
            lemma_walk(blocked, columns, rows, next, direction, (remaining - 1) as nat, mark);
            assert(marked[next as int] == blocked[next as int]);
            if end != from && !(marked[end as int] is Blocked) {
                let after = lanes(marked.update(end as int, Island::Bridged(0)));
                assert(end != next);
                assert(after[next as int] is Empty);
                assert(reaches(after, columns, rows, next, end, direction));
                let rest = ray_gaps(after, columns, rows, next, direction);
                assert(ray(after, columns, rows, from, direction) == Some(
                    (end, seq![next] + rest),
                ));
                let gaps = ray_gaps(after, columns, rows, from, direction);
                lemma_ray_geometry(after, columns, rows, next, direction);
                assert forall|g: int|
                    0 <= g < gaps.len() implies cells[#[trigger] gaps[g] as int] is Empty by {
                    if g > 0 {
                        assert(gaps[g] == rest[g - 1]);
                        assert(rest[g - 1] < cells.len());
                        assert(blocked[rest[g - 1] as int] is Empty);
                    }
                }
            }
            assert forall|i: int|
                0 <= i < cells.len() && !(cells[i] is Empty) implies #[trigger] marked[i]
                == cells[i] by {
                assert(blocked[i] == cells[i]);
            }
            assert forall|i: int| 0 <= i < cells.len() && cells[i] is Empty implies !(
            #[trigger] marked[i] is Bridged) by {
                if i != next {
                    assert(blocked[i] == cells[i]);
                }
            }
        }
    }
}

/// A straight line over blocked cells stays one while blocked cells stay
/// blocked and islands stay islands.
proof fn lemma_lane_kept(
    cells: Seq<Island>,
    after: Seq<Island>,
    columns: usize,
    rows: usize,
    from: usize,
    to: usize,
)
    requires
        connects(lanes(cells), columns, rows, from, to),
        after.len() == cells.len(),
        forall|i: int|
            0 <= i < cells.len() && cells[i] is Blocked ==> #[trigger] after[i] is Blocked,
        forall|i: int|
            0 <= i < cells.len() && cells[i] is Bridged ==> #[trigger] after[i] is Bridged,
    ensures
        connects(lanes(after), columns, rows, from, to),
        gaps_between(lanes(after), columns, rows, from, to) == gaps_between(
            lanes(cells),
            columns,
            rows,
            from,
            to,
        ),
{
    let direction = choose|direction: int|
        reaches(lanes(cells), columns, rows, from, to, direction);
    lemma_ray_geometry(lanes(cells), columns, rows, from, direction);
    let gaps = ray_gaps(lanes(cells), columns, rows, from, direction);
    assert forall|g: int|
        0 <= g < gaps.len() implies lanes(after)[#[trigger] gaps[g] as int] is Empty by {
        assert(lanes(cells)[gaps[g] as int] is Empty);
        assert(cells[gaps[g] as int] is Blocked);
        assert(after[gaps[g] as int] is Blocked);
    }
    assert(lanes(cells)[to as int] is Bridged);
    assert(cells[to as int] is Bridged);
    assert(after[to as int] is Bridged);
    lemma_ray_transfer(lanes(cells), lanes(after), columns, rows, from, direction);
    assert(reaches(lanes(after), columns, rows, from, to, direction));
    lemma_gaps_between(lanes(cells), columns, rows, from, to, direction);
    lemma_gaps_between(lanes(after), columns, rows, from, to, direction);
}

/// A straight line over blocked cells is a straight line over empty cells
/// once the blocked cells are empty.
proof fn lemma_lane_opened(
    cells: Seq<Island>,
    islands: Seq<Island>,
    columns: usize,
    rows: usize,
    from: usize,
    to: usize,
)
    requires
        connects(lanes(cells), columns, rows, from, to),
        islands.len() == cells.len(),
        forall|i: int|
            0 <= i < cells.len() && cells[i] is Blocked ==> #[trigger] islands[i] is Empty,
        forall|i: int|
            0 <= i < cells.len() && cells[i] is Bridged ==> #[trigger] islands[i] is Bridged,
    ensures
        connects(islands, columns, rows, from, to),
        gaps_between(islands, columns, rows, from, to) == gaps_between(
            lanes(cells),
            columns,
            rows,
            from,
            to,
        ),
{
    let direction = choose|direction: int|
        reaches(lanes(cells), columns, rows, from, to, direction);
    lemma_ray_geometry(lanes(cells), columns, rows, from, direction);
    let gaps = ray_gaps(lanes(cells), columns, rows, from, direction);
    assert forall|g: int|
        0 <= g < gaps.len() implies islands[#[trigger] gaps[g] as int] is Empty by {
        assert(lanes(cells)[gaps[g] as int] is Empty);
        assert(cells[gaps[g] as int] is Blocked);
    }
    assert(lanes(cells)[to as int] is Bridged);
    assert(cells[to as int] is Bridged);
    lemma_ray_transfer(lanes(cells), islands, columns, rows, from, direction);
    assert(reaches(islands, columns, rows, from, to, direction));
    lemma_gaps_between(lanes(cells), columns, rows, from, to, direction);
    lemma_gaps_between(islands, columns, rows, from, to, direction);
}

/// The cells that the tour's bridge under `key` runs over.
pub open spec fn lane_gaps(
    cells: Seq<Island>,
    columns: usize,
    rows: usize,
    key: (usize, usize),
) -> Seq<usize> {
    gaps_between(lanes(cells), columns, rows, key.1, key.0)
}

/// The cells that a bridge of the tour runs over are blocked.
proof fn lemma_lane_blocked(cells: Seq<Island>, columns: usize, rows: usize, key: (usize, usize))
    requires
        connects(lanes(cells), columns, rows, key.1, key.0),
    ensures
        forall|g: int|
            0 <= g < lane_gaps(cells, columns, rows, key).len() ==> cells[#[trigger] lane_gaps(
                cells,
                columns,
                rows,
                key,
            )[g] as int] is Blocked,
{
    let direction = choose|direction: int|
        reaches(lanes(cells), columns, rows, key.1, key.0, direction);
    lemma_ray_geometry(lanes(cells), columns, rows, key.1, direction);
    lemma_gaps_between(lanes(cells), columns, rows, key.1, key.0, direction);
    let gaps = lane_gaps(cells, columns, rows, key);
    assert forall|g: int|
        0 <= g < gaps.len() implies cells[#[trigger] gaps[g] as int] is Blocked by {
        assert(lanes(cells)[gaps[g] as int] is Empty);
    }
}

/// What is drawn for one walk: its direction, the largest number of its
/// steps, and the number of spans of the bridge that it lays.
pub struct Walk {
    pub direction: int,
    pub length: nat,
    pub width: usize,
}

/// A tour in progress.
///
/// `puzzle` holds the cells as the tour has left them and the bridges that
/// it has laid, `current` is the island on which the tour stands, and
/// `placed` counts the islands.
pub struct Tour {
    pub puzzle: HexSystem,
    pub current: usize,
    pub placed: usize,
}

impl Tour {
    /// The tour's invariant.
    pub open spec fn wf(&self) -> bool {
        &&& self.wf_cells()
        &&& self.wf_lanes()
        &&& self.wf_links()
        &&& self.wf_apart()
    }

    /// What one attempt makes of the tour: `after` is the tour after a walk
    /// from the current island in `direction` for at most `length` steps
    /// with a bridge of width `width`, and `moved` tells whether the walk
    /// succeeded.
    pub open spec fn stepped(
        &self,
        after: Tour,
        direction: int,
        length: nat,
        width: usize,
        moved: bool,
    ) -> bool {
        let (end, marked) = walk(
            self.puzzle.islands@,
            self.puzzle.columns,
            self.puzzle.rows,
            self.current,
            direction,
            length,
            length > 1,
        );
        let key = bridge_key(self.current, end);
        &&& after.puzzle.columns == self.puzzle.columns
        &&& after.puzzle.rows == self.puzzle.rows
        &&& after.placed == count_islands(after.puzzle.islands@)
        &&& moved == (end != self.current && !(marked[end as int] is Blocked))
        &&& moved ==> {
            &&& after.current == end
            &&& after.puzzle.islands@ == marked.update(end as int, Island::Bridged(0))
            &&& after.puzzle.bridges@.dom() == self.puzzle.bridges@.dom().insert(key)
            &&& after.puzzle.bridges@[key].state == laid(state_at(self.puzzle.bridges@, key), width)
            &&& after.puzzle.bridges@[key].gap_indices@ == Seq::<usize>::empty()
            &&& forall|other: (usize, usize)|
                other != key && self.puzzle.bridges@.contains_key(other)
                    ==> #[trigger] after.puzzle.bridges@[other] == self.puzzle.bridges@[other]
        }
        &&& !moved ==> {
            &&& after.current == self.current
            &&& after.puzzle.islands@ == marked
            &&& after.puzzle.bridges@ == self.puzzle.bridges@
        }
    }

    /// The part of the invariant that speaks of single cells and bridges.
    pub open spec fn wf_cells(&self) -> bool {
        &&& valid_grid(self.puzzle.columns, self.puzzle.rows)
        &&& self.puzzle.islands@.len() == size_spec(
            self.puzzle.columns as int,
            self.puzzle.rows as int,
        )
        &&& self.puzzle.is_island(self.current as int)
        &&& self.placed == count_islands(self.puzzle.islands@)
    }

    /// Every bridge of the tour joins two islands in a straight line over blocked cells.
    pub open spec fn wf_lanes(&self) -> bool {
        forall|key: (usize, usize)| #[trigger]
            self.puzzle.bridges@.contains_key(key) ==> {
                &&& key.0 < key.1
                &&& self.puzzle.is_island(key.0 as int)
                &&& self.puzzle.is_island(key.1 as int)
                &&& self.puzzle.bridges@[key].state != BridgeState::Empty
                &&& connects(
                    lanes(self.puzzle.islands@),
                    self.puzzle.columns,
                    self.puzzle.rows,
                    key.1,
                    key.0,
                )
            }
    }

    /// The tour's bridges link every island to the island on which the tour stands.
    pub open spec fn wf_links(&self) -> bool {
        forall|i: int| #[trigger]
            is_island(self.puzzle.islands@, i) ==> linked(
                self.puzzle.states(),
                self.current,
                i as usize,
            )
    }

    /// No two bridges of the tour run over the same cell.
    pub open spec fn wf_apart(&self) -> bool {
        forall|first: (usize, usize), second: (usize, usize)|
            first != second && #[trigger] self.puzzle.bridges@.contains_key(first)
                && #[trigger] self.puzzle.bridges@.contains_key(second) ==> !gaps_intersect(
                lane_gaps(self.puzzle.islands@, self.puzzle.columns, self.puzzle.rows, first),
                lane_gaps(self.puzzle.islands@, self.puzzle.columns, self.puzzle.rows, second),
            )
    }

    /// What an attempt leaves of the cells: blocked cells stay blocked,
    /// islands stay islands, and the only new island is the end of a walk
    /// that succeeded.
    proof fn lemma_stepped_cells(
        &self,
        after: Tour,
        direction: int,
        length: nat,
        width: usize,
        moved: bool,
    )
        requires
            self.wf_cells(),
            0 <= direction < 6,
            length >= 1,
            self.stepped(after, direction, length, width, moved),
        ensures
            after.puzzle.islands@.len() == self.puzzle.islands@.len(),
            forall|i: int|
                0 <= i < self.puzzle.islands@.len() && self.puzzle.islands@[i] is Blocked
                    ==> #[trigger] after.puzzle.islands@[i] is Blocked,
            forall|i: int|
                0 <= i < self.puzzle.islands@.len() && self.puzzle.islands@[i] is Bridged
                    ==> #[trigger] after.puzzle.islands@[i] is Bridged,
            forall|i: int| #[trigger]
                is_island(after.puzzle.islands@, i) ==> is_island(self.puzzle.islands@, i) || (moved
                    && i == after.current),
            is_island(after.puzzle.islands@, after.current as int),
            moved ==> after.current < self.puzzle.islands@.len() && after.current != self.current
                && reaches(
                lanes(after.puzzle.islands@),
                self.puzzle.columns,
                self.puzzle.rows,
                self.current,
                after.current,
                direction,
            ),
            moved ==> forall|g: int|
                0 <= g < ray_gaps(
                    lanes(after.puzzle.islands@),
                    self.puzzle.columns,
                    self.puzzle.rows,
                    self.current,
                    direction,
                ).len() ==> self.puzzle.islands@[#[trigger] ray_gaps(
                    lanes(after.puzzle.islands@),
                    self.puzzle.columns,
                    self.puzzle.rows,
                    self.current,
                    direction,
                )[g] as int] is Empty,
    {
        let before = self.puzzle.islands@;
        let (end, marked) = walk(
            before,
            self.puzzle.columns,
            self.puzzle.rows,
            self.current,
            direction,
            length,
            length > 1,
        );
        lemma_walk(
            before,
            self.puzzle.columns,
            self.puzzle.rows,
            self.current,
            direction,
            length,
            length > 1,
        );
        let cells = after.puzzle.islands@;
        assert forall|i: int|
            0 <= i < before.len() && before[i] is Blocked
            implies #[trigger] cells[i] is Blocked by {
            assert(marked[i] == before[i]);
        }
        assert forall|i: int|
            0 <= i < before.len() && before[i] is Bridged
            implies #[trigger] cells[i] is Bridged by {
            assert(marked[i] == before[i]);
        }
        assert forall|i: int| #[trigger] is_island(cells, i) implies is_island(before, i) || (moved
            && i == after.current) by {
            if !(moved && i == after.current) {
                assert(cells[i] == marked[i]);
                if before[i] is Empty {
                    assert(!(marked[i] is Bridged));
                } else {
                    assert(marked[i] == before[i]);
                }
            }
        }
    }

    /// An attempt keeps every bridge of the tour a straight line over blocked cells.
    proof fn lemma_stepped_lanes(
        &self,
        after: Tour,
        direction: int,
        length: nat,
        width: usize,
        moved: bool,
    )
        requires
            self.wf_cells(),
            self.wf_lanes(),
            0 <= direction < 6,
            length >= 1,
            1 <= width <= 2,
            self.stepped(after, direction, length, width, moved),
        ensures
            after.wf_cells(),
            after.wf_lanes(),
    {
        let columns = self.puzzle.columns;
        let rows = self.puzzle.rows;
        let before = self.puzzle.islands@;
        let cells = after.puzzle.islands@;
        let key = bridge_key(self.current, after.current);
        let (end, marked) = walk(
            before,
            columns,
            rows,
            self.current,
            direction,
            length,
            length > 1,
        );
        self.lemma_stepped_cells(after, direction, length, width, moved);
        assert(self.puzzle.is_island(self.current as int));
        assert(cells[self.current as int] is Bridged);
        if moved {
            assert(after.current == end);
            assert(after.puzzle.bridges@.contains_key(key));
            assert(after.puzzle.bridges@[key].state != BridgeState::Empty);
            if self.current < after.current {
                assert(lanes(cells)[self.current as int] is Bridged);
                lemma_ray_symmetric(lanes(cells), columns, rows, self.current, direction);
                assert(reaches(
                    lanes(cells),
                    columns,
                    rows,
                    after.current,
                    self.current,
                    opposite(direction),
                ));
            }
            assert(connects(lanes(cells), columns, rows, key.1, key.0));
        }
        assert forall|other: (usize, usize)| #[trigger]
            after.puzzle.bridges@.contains_key(other) implies {
            &&& other.0 < other.1
            &&& after.puzzle.is_island(other.0 as int)
            &&& after.puzzle.is_island(other.1 as int)
            &&& after.puzzle.bridges@[other].state != BridgeState::Empty
            &&& connects(lanes(cells), columns, rows, other.1, other.0)
        } by {
            if moved && other == key {
                assert(after.puzzle.is_island(self.current as int));
                assert(after.puzzle.is_island(after.current as int));
            } else {
                if moved {
                    assert(self.puzzle.bridges@.dom().insert(key).contains(other));
                }
                assert(self.puzzle.bridges@.contains_key(other));
                assert(self.puzzle.is_island(other.0 as int));
                assert(self.puzzle.is_island(other.1 as int));
                assert(after.puzzle.bridges@[other] == self.puzzle.bridges@[other]);
                lemma_lane_kept(before, cells, columns, rows, other.1, other.0);
            }
        }
    }

    /// An attempt keeps every island linked to the island on which the tour stands.
    proof fn lemma_stepped_links(
        &self,
        after: Tour,
        direction: int,
        length: nat,
        width: usize,
        moved: bool,
    )
        requires
            self.wf_cells(),
            self.wf_lanes(),
            self.wf_links(),
            0 <= direction < 6,
            length >= 1,
            1 <= width <= 2,
            self.stepped(after, direction, length, width, moved),
        ensures
            after.wf_links(),
    {
        let before = self.puzzle.islands@;
        let cells = after.puzzle.islands@;
        let links = self.puzzle.states();
        let states = after.puzzle.states();
        let start = self.current;
        let end = after.current;
        self.lemma_stepped_cells(after, direction, length, width, moved);
        if moved {
            assert forall|x: usize, y: usize| #[trigger] joined(links, x, y) implies joined(
                states,
                x,
                y,
            ) by {
                let other = bridge_key(x, y);
                assert(self.puzzle.bridges@.contains_key(other));
                assert(self.puzzle.bridges@[other].state != BridgeState::Empty);
                if other != bridge_key(start, end) {
                    assert(after.puzzle.bridges@[other] == self.puzzle.bridges@[other]);
                }
            }
            assert(joined(states, start, end));
            lemma_joined_symmetric(states, start, end);
            lemma_linked_reflexive(states, end);
            lemma_linked_step(states, end, end, start);
            assert forall|i: int| #[trigger] is_island(cells, i) implies linked(
                states,
                end,
                i as usize,
            ) by {
                if i != end {
                    assert(is_island(before, i));
                    lemma_linked_monotonic(links, states, start, i as usize);
                    lemma_linked_transitive(states, end, start, i as usize);
                }
            }
        } else {
            assert(states =~= links);
            assert forall|i: int| #[trigger] is_island(cells, i) implies linked(
                states,
                end,
                i as usize,
            ) by {
                assert(is_island(before, i));
            }
        }
    }

    /// An attempt keeps the bridges of the tour apart: the bridge that it
    /// lays runs over cells that were empty, all others over cells that
    /// were blocked before.
    proof fn lemma_stepped_apart(
        &self,
        after: Tour,
        direction: int,
        length: nat,
        width: usize,
        moved: bool,
    )
        requires
            self.wf_cells(),
            self.wf_lanes(),
            self.wf_apart(),
            0 <= direction < 6,
            length >= 1,
            1 <= width <= 2,
            self.stepped(after, direction, length, width, moved),
        ensures
            after.wf_apart(),
    {
        let columns = self.puzzle.columns;
        let rows = self.puzzle.rows;
        let before = self.puzzle.islands@;
        let cells = after.puzzle.islands@;
        let start = self.current;
        let end = after.current;
        let key = bridge_key(start, end);
        self.lemma_stepped_cells(after, direction, length, width, moved);
        if moved && !self.puzzle.bridges@.contains_key(key) {
            let fresh = lane_gaps(cells, columns, rows, key);
            let walked = ray_gaps(lanes(cells), columns, rows, start, direction);
            if start < end {
                assert(lanes(cells)[start as int] is Bridged);
                lemma_ray_symmetric(lanes(cells), columns, rows, start, direction);
                lemma_gaps_between(lanes(cells), columns, rows, end, start, opposite(direction));
                assert(fresh == walked.reverse());
                assert forall|g: int|
                    0 <= g < fresh.len() implies before[#[trigger] fresh[g] as int] is Empty by {
                    assert(fresh[g] == walked[walked.len() - 1 - g]);
                }
            } else {
                lemma_gaps_between(lanes(cells), columns, rows, start, end, direction);
                assert(fresh == walked);
            }
            assert forall|other: (usize, usize)|
                other != key && #[trigger] after.puzzle.bridges@.contains_key(
                    other,
                ) implies !gaps_intersect(lane_gaps(cells, columns, rows, other), fresh)
                && !gaps_intersect(fresh, lane_gaps(cells, columns, rows, other)) by {
                assert(self.puzzle.bridges@.contains_key(other));
                lemma_lane_kept(before, cells, columns, rows, other.1, other.0);
                lemma_lane_blocked(before, columns, rows, other);
                let theirs = lane_gaps(cells, columns, rows, other);
                if gaps_intersect(theirs, fresh) {
                    let (i, j) = choose|i: int, j: int|
                        0 <= i < theirs.len() && 0 <= j < fresh.len() && theirs[i] == fresh[j];
                    assert(before[theirs[i] as int] is Blocked);
                    assert(before[fresh[j] as int] is Empty);
                }
                if gaps_intersect(fresh, theirs) {
                    let (i, j) = choose|i: int, j: int|
                        0 <= i < fresh.len() && 0 <= j < theirs.len() && fresh[i] == theirs[j];
                    assert(before[theirs[j] as int] is Blocked);
                    assert(before[fresh[i] as int] is Empty);
                }
            }
        }
        assert forall|first: (usize, usize), second: (usize, usize)|
            first != second && #[trigger] after.puzzle.bridges@.contains_key(first)
                && #[trigger] after.puzzle.bridges@.contains_key(second) implies !gaps_intersect(
            lane_gaps(cells, columns, rows, first),
            lane_gaps(cells, columns, rows, second),
        ) by {
            if self.puzzle.bridges@.contains_key(first) && self.puzzle.bridges@.contains_key(
                second,
            ) {
                lemma_lane_kept(before, cells, columns, rows, first.1, first.0);
                lemma_lane_kept(before, cells, columns, rows, second.1, second.0);
            } else {
                assert(first == key || second == key);
            }
        }
    }

    /// What the end of the tour makes of it: `puzzle` has the tour's grid,
    /// an island with the spans of the tour's bridges as its target
    /// wherever the tour has one, empty cells elsewhere, and all the bridges
    /// that can be placed between these islands, each without spans.
    pub open spec fn finished(&self, puzzle: HexSystem) -> bool {
        &&& puzzle.columns == self.puzzle.columns
        &&& puzzle.rows == self.puzzle.rows
        &&& puzzle.islands@.len() == self.puzzle.islands@.len()
        &&& forall|i: int|
            0 <= i < puzzle.islands@.len() ==> (#[trigger] puzzle.islands@[i] is Bridged)
                == self.puzzle.islands@[i] is Bridged
        &&& forall|i: int|
            0 <= i < puzzle.islands@.len() && !(self.puzzle.islands@[i] is Bridged)
                ==> #[trigger] puzzle.islands@[i] is Empty
        &&& forall|i: int|
            0 <= i < puzzle.islands@.len() && self.puzzle.islands@[i] is Bridged ==> (
            #[trigger] puzzle.islands@[i])->Bridged_0 == self.puzzle.actual_bridges_spec(
                i as usize,
            )
        &&& is_candidate_map(puzzle.islands@, puzzle.columns, puzzle.rows, puzzle.bridges@)
    }

    /// Whether two tours are in the same state: on the same grid, with the
    /// same cells, on the same island, and with the same bridges in the
    /// same states.
    pub open spec fn alike(&self, other: Tour) -> bool {
        &&& self.puzzle.columns == other.puzzle.columns
        &&& self.puzzle.rows == other.puzzle.rows
        &&& self.puzzle.islands@ == other.puzzle.islands@
        &&& self.puzzle.states() == other.puzzle.states()
        &&& self.current == other.current
        &&& self.placed == other.placed
    }

    /// Whether `after` comes from this tour by the walks `walks`, one after the other.
    pub open spec fn followed(&self, walks: Seq<Walk>, after: Tour) -> bool
        decreases walks.len(),
    {
        if walks.len() == 0 {
            self.alike(after)
        } else {
            exists|before: Tour, moved: bool|
                {
                    &&& self.followed(walks.drop_last(), before)
                    &&& #[trigger] before.stepped(
                        after,
                        walks.last().direction,
                        walks.last().length,
                        walks.last().width,
                        moved,
                    )
                }
        }
    }

    /// A walk has one outcome: the same walk from tours in the same state
    /// ends alike, and leaves tours in the same state.
    pub proof fn lemma_step_deterministic(
        &self,
        other: Tour,
        first: Tour,
        second: Tour,
        direction: int,
        length: nat,
        width: usize,
        first_moved: bool,
        second_moved: bool,
    )
        requires
            self.alike(other),
            self.stepped(first, direction, length, width, first_moved),
            other.stepped(second, direction, length, width, second_moved),
        ensures
            first_moved == second_moved,
            first.alike(second),
    {
        let key = bridge_key(self.current, first.current);
        assert forall|any: (usize, usize)|
            self.puzzle.bridges@.contains_key(any) == other.puzzle.bridges@.contains_key(any) by {
            assert(self.puzzle.states().contains_key(any) == other.puzzle.states().contains_key(
                any,
            ));
        }
        assert(first.puzzle.states() =~= second.puzzle.states()) by {
            assert forall|any: (usize, usize)|
                first.puzzle.bridges@.contains_key(any) == second.puzzle.bridges@.contains_key(
                    any,
                ) by {
                if first_moved {
                    assert(first.puzzle.bridges@.dom().contains(any)
                        == self.puzzle.bridges@.dom().insert(key).contains(any));
                    assert(second.puzzle.bridges@.dom().contains(any)
                        == other.puzzle.bridges@.dom().insert(key).contains(any));
                }
            }
            assert forall|any: (usize, usize)| #[trigger]
                first.puzzle.bridges@.contains_key(any) implies first.puzzle.bridges@[any].state
                == second.puzzle.bridges@[any].state by {
                if first_moved && any == key {
                } else {
                    if first_moved {
                        assert(self.puzzle.bridges@.dom().insert(key).contains(any));
                    }
                    assert(self.puzzle.bridges@.contains_key(any));
                    assert(first.puzzle.bridges@[any] == self.puzzle.bridges@[any]);
                    assert(second.puzzle.bridges@[any] == other.puzzle.bridges@[any]);
                    assert(self.puzzle.states()[any] == other.puzzle.states()[any]);
                }
            }
        }
    }

    /// The end of a tour has one outcome: the puzzles that come from tours
    /// in the same state have the same islands and the same bridges.
    pub proof fn lemma_finish_deterministic(&self, other: Tour, first: HexSystem, second: HexSystem)
        requires
            self.alike(other),
            self.finished(first),
            other.finished(second),
        ensures
            first.columns == second.columns,
            first.rows == second.rows,
            first.islands@ == second.islands@,
            first.bridges@.dom() == second.bridges@.dom(),
            forall|key: (usize, usize)| #[trigger]
                first.bridges@.contains_key(key) ==> first.bridges@[key].state
                    == second.bridges@[key].state && first.bridges@[key].gap_indices@
                    == second.bridges@[key].gap_indices@,
    {
        assert(first.islands@ =~= second.islands@) by {
            assert forall|i: int| 0 <= i < first.islands@.len() implies first.islands@[i]
                == second.islands@[i] by {
                if self.puzzle.islands@[i] is Bridged {
                    assert(first.islands@[i] is Bridged && second.islands@[i] is Bridged);
                    assert(first.islands@[i]->Bridged_0 == second.islands@[i]->Bridged_0);
                } else {
                    assert(first.islands@[i] is Empty && second.islands@[i] is Empty);
                }
            }
        }
        crate::bridges::lemma_candidates_unique(
            first.islands@,
            first.columns,
            first.rows,
            first.bridges@,
            second.bridges@,
        );
    }

    /// Generation is a function of what is drawn: tours that start in the
    /// same state and take the same walks end in the same state.
    pub proof fn lemma_tour_deterministic(
        &self,
        other: Tour,
        walks: Seq<Walk>,
        first: Tour,
        second: Tour,
    )
        requires
            self.alike(other),
            self.followed(walks, first),
            other.followed(walks, second),
        ensures
            first.alike(second),
        decreases walks.len(),
    {
        if walks.len() > 0 {
            let (one, one_moved) = choose|before: Tour, moved: bool|
                {
                    &&& self.followed(walks.drop_last(), before)
                    &&& #[trigger] before.stepped(
                        first,
                        walks.last().direction,
                        walks.last().length,
                        walks.last().width,
                        moved,
                    )
                };
            let (two, two_moved) = choose|before: Tour, moved: bool|
                {
                    &&& other.followed(walks.drop_last(), before)
                    &&& #[trigger] before.stepped(
                        second,
                        walks.last().direction,
                        walks.last().length,
                        walks.last().width,
                        moved,
                    )
                };
            self.lemma_tour_deterministic(other, walks.drop_last(), one, two);
            one.lemma_step_deterministic(
                two,
                first,
                second,
                walks.last().direction,
                walks.last().length,
                walks.last().width,
                one_moved,
                two_moved,
            );
        }
    }

    /// Whether this is a tour that has just started on some cell of the grid.
    pub open spec fn fresh(&self, columns: usize, rows: usize) -> bool {
        &&& self.puzzle.columns == columns
        &&& self.puzzle.rows == rows
        &&& self.current < size_spec(columns as int, rows as int)
        &&& self.placed == 1
        &&& self.puzzle.bridges@ == Map::<(usize, usize), HexBridge>::empty()
        &&& self.puzzle.islands@ == Seq::new(
            size_spec(columns as int, rows as int) as nat,
            |i: int| Island::Empty,
        ).update(self.current as int, Island::Bridged(0))
    }

    /// Whether this tour comes from a fresh tour by `walks` walks of which
    /// `failed` have failed, each in one of the six directions, of one to
    /// `longest` steps and one or two spans wide, and each begun while fewer
    /// than `asked` islands were placed and fewer than `ATTEMPTS` walks had
    /// failed.
    pub open spec fn toured(
        &self,
        columns: usize,
        rows: usize,
        longest: usize,
        asked: usize,
        walks: nat,
        failed: nat,
    ) -> bool
        decreases walks,
    {
        if walks == 0 {
            self.fresh(columns, rows) && failed == 0
        } else {
            exists|before: Tour, direction: int, length: nat, width: usize, moved: bool|
                {
                    &&& before.toured(
                        columns,
                        rows,
                        longest,
                        asked,
                        (walks - 1) as nat,
                        if moved {
                            failed
                        } else {
                            (failed - 1) as nat
                        },
                    )
                    &&& before.placed < asked
                    &&& failed <= ATTEMPTS
                    &&& moved || failed >= 1
                    &&& 0 <= direction < 6
                    &&& 1 <= length <= longest
                    &&& 1 <= width <= 2
                    &&& #[trigger] before.stepped(*self, direction, length, width, moved)
                }
        }
    }

    /// Start a tour on cell `start` of an empty grid.
    pub fn new(columns: usize, rows: usize, start: usize) -> (tour: Tour)
        requires
            valid_grid(columns, rows),
            start < size_spec(columns as int, rows as int),
        ensures
            tour.wf(),
            tour.fresh(columns, rows),
            tour.current == start,
    {
        let size = HexSystem::get_size(columns, rows);
        let mut cells: Vec<Island> = Vec::new();
        while cells.len() < size
            invariant
                cells@.len() <= size,
                forall|i: int| 0 <= i < cells@.len() ==> cells@[i] == Island::Empty,
            decreases size - cells@.len(),
        {
            cells.push(Island::Empty);
        }
        proof {
            lemma_count_none(cells@);
            lemma_count_update(cells@, start as int, Island::Bridged(0));
            assert(cells@ =~= Seq::new(size as nat, |i: int| Island::Empty));
        }
        let ghost empty = cells@;
        cells.set(start, Island::Bridged(0));
        let tour = Tour {
            puzzle: HexSystem { columns, rows, islands: cells, bridges: BTreeMap::new() },
            current: start,
            placed: 1,
        };
        proof {
            assert forall|i: int| #[trigger] is_island(tour.puzzle.islands@, i) implies linked(
                tour.puzzle.states(),
                start,
                i as usize,
            ) by {
                assert(empty[i] is Empty || i == start);
                lemma_linked_reflexive(tour.puzzle.states(), start);
            }
        }
        tour
    }

    /// Walk from the current island in `direction` for at most `length`
    /// steps, and lay a bridge of width `width` to the cell where the walk
    /// ends.
    ///
    /// The walk keeps its direction until the grid ends, until `length` is
    /// reached, or until it steps on a cell that is not empty. A walk of
    /// more than one step blocks the empty cells that it passes. Where
    /// the walk ends on another cell than it left from, and that cell is
    /// not blocked, the attempt succeeds: a bridge is laid (a bridge that
    /// lay there already becomes `Full`), the cell becomes an island and
    /// the tour goes on from there. Else the attempt fails and the tour
    /// stays where it is.
    pub fn attempt(&mut self, direction: usize, length: usize, width: usize) -> (moved: bool)
        requires
            old(self).wf(),
            direction < 6,
            1 <= length,
            1 <= width <= 2,
        ensures
            final(self).wf(),
            old(self).stepped(*final(self), direction as int, length as nat, width, moved),
            old(self).placed <= final(self).placed <= old(self).placed + 1,
    {
        let columns = self.puzzle.columns;
        let rows = self.puzzle.rows;
        let start = self.current;
        let mark = length > 1;
        let mut remaining = length;
        let mut next = start;
        let mut end = start;
        let mut walking = true;
        while walking
            invariant
                columns == old(self).puzzle.columns,
                rows == old(self).puzzle.rows,
                self.puzzle.columns == columns,
                self.puzzle.rows == rows,
                self.puzzle.bridges == old(self).puzzle.bridges,
                self.current == start,
                start == old(self).current,
                self.placed == old(self).placed,
                direction < 6,
                mark == (length > 1),
                valid_grid(columns, rows),
                self.puzzle.islands@.len() == size_spec(columns as int, rows as int),
                next < self.puzzle.islands@.len(),
                end < self.puzzle.islands@.len(),
                walking ==> remaining >= 1,
                self.placed == count_islands(self.puzzle.islands@),
                forall|i: int|
                    0 <= i < self.puzzle.islands@.len() && old(self).puzzle.islands@[i] is Bridged
                        ==> self.puzzle.islands@[i] is Bridged,
                walking ==> walk(
                    old(self).puzzle.islands@,
                    columns,
                    rows,
                    start,
                    direction as int,
                    length as nat,
                    mark,
                ) == walk(
                    self.puzzle.islands@,
                    columns,
                    rows,
                    next,
                    direction as int,
                    remaining as nat,
                    mark,
                ),
                !walking ==> walk(
                    old(self).puzzle.islands@,
                    columns,
                    rows,
                    start,
                    direction as int,
                    length as nat,
                    mark,
                ) == (end, self.puzzle.islands@),
            decreases
                    if walking {
                        remaining + 1
                    } else {
                        0
                    },
        {
            let connections = HexSystem::get_connected_indices(columns, rows, next);
            match connections[direction] {
                None => {
                    end = next;
                    walking = false;
                },
                Some(step) => {
                    proof {
                        lemma_neighbor_geometry(columns, rows, next, direction as int);
                    }
                    if remaining == 1 || !matches!(self.puzzle.islands[step], Island::Empty) {
                        end = step;
                        walking = false;
                    } else {
                        if mark {
                            proof {
                                lemma_count_update(
                                    self.puzzle.islands@,
                                    step as int,
                                    Island::Blocked,
                                );
                            }
                            self.puzzle.islands.set(step, Island::Blocked);
                        }
                        next = step;
                        remaining = remaining - 1;
                    }
                },
            }
        }
        let ghost before = old(self).puzzle.islands@;
        proof {
            lemma_walk(before, columns, rows, start, direction as int, length as nat, mark);
        }
        let moved = end != start && !matches!(self.puzzle.islands[end], Island::Blocked);
        if moved {
            let key = HexSystem::key_of(start, end);
            let state = match self.puzzle.bridges.get(&key) {
                Some(_) => BridgeState::Full,
                None => if width == 1 {
                    BridgeState::Partial
                } else {
                    BridgeState::Full
                },
            };
            self.puzzle.bridges.insert(key, HexBridge { state, gap_indices: Vec::new() });
            proof {
                lemma_count_update(self.puzzle.islands@, end as int, Island::Bridged(0));
                lemma_count_bound(self.puzzle.islands@.update(end as int, Island::Bridged(0)));
            }
            if !matches!(self.puzzle.islands[end], Island::Bridged(_)) {
                self.placed = self.placed + 1;
            }
            self.puzzle.islands.set(end, Island::Bridged(0));
            self.current = end;
        }
        proof {
            assert(old(self).stepped(*self, direction as int, length as nat, width, moved));
            old(self).lemma_stepped_lanes(*self, direction as int, length as nat, width, moved);
            old(self).lemma_stepped_links(*self, direction as int, length as nat, width, moved);
            old(self).lemma_stepped_apart(*self, direction as int, length as nat, width, moved);
        }
        moved
    }

    /// End the tour and hand out the puzzle.
    ///
    /// Every island gets as its target the spans of the tour's bridges
    /// that touch it, and the cells that the tour blocked are empty again.
    /// The tour's bridges are replaced by all the bridges that can be
    /// placed between the islands, each without spans.
    pub fn finish(self) -> (puzzle: HexSystem)
        requires
            self.wf(),
        ensures
            self.finished(puzzle),
            puzzle.wf(),
            puzzle.uncrossed(),
            forall|i: int| #[trigger] puzzle.is_island(i) ==> puzzle.islands@[i]->Bridged_0 <= 12,
            count_islands(puzzle.islands@) == self.placed,
            forall|key: (usize, usize)|
                self.puzzle.bridges@.contains_key(key) ==> puzzle.bridges@.contains_key(key),
            puzzle.solvable(),
    {
        let columns = self.puzzle.columns;
        let rows = self.puzzle.rows;
        let mut islands: Vec<Island> = Vec::new();
        let mut index: usize = 0;
        while index < self.puzzle.islands.len()
            invariant
                index <= self.puzzle.islands@.len(),
                2 * self.puzzle.islands@.len() <= usize::MAX,
                islands@.len() == index,
                count_islands(islands@) == count_islands(self.puzzle.islands@.take(index as int)),
                forall|i: int|
                    0 <= i < index ==> (#[trigger] islands@[i] is Bridged)
                        == self.puzzle.islands@[i] is Bridged,
                forall|i: int|
                    0 <= i < index && !(self.puzzle.islands@[i] is Bridged)
                        ==> #[trigger] islands@[i] is Empty,
                forall|i: int|
                    0 <= i < index && self.puzzle.islands@[i] is Bridged
                        ==> (#[trigger] islands@[i])->Bridged_0
                        == self.puzzle.actual_bridges_spec(i as usize),
            decreases self.puzzle.islands@.len() - index,
        {
            let ghost shorter = islands@;
            let cell = match self.puzzle.islands[index] {
                Island::Bridged(_) => Island::Bridged(self.puzzle.get_actual_bridges(index)),
                _ => Island::Empty,
            };
            islands.push(cell);
            proof {
                assert(islands@.drop_last() =~= shorter);
                assert(self.puzzle.islands@.take(index + 1).drop_last()
                    =~= self.puzzle.islands@.take(index as int));
            }
            index += 1;
        }
        proof {
            assert(self.puzzle.islands@.take(index as int) =~= self.puzzle.islands@);
        }
        let bridges = HexSystem::fill_bridges(islands.as_slice(), columns, rows);
        let puzzle = HexSystem { columns, rows, islands, bridges };
        proof {
            crate::bridges::lemma_candidates_fit(puzzle.islands@, columns, rows, puzzle.bridges@);
            self.lemma_solution(puzzle.islands@, puzzle.bridges@);
        }
        puzzle
    }

    /// The skeleton solves the puzzle: with the tour's bridges in place and
    /// all other bridges without spans, every island has its target and
    /// all islands form one network.
    proof fn lemma_solution(&self, islands: Seq<Island>, bridges: Map<(usize, usize), HexBridge>)
        requires
            self.wf(),
            islands.len() == self.puzzle.islands@.len(),
            forall|i: int|
                0 <= i < islands.len() ==> (#[trigger] islands[i] is Bridged)
                    == self.puzzle.islands@[i] is Bridged,
            forall|i: int|
                0 <= i < islands.len() && !(self.puzzle.islands@[i] is Bridged)
                    ==> #[trigger] islands[i] is Empty,
            forall|i: int|
                0 <= i < islands.len() && self.puzzle.islands@[i] is Bridged ==> (
                #[trigger] islands[i])->Bridged_0 == self.puzzle.actual_bridges_spec(i as usize),
            is_candidate_map(islands, self.puzzle.columns, self.puzzle.rows, bridges),
        ensures
            forall|key: (usize, usize)|
                self.puzzle.bridges@.contains_key(key) ==> bridges.contains_key(key),
            solvable(islands, bridges),
            forall|i: int| #[trigger] is_island(islands, i) ==> islands[i]->Bridged_0 <= 12,
    {
        let columns = self.puzzle.columns;
        let rows = self.puzzle.rows;
        let cells = self.puzzle.islands@;
        let links = self.puzzle.states();
        assert forall|key: (usize, usize)|
            self.puzzle.bridges@.contains_key(key) implies bridges.contains_key(key) by {
            assert(self.puzzle.is_island(key.1 as int));
            lemma_lane_opened(cells, islands, columns, rows, key.1, key.0);
            assert(is_candidate(islands, columns, rows, key));
        }
        let states = Map::new(
            |key: (usize, usize)| bridges.contains_key(key),
            |key: (usize, usize)|
                if links.contains_key(key) {
                    links[key]
                } else {
                    BridgeState::Empty
                },
        );
        assert(states.dom() =~= bridges.dom());
        assert forall|x: usize, y: usize| span_in(states, x, y) == span_in(links, x, y) by {
            let key = bridge_key(x, y);
            if links.contains_key(key) {
                assert(self.puzzle.bridges@.contains_key(key));
                assert(bridges.contains_key(key));
            }
        }
        assert forall|i: int| #[trigger] is_island(islands, i) implies meets_target(
            islands,
            states,
            i,
        ) by {
            lemma_spans_below_equal(states, links, i as usize, islands.len());
        }
        assert forall|i: usize| is_island(islands, i as int) implies linked(
            states,
            self.current,
            i,
        ) by {
            assert(is_island(cells, i as int));
            assert forall|x: usize, y: usize| #[trigger] joined(links, x, y) implies joined(
                states,
                x,
                y,
            ) by {
                assert(span_in(states, x, y) == span_in(links, x, y));
            }
            lemma_linked_monotonic(links, states, self.current, i);
        }
        lemma_star_connected(islands, states, self.current);
        assert(solved(islands, states));
        assert forall|first: (usize, usize), second: (usize, usize)|
            first != second && #[trigger] states.contains_key(first) && states[first]
                != BridgeState::Empty && #[trigger] states.contains_key(second) && states[second]
                != BridgeState::Empty implies !gaps_intersect(
            bridges[first].gap_indices@,
            bridges[second].gap_indices@,
        ) by {
            assert(self.puzzle.bridges@.contains_key(first));
            assert(self.puzzle.bridges@.contains_key(second));
            lemma_lane_opened(cells, islands, columns, rows, first.1, first.0);
            lemma_lane_opened(cells, islands, columns, rows, second.1, second.0);
        }
        assert(crossing_free(bridges, states));
        assert forall|i: int| #[trigger] is_island(islands, i) implies islands[i]->Bridged_0
            <= 12 by {
            assert(meets_target(islands, states, i));
            lemma_at_most_twelve_spans(islands, columns, rows, states, i as usize);
        }
    }
}

impl HexSystem {
    /// Generate a puzzle.
    ///
    /// A generator seeded with `params.seed` picks the cell on which the
    /// tour starts and, for every walk, a direction, a length of up to
    /// `params.max_bridge_length` steps and a width of one or two spans.
    /// The tour ends when it has placed `params.num_islands` islands or
    /// when `ATTEMPTS` walks have failed; the puzzle then has fewer islands
    /// than were asked for. A walk between two islands that are placed
    /// does not fail, so the tour also ends when the number of its walks
    /// no longer fits a `usize`: generation ends in any case.
    ///
    /// The puzzle that comes back has a solution in which no bridges cross:
    /// the bridges that the tour has laid.
    pub fn generate_new(params: GameParameters) -> (puzzle: HexSystem)
        requires
            valid_grid(params.max_columns, params.max_rows),
        ensures
            puzzle.wf(),
            puzzle.columns == params.max_columns,
            puzzle.rows == params.max_rows,
            1 <= count_islands(puzzle.islands@),
            count_islands(puzzle.islands@) <= params.num_islands || count_islands(puzzle.islands@)
                == 1,
            is_candidate_map(puzzle.islands@, puzzle.columns, puzzle.rows, puzzle.bridges@),
            puzzle.uncrossed(),
            puzzle.solvable(),
            forall|i: int| #[trigger] puzzle.is_island(i) ==> puzzle.islands@[i]->Bridged_0 <= 12,
            exists|tour: Tour, walks: nat, failed: nat|
                {
                    &&& #[trigger] tour.toured(
                        params.max_columns,
                        params.max_rows,
                        longest_walk(params.max_bridge_length),
                        params.num_islands,
                        walks,
                        failed,
                    )
                    &&& tour.finished(puzzle)
                    &&& tour.placed >= params.num_islands || failed == ATTEMPTS || walks
                        == usize::MAX
                },
    {
        let size = HexSystem::get_size(params.max_columns, params.max_rows);
        proof {
            assert(params.max_columns * params.max_rows >= 1) by (nonlinear_arith)
                requires
                    params.max_columns >= 1,
                    params.max_rows >= 1,
            ;
        }
        let longest = if params.max_bridge_length == 0 {
            1
        } else {
            params.max_bridge_length
        };
        let mut rng = seeded(params.seed);
        let start = draw(&mut rng, 0, size - 1);
        let mut tour = Tour::new(params.max_columns, params.max_rows, start);
        let mut limit = ATTEMPTS;
        let mut walks: usize = 0;
        while tour.placed < params.num_islands && limit > 0 && walks < usize::MAX
            invariant
                tour.wf(),
                tour.puzzle.columns == params.max_columns,
                tour.puzzle.rows == params.max_rows,
                limit <= ATTEMPTS,
                tour.toured(
                    params.max_columns,
                    params.max_rows,
                    longest,
                    params.num_islands,
                    walks as nat,
                    (ATTEMPTS - limit) as nat,
                ),
                longest == longest_walk(params.max_bridge_length),
                1 <= tour.placed,
                walks == 0 || tour.placed <= params.num_islands,
            decreases usize::MAX - walks,
        {
            let direction = draw(&mut rng, 0, 5);
            let length = draw(&mut rng, 1, longest);
            let width = draw(&mut rng, 1, 2);
            let ghost before = tour;
            let moved = tour.attempt(direction, length, width);
            if !moved {
                limit = limit - 1;
            }
            walks = walks + 1;
            proof {
                assert(before.stepped(tour, direction as int, length as nat, width, moved));
            }
        }
        let ghost last = tour;
        let puzzle = tour.finish();
        proof {
            assert(last.toured(
                params.max_columns,
                params.max_rows,
                longest_walk(params.max_bridge_length),
                params.num_islands,
                walks as nat,
                (ATTEMPTS - limit) as nat,
            ));
        }
        puzzle
    }
}

/// The largest number of steps of a walk where bridges of up to `max`
/// steps are asked for: at least one.
pub open spec fn longest_walk(max: usize) -> usize {
    if max == 0 {
        1
    } else {
        max
    }
}

} // verus!
