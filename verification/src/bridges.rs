//! Derivation of the placeable bridges from the islands.
//!
//! A bridge can be placed between two islands that lie on one straight
//! line of the grid with nothing but empty cells between them. The empty
//! cells between them are the bridge's gap cells.
use crate::grid::{
    index_step, lemma_neighbor_geometry, lemma_neighbor_symmetric, neighbor, opposite, row_of,
    row_step, size_spec, valid_grid,
};
use crate::hex::{
    bridge_key, lemma_spans_at_most, spans_below, BridgeState, HexBridge, HexSystem, Island,
};
use std::collections::BTreeMap;
use vstd::prelude::*;
use vstd::set_lib::{lemma_int_range, lemma_map_size_bound, set_int_range};

verus! {

/// How far a walk from `from` in `direction` can still go in the linear sequence.
pub open spec fn walk_room(columns: usize, rows: usize, from: usize, direction: int) -> int {
    if index_step(columns as int, direction) > 0 {
        size_spec(columns as int, rows as int) - from
    } else {
        from as int
    }
}

/// The walk from `from` in `direction` over empty cells: the island that
/// it meets first, and the empty cells passed on the way, in the order of
/// the walk. `None` where the walk leaves the grid before it meets an island.
pub open spec fn ray(
    islands: Seq<Island>,
    columns: usize,
    rows: usize,
    from: usize,
    direction: int,
) -> Option<(usize, Seq<usize>)>
    decreases walk_room(columns, rows, from, direction),
    via ray_decreases
{
    match neighbor(columns, rows, from, direction) {
        None => None,
        Some(next) => {
            if next >= islands.len() {
                None
            } else {
                match islands[next as int] {
                    Island::Bridged(_) => Some((next, Seq::<usize>::empty())),
                    Island::Blocked => None,
                    Island::Empty => match ray(islands, columns, rows, next, direction) {
                        None => None,
                        Some((end, gaps)) => Some((end, seq![next] + gaps)),
                    },
                }
            }
        },
    }
}

#[via_fn]
proof fn ray_decreases(
    islands: Seq<Island>,
    columns: usize,
    rows: usize,
    from: usize,
    direction: int,
) {
    if neighbor(columns, rows, from, direction) is Some {
        lemma_neighbor_geometry(columns, rows, from, direction);
    }
}

/// The island that the walk from `from` in `direction` meets, where it meets one.
pub open spec fn ray_end(
    islands: Seq<Island>,
    columns: usize,
    rows: usize,
    from: usize,
    direction: int,
) -> usize {
    match ray(islands, columns, rows, from, direction) {
        Some((end, _)) => end,
        None => from,
    }
}

/// The empty cells that the walk from `from` in `direction` passes before it meets an island.
pub open spec fn ray_gaps(
    islands: Seq<Island>,
    columns: usize,
    rows: usize,
    from: usize,
    direction: int,
) -> Seq<usize> {
    match ray(islands, columns, rows, from, direction) {
        Some((_, gaps)) => gaps,
        None => Seq::empty(),
    }
}

/// `outcome` with `prefix` put before its gap cells.
pub open spec fn after_gaps(prefix: Seq<usize>, outcome: Option<(usize, Seq<usize>)>) -> Option<
    (usize, Seq<usize>),
> {
    match outcome {
        None => None,
        Some((end, gaps)) => Some((end, prefix + gaps)),
    }
}

/// Whether the walk from `from` in `direction` meets island `to` first.
pub open spec fn reaches(
    islands: Seq<Island>,
    columns: usize,
    rows: usize,
    from: usize,
    to: usize,
    direction: int,
) -> bool {
    &&& 0 <= direction < 6
    &&& ray(islands, columns, rows, from, direction) is Some
    &&& ray_end(islands, columns, rows, from, direction) == to
}

/// Whether the walk from `from` in some direction meets island `to` first.
pub open spec fn connects(
    islands: Seq<Island>,
    columns: usize,
    rows: usize,
    from: usize,
    to: usize,
) -> bool {
    exists|direction: int| reaches(islands, columns, rows, from, to, direction)
}

/// The empty cells between `from` and `to`, in the order of the walk from `from`.
pub open spec fn gaps_between(
    islands: Seq<Island>,
    columns: usize,
    rows: usize,
    from: usize,
    to: usize,
) -> Seq<usize> {
    let direction = choose|direction: int| reaches(islands, columns, rows, from, to, direction);
    ray_gaps(islands, columns, rows, from, direction)
}

/// Whether a bridge can be placed between the two islands of `key`.
pub open spec fn is_candidate(
    islands: Seq<Island>,
    columns: usize,
    rows: usize,
    key: (usize, usize),
) -> bool {
    &&& key.0 < key.1 < islands.len()
    &&& islands[key.1 as int] is Bridged
    &&& connects(islands, columns, rows, key.1, key.0)
}

/// Whether `bridges` holds exactly the bridges that can be placed between
/// `islands`, each without spans and with its gap cells in the order of the
/// walk from its island of larger index.
pub open spec fn is_candidate_map(
    islands: Seq<Island>,
    columns: usize,
    rows: usize,
    bridges: Map<(usize, usize), HexBridge>,
) -> bool {
    &&& forall|key: (usize, usize)|
        bridges.contains_key(key) <==> is_candidate(islands, columns, rows, key)
    &&& forall|key: (usize, usize)| #[trigger]
        bridges.contains_key(key) ==> {
            &&& bridges[key].state == BridgeState::Empty
            &&& bridges[key].gap_indices@ == gaps_between(islands, columns, rows, key.1, key.0)
        }
}

/// What a walk that meets an island has covered: the island lies as many
/// steps from the origin as it passed gap cells, plus one, and every gap
/// cell is an empty cell of the grid.
pub proof fn lemma_ray_geometry(
    islands: Seq<Island>,
    columns: usize,
    rows: usize,
    from: usize,
    direction: int,
)
    requires
        ray(islands, columns, rows, from, direction) is Some,
    ensures
        valid_grid(columns, rows),
        0 <= direction < 6,
        from < size_spec(columns as int, rows as int),
        ({
            let (end, gaps) = ray(islands, columns, rows, from, direction)->0;
            let steps = gaps.len() + 1;
            &&& end < islands.len()
            &&& end < size_spec(columns as int, rows as int)
            &&& islands[end as int] is Bridged
            &&& end == from + steps * index_step(columns as int, direction)
            &&& row_of(columns as int, end as int) == row_of(columns as int, from as int) + steps
                * row_step(direction)
            &&& forall|g: int|
                0 <= g < gaps.len() ==> (#[trigger] gaps[g]) < islands.len()
                    && islands[gaps[g] as int] is Empty
        }),
    decreases walk_room(columns, rows, from, direction),
{
    lemma_neighbor_geometry(columns, rows, from, direction);
    let next = neighbor(columns, rows, from, direction)->0;
    let step = index_step(columns as int, direction);
    let rise = row_step(direction);
    if islands[next as int] is Empty {
        lemma_ray_geometry(islands, columns, rows, next, direction);
        let (end, rest) = ray(islands, columns, rows, next, direction)->0;
        let gaps = seq![next] + rest;
        let steps = rest.len() + 1;
        assert(gaps.len() + 1 == steps + 1);
        assert((steps + 1) * step == steps * step + step) by (nonlinear_arith);
        assert((steps + 1) * rise == steps * rise + rise) by (nonlinear_arith);
        assert forall|g: int| 0 <= g < gaps.len() implies (#[trigger] gaps[g]) < islands.len()
            && islands[gaps[g] as int] is Empty by {
            if g > 0 {
                assert(gaps[g] == rest[g - 1]);
            }
        }
    } else {
        assert(1 * step == step && 1 * rise == rise);
    }
}

/// Two islands lie on at most one straight line: the direction in which a
/// walk from one meets the other is unique.
pub proof fn lemma_direction_unique(
    islands: Seq<Island>,
    columns: usize,
    rows: usize,
    from: usize,
    to: usize,
    first: int,
    second: int,
)
    requires
        reaches(islands, columns, rows, from, to, first),
        reaches(islands, columns, rows, from, to, second),
    ensures
        first == second,
{
    lemma_ray_geometry(islands, columns, rows, from, first);
    lemma_ray_geometry(islands, columns, rows, from, second);
    let c = columns as int;
    let k1 = ray_gaps(islands, columns, rows, from, first).len() + 1;
    let k2 = ray_gaps(islands, columns, rows, from, second).len() + 1;
    let s1 = index_step(c, first);
    let s2 = index_step(c, second);
    let r1 = row_step(first);
    let r2 = row_step(second);
    assert(k1 * s1 == k2 * s2);
    assert(k1 * r1 == k2 * r2);
    if first != second {
        assert(false) by (nonlinear_arith)
            requires
                k1 >= 1,
                k2 >= 1,
                c >= 1,
                k1 * s1 == k2 * s2,
                k1 * r1 == k2 * r2,
                (s1 == -c - 1 && r1 == -1) || (s1 == -c && r1 == -1) || (s1 == 1 && r1 == 0) || (s1
                    == c + 1 && r1 == 1) || (s1 == c && r1 == 1) || (s1 == -1 && r1 == 0),
                (s2 == -c - 1 && r2 == -1) || (s2 == -c && r2 == -1) || (s2 == 1 && r2 == 0) || (s2
                    == c + 1 && r2 == 1) || (s2 == c && r2 == 1) || (s2 == -1 && r2 == 0),
                s1 != s2,
        ;
    }
}

/// A walk reads only the cells that it passes: where other cells agree
/// with them on the walk's gap cells and its end, the walk is the same.
pub proof fn lemma_ray_transfer(
    islands: Seq<Island>,
    others: Seq<Island>,
    columns: usize,
    rows: usize,
    from: usize,
    direction: int,
)
    requires
        ray(islands, columns, rows, from, direction) is Some,
        others.len() == islands.len(),
        others[ray_end(islands, columns, rows, from, direction) as int] is Bridged,
        forall|g: int|
            0 <= g < ray_gaps(islands, columns, rows, from, direction).len()
                ==> others[#[trigger] ray_gaps(
                islands,
                columns,
                rows,
                from,
                direction,
            )[g] as int] is Empty,
    ensures
        ray(others, columns, rows, from, direction) == ray(
            islands,
            columns,
            rows,
            from,
            direction,
        ),
    decreases walk_room(columns, rows, from, direction),
{
    lemma_neighbor_geometry(columns, rows, from, direction);
    let next = neighbor(columns, rows, from, direction)->0;
    if islands[next as int] is Empty {
        let gaps = ray_gaps(islands, columns, rows, from, direction);
        let rest = ray_gaps(islands, columns, rows, next, direction);
        assert(gaps == seq![next] + rest);
        assert(gaps[0] == next);
        assert forall|g: int|
            0 <= g < rest.len() implies others[#[trigger] rest[g] as int] is Empty by {
            assert(gaps[g + 1] == rest[g]);
        }
        lemma_ray_transfer(islands, others, columns, rows, next, direction);
    }
}

/// Seen from a gap cell `cell`: where the walk onward meets `end` and the
/// walk back meets `from`, the walk from `end` back meets `from`, over the
/// same cells in reverse order.
proof fn lemma_ray_back(
    islands: Seq<Island>,
    columns: usize,
    rows: usize,
    cell: usize,
    direction: int,
)
    requires
        0 <= direction < 6,
        cell < islands.len(),
        islands[cell as int] is Empty,
        ray(islands, columns, rows, cell, direction) is Some,
        ray(islands, columns, rows, cell, opposite(direction)) is Some,
    ensures
        ray(
            islands,
            columns,
            rows,
            ray_end(islands, columns, rows, cell, direction),
            opposite(direction),
        ) == Some(
            (
                ray_end(islands, columns, rows, cell, opposite(direction)),
                ray_gaps(islands, columns, rows, cell, direction).reverse().push(cell) + ray_gaps(
                    islands,
                    columns,
                    rows,
                    cell,
                    opposite(direction),
                ),
            ),
        ),
    decreases walk_room(columns, rows, cell, direction),
{
    let back = opposite(direction);
    lemma_neighbor_geometry(columns, rows, cell, direction);
    lemma_neighbor_symmetric(columns, rows, cell, direction);
    let next = neighbor(columns, rows, cell, direction)->0;
    let behind = ray_gaps(islands, columns, rows, cell, back);
    let from = ray_end(islands, columns, rows, cell, back);
    if islands[next as int] is Empty {
        let rest = ray_gaps(islands, columns, rows, next, direction);
        let end = ray_end(islands, columns, rows, next, direction);
        assert(ray(islands, columns, rows, next, back) == Some((from, seq![cell] + behind)));
        lemma_ray_back(islands, columns, rows, next, direction);
        assert((seq![next] + rest).reverse().push(cell) + behind =~= rest.reverse().push(next) + (
        seq![cell] + behind));
    } else {
        assert(ray(islands, columns, rows, next, back) == Some((from, seq![cell] + behind)));
        assert(Seq::<usize>::empty().reverse().push(cell) + behind =~= seq![cell] + behind);
    }
}

/// Straight lines can be walked both ways: where the walk from island
/// `from` meets an island, the walk back from there meets `from`, over the
/// same empty cells in reverse order.
pub proof fn lemma_ray_symmetric(
    islands: Seq<Island>,
    columns: usize,
    rows: usize,
    from: usize,
    direction: int,
)
    requires
        from < islands.len(),
        islands[from as int] is Bridged,
        ray(islands, columns, rows, from, direction) is Some,
    ensures
        ray(
            islands,
            columns,
            rows,
            ray_end(islands, columns, rows, from, direction),
            opposite(direction),
        ) == Some((from, ray_gaps(islands, columns, rows, from, direction).reverse())),
{
    let back = opposite(direction);
    lemma_neighbor_geometry(columns, rows, from, direction);
    lemma_neighbor_symmetric(columns, rows, from, direction);
    let next = neighbor(columns, rows, from, direction)->0;
    if islands[next as int] is Empty {
        let rest = ray_gaps(islands, columns, rows, next, direction);
        assert(ray(islands, columns, rows, next, back) == Some((from, Seq::<usize>::empty())));
        lemma_ray_back(islands, columns, rows, next, direction);
        assert((seq![next] + rest).reverse() =~= rest.reverse().push(next) + Seq::<usize>::empty());
    } else {
        assert(Seq::<usize>::empty().reverse() =~= Seq::<usize>::empty());
    }
}

/// A bridge can be placed wherever two islands see each other: the walk
/// from either island meets the other.
pub proof fn lemma_candidates_complete(
    islands: Seq<Island>,
    columns: usize,
    rows: usize,
    from: usize,
    direction: int,
)
    requires
        from < islands.len(),
        islands[from as int] is Bridged,
        ray(islands, columns, rows, from, direction) is Some,
    ensures
        is_candidate(
            islands,
            columns,
            rows,
            bridge_key(from, ray_end(islands, columns, rows, from, direction)),
        ),
{
    let end = ray_end(islands, columns, rows, from, direction);
    lemma_ray_geometry(islands, columns, rows, from, direction);
    let gaps = ray_gaps(islands, columns, rows, from, direction);
    let steps = gaps.len() + 1;
    let step = index_step(columns as int, direction);
    assert(end != from) by (nonlinear_arith)
        requires
            end == from + steps * step,
            steps >= 1,
            step != 0,
    ;
    if end < from {
        assert(reaches(islands, columns, rows, from, end, direction));
    } else {
        lemma_ray_symmetric(islands, columns, rows, from, direction);
        assert(reaches(islands, columns, rows, end, from, opposite(direction)));
    }
}

/// The islands at which the walks from `from` in the six directions end.
pub open spec fn seen_from(islands: Seq<Island>, columns: usize, rows: usize, from: usize) -> Set<
    usize,
> {
    set_int_range(0, 6).map(|direction: int| ray_end(islands, columns, rows, from, direction))
}

/// An island sees at most six islands, one in each direction, and every
/// bridge that can be placed at it leads to one of them.
pub proof fn lemma_six_neighbors(islands: Seq<Island>, columns: usize, rows: usize, from: usize)
    ensures
        seen_from(islands, columns, rows, from).finite(),
        seen_from(islands, columns, rows, from).len() <= 6,
        forall|other: usize| #[trigger]
            is_candidate(islands, columns, rows, bridge_key(from, other)) ==> seen_from(
                islands,
                columns,
                rows,
                from,
            ).contains(other),
{
    let directions = set_int_range(0, 6);
    let end = |direction: int| ray_end(islands, columns, rows, from, direction);
    lemma_int_range(0, 6);
    lemma_map_size_bound(directions, directions.map(end), end);
    assert forall|other: usize| #[trigger]
        is_candidate(islands, columns, rows, bridge_key(from, other)) implies directions.map(
        end,
    ).contains(other) by {
        let key = bridge_key(from, other);
        let direction = choose|direction: int|
            reaches(islands, columns, rows, key.1, key.0, direction);
        if from > other {
            assert(directions.contains(direction) && end(direction) == other);
        } else {
            lemma_ray_symmetric(islands, columns, rows, other, direction);
            let back = opposite(direction);
            assert(directions.contains(back) && end(back) == other);
        }
    }
}

/// No island of a puzzle with derived bridges has more than twelve spans,
/// whatever the states of the bridges.
pub proof fn lemma_at_most_twelve_spans(
    islands: Seq<Island>,
    columns: usize,
    rows: usize,
    states: Map<(usize, usize), BridgeState>,
    from: usize,
)
    requires
        islands.len() <= usize::MAX,
        forall|key: (usize, usize)| #[trigger]
            states.contains_key(key) ==> is_candidate(islands, columns, rows, key),
    ensures
        spans_below(states, from, islands.len()) <= 12,
{
    lemma_six_neighbors(islands, columns, rows, from);
    let others = seen_from(islands, columns, rows, from);
    assert forall|o: usize|
        o < islands.len() && #[trigger] states.contains_key(
            bridge_key(from, o),
        ) implies others.contains(o) by {
        assert(is_candidate(islands, columns, rows, bridge_key(from, o)));
    }
    lemma_spans_at_most(states, from, islands.len(), others);
}

/// Deriving the bridges is a function of the islands: two derivations from
/// the same islands hold the same bridges, with the same gap cells, all
/// without spans.
pub proof fn lemma_candidates_unique(
    islands: Seq<Island>,
    columns: usize,
    rows: usize,
    first: Map<(usize, usize), HexBridge>,
    second: Map<(usize, usize), HexBridge>,
)
    requires
        is_candidate_map(islands, columns, rows, first),
        is_candidate_map(islands, columns, rows, second),
    ensures
        first.dom() == second.dom(),
        forall|key: (usize, usize)| #[trigger]
            first.contains_key(key) ==> first[key].state == second[key].state
                && first[key].gap_indices@ == second[key].gap_indices@,
{
    assert(first.dom() =~= second.dom());
}

/// The bridges that can be placed fit the islands: each joins two distinct
/// islands and runs over empty cells of the grid.
pub proof fn lemma_candidates_fit(
    islands: Seq<Island>,
    columns: usize,
    rows: usize,
    bridges: Map<(usize, usize), HexBridge>,
)
    requires
        is_candidate_map(islands, columns, rows, bridges),
    ensures
        crate::hex::bridges_fit(islands, bridges),
{
    assert forall|key: (usize, usize)| #[trigger] bridges.contains_key(key) implies {
        &&& key.0 < key.1 < islands.len()
        &&& islands[key.0 as int] is Bridged
        &&& islands[key.1 as int] is Bridged
        &&& forall|g: int|
            0 <= g < bridges[key].gap_indices@.len() ==> {
                &&& (#[trigger] bridges[key].gap_indices@[g]) < islands.len()
                &&& islands[bridges[key].gap_indices@[g] as int] is Empty
            }
    } by {
        assert(is_candidate(islands, columns, rows, key));
        let direction = choose|direction: int|
            reaches(islands, columns, rows, key.1, key.0, direction);
        lemma_gaps_between(islands, columns, rows, key.1, key.0, direction);
        lemma_ray_geometry(islands, columns, rows, key.1, direction);
    }
}

/// The gap cells between two islands are those of the walk that joins them.
pub proof fn lemma_gaps_between(
    islands: Seq<Island>,
    columns: usize,
    rows: usize,
    from: usize,
    to: usize,
    direction: int,
)
    requires
        reaches(islands, columns, rows, from, to, direction),
    ensures
        connects(islands, columns, rows, from, to),
        gaps_between(islands, columns, rows, from, to) == ray_gaps(
            islands,
            columns,
            rows,
            from,
            direction,
        ),
{
    let chosen = choose|chosen: int| reaches(islands, columns, rows, from, to, chosen);
    lemma_direction_unique(islands, columns, rows, from, to, direction, chosen);
}

/// Putting gap cells before an outcome one after the other is putting their concatenation.
proof fn lemma_after_gaps_push(
    prefix: Seq<usize>,
    next: usize,
    outcome: Option<(usize, Seq<usize>)>,
)
    ensures
        after_gaps(prefix, after_gaps(seq![next], outcome)) == after_gaps(
            prefix.push(next),
            outcome,
        ),
{
    match outcome {
        None => {},
        Some((end, gaps)) => {
            assert(prefix + (seq![next] + gaps) =~= prefix.push(next) + gaps);
        },
    }
}

/// Whether a walk from `from` in a direction below `limit` meets `to` first.
pub open spec fn reaches_below(
    islands: Seq<Island>,
    columns: usize,
    rows: usize,
    from: usize,
    to: usize,
    limit: int,
) -> bool {
    exists|direction: int|
        direction < limit && reaches(islands, columns, rows, from, to, direction)
}

impl HexSystem {
    /// Walk from `start` in `direction` over empty cells up to the first island.
    ///
    /// Returns the island and the empty cells passed on the way, or `None`
    /// where the walk leaves the grid without meeting an island.
    pub fn find_end(
        islands: &[Island],
        columns: usize,
        rows: usize,
        start: usize,
        direction: usize,
    ) -> (found: Option<(usize, Vec<usize>)>)
        requires
            islands@.len() == size_spec(columns as int, rows as int),
            forall|i: int| 0 <= i < islands@.len() ==> !(#[trigger] islands@[i] is Blocked),
        ensures
            match found {
                Some((end, gaps)) => ray(islands@, columns, rows, start, direction as int) == Some(
                    (end, gaps@),
                ),
                None => ray(islands@, columns, rows, start, direction as int) is None,
            },
    {
        if direction >= 6 {
            return None;
        }
        let mut gaps: Vec<usize> = Vec::new();
        let mut current = start;
        loop
            invariant
                direction < 6,
                islands@.len() == size_spec(columns as int, rows as int),
                forall|i: int| 0 <= i < islands@.len() ==> !(#[trigger] islands@[i] is Blocked),
                ray(islands@, columns, rows, start, direction as int) == after_gaps(
                    gaps@,
                    ray(islands@, columns, rows, current, direction as int),
                ),
            decreases walk_room(columns, rows, current, direction as int),
        {
            let connections = HexSystem::get_connected_indices(columns, rows, current);
            let next = match connections[direction] {
                Some(next) => next,
                None => {
                    return None;
                },
            };
            proof {
                lemma_neighbor_geometry(columns, rows, current, direction as int);
            }
            match islands[next] {
                Island::Bridged(_) => {
                    assert(gaps@ + Seq::<usize>::empty() =~= gaps@);
                    return Some((next, gaps));
                },
                Island::Blocked => {
                    return None;
                },
                Island::Empty => {
                    proof {
                        lemma_after_gaps_push(
                            gaps@,
                            next,
                            ray(islands@, columns, rows, next, direction as int),
                        );
                    }
                    gaps.push(next);
                    current = next;
                },
            }
        }
    }

    /// Derive the bridges that can be placed between `islands`.
    ///
    /// Every pair of islands on one straight line with only empty cells
    /// between them gets a bridge without spans, stored under the ordered
    /// pair of their indices. The indices of the cells between them are
    /// remembered with the bridge, for the check of crossing bridges.
    pub fn fill_bridges(islands: &[Island], columns: usize, rows: usize) -> (bridges: BTreeMap<
        (usize, usize),
        HexBridge,
    >)
        requires
            valid_grid(columns, rows),
            islands@.len() == size_spec(columns as int, rows as int),
            forall|i: int| 0 <= i < islands@.len() ==> !(#[trigger] islands@[i] is Blocked),
        ensures
            is_candidate_map(islands@, columns, rows, bridges@),
    {
        let mut bridges: BTreeMap<(usize, usize), HexBridge> = BTreeMap::new();
        let mut start: usize = 0;
        while start < islands.len()
            invariant
                start <= islands@.len(),
                islands@.len() == size_spec(columns as int, rows as int),
                forall|i: int| 0 <= i < islands@.len() ==> !(#[trigger] islands@[i] is Blocked),
                forall|key: (usize, usize)|
                    bridges@.contains_key(key) <==> key.1 < start && is_candidate(
                        islands@,
                        columns,
                        rows,
                        key,
                    ),
                forall|key: (usize, usize)| #[trigger]
                    bridges@.contains_key(key) ==> {
                        &&& bridges@[key].state == BridgeState::Empty
                        &&& bridges@[key].gap_indices@ == gaps_between(
                            islands@,
                            columns,
                            rows,
                            key.1,
                            key.0,
                        )
                    },
            decreases islands@.len() - start,
        {
            if matches!(islands[start], Island::Bridged(_)) {
                let mut direction: usize = 0;
                while direction < 6
                    invariant
                        direction <= 6,
                        start < islands@.len(),
                        islands@[start as int] is Bridged,
                        islands@.len() == size_spec(columns as int, rows as int),
                        forall|i: int|
                            0 <= i < islands@.len() ==> !(#[trigger] islands@[i] is Blocked),
                        forall|key: (usize, usize)|
                            bridges@.contains_key(key) <==> (key.1 < start && is_candidate(
                                islands@,
                                columns,
                                rows,
                                key,
                            )) || (key.1 == start && key.0 < start && reaches_below(
                                islands@,
                                columns,
                                rows,
                                start,
                                key.0,
                                direction as int,
                            )),
                        forall|key: (usize, usize)| #[trigger]
                            bridges@.contains_key(key) ==> {
                                &&& bridges@[key].state == BridgeState::Empty
                                &&& bridges@[key].gap_indices@ == gaps_between(
                                    islands@,
                                    columns,
                                    rows,
                                    key.1,
                                    key.0,
                                )
                            },
                    decreases 6 - direction,
                {
                    let ghost before = bridges@;
                    match HexSystem::find_end(islands, columns, rows, start, direction) {
                        Some((end, gaps)) => {
                            if end < start {
                                proof {
                                    lemma_gaps_between(
                                        islands@,
                                        columns,
                                        rows,
                                        start,
                                        end,
                                        direction as int,
                                    );
                                }
                                bridges.insert(
                                    (end, start),
                                    HexBridge { state: BridgeState::Empty, gap_indices: gaps },
                                );
                            }
                        },
                        None => {},
                    }
                    proof {
                        let d = direction as int;
                        assert forall|key: (usize, usize)|
                            bridges@.contains_key(key) <==> (key.1 < start && is_candidate(
                                islands@,
                                columns,
                                rows,
                                key,
                            )) || (key.1 == start && key.0 < start && reaches_below(
                                islands@,
                                columns,
                                rows,
                                start,
                                key.0,
                                d + 1,
                            )) by {
                            if key.1 == start && key.0 < start {
                                if reaches_below(islands@, columns, rows, start, key.0, d + 1) {
                                    let w = choose|w: int|
                                        w < d + 1 && reaches(
                                            islands@,
                                            columns,
                                            rows,
                                            start,
                                            key.0,
                                            w,
                                        );
                                    if w < d {
                                        assert(reaches_below(
                                            islands@,
                                            columns,
                                            rows,
                                            start,
                                            key.0,
                                            d,
                                        ));
                                    }
                                }
                                if reaches_below(islands@, columns, rows, start, key.0, d) {
                                    let w = choose|w: int|
                                        w < d && reaches(islands@, columns, rows, start, key.0, w);
                                    assert(w < d + 1 && reaches(
                                        islands@,
                                        columns,
                                        rows,
                                        start,
                                        key.0,
                                        w,
                                    ));
                                }
                                if reaches(islands@, columns, rows, start, key.0, d) {
                                    assert(reaches_below(
                                        islands@,
                                        columns,
                                        rows,
                                        start,
                                        key.0,
                                        d + 1,
                                    ));
                                }
                            }
                        }
                    }
                    direction += 1;
                }
                proof {
                    assert forall|key: (usize, usize)|
                        bridges@.contains_key(key) <==> key.1 < start + 1 && is_candidate(
                            islands@,
                            columns,
                            rows,
                            key,
                        ) by {
                        if key.1 == start && key.0 < start {
                            if reaches_below(islands@, columns, rows, start, key.0, 6) {
                                let w = choose|w: int|
                                    w < 6 && reaches(islands@, columns, rows, start, key.0, w);
                                assert(connects(islands@, columns, rows, start, key.0));
                            }
                            if connects(islands@, columns, rows, start, key.0) {
                                let w = choose|w: int|
                                    reaches(islands@, columns, rows, start, key.0, w);
                                assert(w < 6);
                                assert(reaches_below(islands@, columns, rows, start, key.0, 6));
                            }
                        }
                    }
                }
            }
            start += 1;
        }
        bridges
    }
}

} // verus!
