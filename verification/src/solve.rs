//! Deciding whether a puzzle is solved: every island has as many spans as
//! it asks for, and the bridges that are in place join all islands into one
//! network.
use crate::hex::{
    bridge_key, crossing_free, is_island, span_in, spans_below, BridgeState, HexBridge,
    HexSystem, Island,
};
use vstd::prelude::*;

verus! {

/// Number of `true` entries of `flags`.
pub open spec fn count_true(flags: Seq<bool>) -> nat
    decreases flags.len(),
{
    if flags.len() == 0 {
        0
    } else {
        count_true(flags.drop_last()) + if flags.last() {
            1nat
        } else {
            0nat
        }
    }
}

proof fn lemma_count_true_bound(flags: Seq<bool>)
    ensures
        count_true(flags) <= flags.len(),
    decreases flags.len(),
{
    if flags.len() > 0 {
        lemma_count_true_bound(flags.drop_last());
    }
}

proof fn lemma_count_true_none(flags: Seq<bool>)
    requires
        forall|i: int| 0 <= i < flags.len() ==> !flags[i],
    ensures
        count_true(flags) == 0,
    decreases flags.len(),
{
    if flags.len() > 0 {
        lemma_count_true_none(flags.drop_last());
    }
}

proof fn lemma_count_true_set(flags: Seq<bool>, index: int)
    requires
        0 <= index < flags.len(),
        !flags[index],
    ensures
        count_true(flags.update(index, true)) == count_true(flags) + 1,
    decreases flags.len(),
{
    let after = flags.update(index, true);
    if index == flags.len() - 1 {
        assert(after.drop_last() =~= flags.drop_last());
    } else {
        lemma_count_true_set(flags.drop_last(), index);
        assert(after.drop_last() =~= flags.drop_last().update(index, true));
    }
}

/// Whether a bridge with at least one span joins islands `a` and `b`.
pub open spec fn joined(states: Map<(usize, usize), BridgeState>, a: usize, b: usize) -> bool {
    span_in(states, a, b) > 0
}

/// Whether `path` leads from island to island over bridges that are in place.
pub open spec fn is_path(states: Map<(usize, usize), BridgeState>, path: Seq<usize>) -> bool {
    &&& path.len() >= 1
    &&& forall|i: int| 0 <= i < path.len() - 1 ==> #[trigger] joined(states, path[i], path[i + 1])
}

/// Whether one can get from island `a` to island `b` over bridges that are in place.
pub open spec fn linked(states: Map<(usize, usize), BridgeState>, a: usize, b: usize) -> bool {
    exists|path: Seq<usize>| #[trigger]
        is_path(states, path) && path.first() == a && path.last() == b
}

/// Whether cell `i` is an island with exactly as many spans as it asks for.
pub open spec fn meets_target(
    islands: Seq<Island>,
    states: Map<(usize, usize), BridgeState>,
    i: int,
) -> bool {
    &&& is_island(islands, i)
    &&& islands[i]->Bridged_0 == spans_below(states, i as usize, islands.len())
}

/// Whether every island has exactly as many spans as it asks for.
pub open spec fn targets_met(
    islands: Seq<Island>,
    states: Map<(usize, usize), BridgeState>,
) -> bool {
    forall|i: int| #[trigger] is_island(islands, i) ==> meets_target(islands, states, i)
}

/// Whether the bridges that are in place join all islands into one network.
pub open spec fn connected(islands: Seq<Island>, states: Map<(usize, usize), BridgeState>) -> bool {
    forall|a: usize, b: usize|
        is_island(islands, a as int) && is_island(islands, b as int) ==> #[trigger] linked(
            states,
            a,
            b,
        )
}

/// The solved condition: every island has the spans it asks for, and all
/// islands form one network.
pub open spec fn solved(islands: Seq<Island>, states: Map<(usize, usize), BridgeState>) -> bool {
    targets_met(islands, states) && connected(islands, states)
}

/// Whether island `i` can be reached from `start` and has its spans.
pub open spec fn reached(
    islands: Seq<Island>,
    states: Map<(usize, usize), BridgeState>,
    start: usize,
    i: int,
) -> bool {
    &&& meets_target(islands, states, i)
    &&& linked(states, start, i as usize)
}

/// Whether all islands that `i` is joined to are marked in `visited`.
pub open spec fn closed_at(
    states: Map<(usize, usize), BridgeState>,
    visited: Seq<bool>,
    i: usize,
) -> bool {
    forall|o: usize| #[trigger] joined(states, i, o) ==> o < visited.len() && visited[o as int]
}

/// Being joined does not depend on the order of the two islands.
pub proof fn lemma_joined_symmetric(states: Map<(usize, usize), BridgeState>, a: usize, b: usize)
    ensures
        joined(states, a, b) == joined(states, b, a),
{
    assert(bridge_key(a, b) == bridge_key(b, a));
}

/// Every island is linked to itself.
pub proof fn lemma_linked_reflexive(states: Map<(usize, usize), BridgeState>, a: usize)
    ensures
        linked(states, a, a),
{
    let path = seq![a];
    assert(is_path(states, path));
    assert(path.first() == a && path.last() == a);
}

/// A link can be prolonged by one bridge that is in place.
pub proof fn lemma_linked_step(
    states: Map<(usize, usize), BridgeState>,
    a: usize,
    b: usize,
    c: usize,
)
    requires
        linked(states, a, b),
        joined(states, b, c),
    ensures
        linked(states, a, c),
{
    let path = choose|path: Seq<usize>| #[trigger]
        is_path(states, path) && path.first() == a && path.last() == b;
    let longer = path.push(c);
    assert forall|i: int| 0 <= i < longer.len() - 1 implies #[trigger] joined(
        states,
        longer[i],
        longer[i + 1],
    ) by {
        if i < path.len() - 1 {
            assert(joined(states, path[i], path[i + 1]));
        }
    }
    assert(is_path(states, longer));
    assert(longer.first() == a && longer.last() == c);
}

/// Links can be walked in both directions.
pub proof fn lemma_linked_symmetric(states: Map<(usize, usize), BridgeState>, a: usize, b: usize)
    requires
        linked(states, a, b),
    ensures
        linked(states, b, a),
{
    let path = choose|path: Seq<usize>| #[trigger]
        is_path(states, path) && path.first() == a && path.last() == b;
    let back = path.reverse();
    assert forall|i: int| 0 <= i < back.len() - 1 implies #[trigger] joined(
        states,
        back[i],
        back[i + 1],
    ) by {
        let j = path.len() - 2 - i;
        assert(joined(states, path[j], path[j + 1]));
        lemma_joined_symmetric(states, path[j], path[j + 1]);
    }
    assert(is_path(states, back));
    assert(back.first() == b && back.last() == a);
}

/// Links compose.
pub proof fn lemma_linked_transitive(
    states: Map<(usize, usize), BridgeState>,
    a: usize,
    b: usize,
    c: usize,
)
    requires
        linked(states, a, b),
        linked(states, b, c),
    ensures
        linked(states, a, c),
{
    let path = choose|path: Seq<usize>| #[trigger]
        is_path(states, path) && path.first() == b && path.last() == c;
    lemma_linked_along(states, a, path, path.len() - 1);
}

/// Whatever is linked to the start of a path is linked to each island on it.
proof fn lemma_linked_along(
    states: Map<(usize, usize), BridgeState>,
    a: usize,
    path: Seq<usize>,
    upto: int,
)
    requires
        is_path(states, path),
        linked(states, a, path.first()),
        0 <= upto < path.len(),
    ensures
        linked(states, a, path[upto]),
    decreases upto,
{
    if upto > 0 {
        lemma_linked_along(states, a, path, upto - 1);
        assert(joined(states, path[upto - 1], path[upto - 1 + 1]));
        lemma_linked_step(states, a, path[upto - 1], path[upto]);
    }
}

/// A set of islands that is closed under the bridges in place holds
/// every island on a path that starts in it.
proof fn lemma_closed_holds_path(
    states: Map<(usize, usize), BridgeState>,
    visited: Seq<bool>,
    path: Seq<usize>,
    upto: int,
)
    requires
        is_path(states, path),
        path.first() < visited.len(),
        visited[path.first() as int],
        forall|i: usize| i < visited.len() && visited[i as int] ==> closed_at(states, visited, i),
        0 <= upto < path.len(),
    ensures
        path[upto] < visited.len(),
        visited[path[upto] as int],
    decreases upto,
{
    if upto > 0 {
        lemma_closed_holds_path(states, visited, path, upto - 1);
        assert(joined(states, path[upto - 1], path[upto - 1 + 1]));
        assert(closed_at(states, visited, path[upto - 1]));
    }
}

/// Links stay where every bridge that is in place stays in place.
pub proof fn lemma_linked_monotonic(
    states: Map<(usize, usize), BridgeState>,
    others: Map<(usize, usize), BridgeState>,
    a: usize,
    b: usize,
)
    requires
        forall|x: usize, y: usize| #[trigger] joined(states, x, y) ==> joined(others, x, y),
        linked(states, a, b),
    ensures
        linked(others, a, b),
{
    let path = choose|path: Seq<usize>| #[trigger]
        is_path(states, path) && path.first() == a && path.last() == b;
    assert forall|i: int| 0 <= i < path.len() - 1 implies #[trigger] joined(
        others,
        path[i],
        path[i + 1],
    ) by {
        assert(joined(states, path[i], path[i + 1]));
    }
    assert(is_path(others, path));
}

/// The spans at an island depend only on the spans that join it to each other island.
pub proof fn lemma_spans_below_equal(
    states: Map<(usize, usize), BridgeState>,
    others: Map<(usize, usize), BridgeState>,
    from: usize,
    limit: nat,
)
    requires
        forall|o: usize|
            o < limit ==> #[trigger] span_in(states, from, o) == span_in(others, from, o),
    ensures
        spans_below(states, from, limit) == spans_below(others, from, limit),
    decreases limit,
{
    if limit > 0 {
        lemma_spans_below_equal(states, others, from, (limit - 1) as nat);
        assert(span_in(states, from, (limit - 1) as usize) == span_in(
            others,
            from,
            (limit - 1) as usize,
        ));
    }
}

/// Whether `bridges` can be given states in which the puzzle is solved
/// and no two bridges that are in place cross.
pub open spec fn solvable(islands: Seq<Island>, bridges: Map<(usize, usize), HexBridge>) -> bool {
    exists|states: Map<(usize, usize), BridgeState>|
        states.dom() == bridges.dom() && crossing_free(bridges, states) && #[trigger] solved(
            islands,
            states,
        )
}

/// Where one island is linked to all others, any two islands are linked.
pub proof fn lemma_star_connected(
    islands: Seq<Island>,
    states: Map<(usize, usize), BridgeState>,
    start: usize,
)
    requires
        forall|i: usize| is_island(islands, i as int) ==> linked(states, start, i),
    ensures
        connected(islands, states),
{
    assert forall|a: usize, b: usize|
        is_island(islands, a as int) && is_island(islands, b as int) implies #[trigger] linked(
        states,
        a,
        b,
    ) by {
        lemma_linked_symmetric(states, start, a);
        lemma_linked_transitive(states, a, start, b);
    }
}

/// Whether every island that is marked in `visited` can be reached from
/// `start` and has its spans.
pub open spec fn explored(
    islands: Seq<Island>,
    states: Map<(usize, usize), BridgeState>,
    start: usize,
    visited: Seq<bool>,
) -> bool {
    forall|i: int|
        0 <= i < visited.len() && visited[i] ==> #[trigger] reached(islands, states, start, i)
}

/// Whether every island in `pending` is marked in `visited`.
pub open spec fn waiting(visited: Seq<bool>, pending: Seq<usize>) -> bool {
    forall|k: int|
        0 <= k < pending.len() ==> (#[trigger] pending[k]) < visited.len()
            && visited[pending[k] as int]
}

/// Whether the walk is done with every marked island that is neither in
/// `pending` nor `current`: all islands that it is joined to are marked.
pub open spec fn settled(
    states: Map<(usize, usize), BridgeState>,
    visited: Seq<bool>,
    pending: Seq<usize>,
    current: Option<usize>,
) -> bool {
    forall|i: usize|
        i < visited.len() && visited[i as int] && !pending.contains(i) && current != Some(i)
            ==> #[trigger] closed_at(states, visited, i)
}

/// Taking the last island from the pending ones makes it the current one.
proof fn lemma_take_pending(
    states: Map<(usize, usize), BridgeState>,
    visited: Seq<bool>,
    pending: Seq<usize>,
)
    requires
        pending.len() > 0,
        settled(states, visited, pending, None),
        waiting(visited, pending),
    ensures
        settled(states, visited, pending.drop_last(), Some(pending.last())),
        waiting(visited, pending.drop_last()),
        pending.last() < visited.len(),
        visited[pending.last() as int],
{
    let rest = pending.drop_last();
    assert forall|i: usize|
        i < visited.len() && visited[i as int] && !rest.contains(i) && Some(pending.last())
            != Some(i) implies #[trigger] closed_at(states, visited, i) by {
        if pending.contains(i) {
            let k = choose|k: int| 0 <= k < pending.len() && pending[k] == i;
            assert(rest[k] == i);
        }
    }
    assert forall|k: int| 0 <= k < rest.len() implies (#[trigger] rest[k]) < visited.len()
        && visited[rest[k] as int] by {
        assert(pending[k] == rest[k]);
    }
    assert(pending[pending.len() - 1] == pending.last());
}

/// Marking an island that was reached, and putting it with the pending ones.
proof fn lemma_mark(
    islands: Seq<Island>,
    states: Map<(usize, usize), BridgeState>,
    start: usize,
    visited: Seq<bool>,
    pending: Seq<usize>,
    current: usize,
    other: usize,
)
    requires
        other < visited.len(),
        !visited[other as int],
        reached(islands, states, start, other as int),
        explored(islands, states, start, visited),
        waiting(visited, pending),
        settled(states, visited, pending, Some(current)),
    ensures
        explored(islands, states, start, visited.update(other as int, true)),
        waiting(visited.update(other as int, true), pending.push(other)),
        settled(states, visited.update(other as int, true), pending.push(other), Some(current)),
        count_true(visited.update(other as int, true)) == count_true(visited) + 1,
        count_true(visited.update(other as int, true)) <= visited.len(),
{
    let marked = visited.update(other as int, true);
    let longer = pending.push(other);
    lemma_count_true_set(visited, other as int);
    lemma_count_true_bound(marked);
    assert forall|i: int| 0 <= i < marked.len() && marked[i] implies #[trigger] reached(
        islands,
        states,
        start,
        i,
    ) by {
        if i != other {
            assert(visited[i]);
        }
    }
    assert forall|k: int| 0 <= k < longer.len() implies (#[trigger] longer[k]) < marked.len()
        && marked[longer[k] as int] by {
        if k < pending.len() {
            assert(longer[k] == pending[k]);
        }
    }
    assert(longer[pending.len() as int] == other);
    assert forall|i: usize|
        i < marked.len() && marked[i as int] && !longer.contains(i) && Some(current) != Some(
            i,
        ) implies #[trigger] closed_at(states, marked, i) by {
        assert(i != other);
        assert(visited[i as int]);
        if pending.contains(i) {
            let k = choose|k: int| 0 <= k < pending.len() && pending[k] == i;
            assert(longer[k] == i);
        }
        assert(closed_at(states, visited, i));
    }
}

/// A network that has been walked to its end holds every island that is
/// linked to the island where the walk began.
proof fn lemma_walked(
    states: Map<(usize, usize), BridgeState>,
    visited: Seq<bool>,
    start: usize,
    other: usize,
)
    requires
        start < visited.len(),
        visited[start as int],
        settled(states, visited, Seq::<usize>::empty(), None),
        linked(states, start, other),
    ensures
        other < visited.len(),
        visited[other as int],
{
    let path = choose|path: Seq<usize>| #[trigger]
        is_path(states, path) && path.first() == start && path.last() == other;
    assert forall|i: usize| i < visited.len() && visited[i as int] implies closed_at(
        states,
        visited,
        i,
    ) by {
        assert(!Seq::<usize>::empty().contains(i));
    }
    lemma_closed_holds_path(states, visited, path, path.len() - 1);
}

/// Where the walk from `start` has marked every island, and every marked
/// island has its spans, the puzzle is solved.
proof fn lemma_all_explored(
    islands: Seq<Island>,
    states: Map<(usize, usize), BridgeState>,
    start: usize,
    visited: Seq<bool>,
)
    requires
        visited.len() == islands.len(),
        explored(islands, states, start, visited),
        forall|i: int| is_island(islands, i) ==> visited[i],
    ensures
        solved(islands, states),
{
    assert forall|i: usize| is_island(islands, i as int) implies linked(states, start, i) by {
        assert(reached(islands, states, start, i as int));
    }
    lemma_star_connected(islands, states, start);
    assert forall|i: int| #[trigger] is_island(islands, i) implies meets_target(
        islands,
        states,
        i,
    ) by {
        assert(reached(islands, states, start, i));
    }
}

impl HexSystem {
    /// Whether the puzzle is solved: every island has exactly as many spans
    /// as it asks for, and the bridges in place join all islands into one
    /// network.
    pub open spec fn solved_spec(&self) -> bool {
        solved(self.islands@, self.states())
    }

    /// Whether the puzzle has a solution: its bridges can be given states
    /// in which it is solved and no bridges cross.
    pub open spec fn solvable(&self) -> bool {
        solvable(self.islands@, self.bridges@)
    }

    /// Whether the bridge between `a` and `b` has at least one span.
    fn is_joined(&self, a: usize, b: usize) -> (result: bool)
        ensures
            result == joined(self.states(), a, b),
    {
        match self.get_bridge(a, b) {
            Some(bridge) => bridge.get_count() > 0,
            None => false,
        }
    }

    /// Whether island `index` has exactly as many spans as it asks for.
    fn target_met(&self, index: usize) -> (met: bool)
        requires
            self.wf(),
            self.is_island(index as int),
        ensures
            met == meets_target(self.islands@, self.states(), index as int),
    {
        let actual = self.get_actual_bridges(index);
        match self.islands[index] {
            Island::Bridged(target) => target == actual,
            _ => false,
        }
    }

    /// The first island of the puzzle.
    fn first_island(&self) -> (start: usize)
        requires
            exists|i: int| self.is_island(i),
        ensures
            self.is_island(start as int),
    {
        let mut start: usize = 0;
        while start < self.islands.len() && !matches!(self.islands[start], Island::Bridged(_))
            invariant
                start <= self.islands@.len(),
                forall|i: int| 0 <= i < start ==> !self.is_island(i),
            decreases self.islands@.len() - start,
        {
            start += 1;
        }
        start
    }

    /// Check if game is solved.
    ///
    /// The puzzle is solved when every island has as many spans as it asks
    /// for and the bridges in place join all islands into one network. The
    /// network is walked from the first island on; an island whose spans
    /// do not match its target ends the walk at once.
    pub fn is_solved(&self) -> (solved: bool)
        requires
            self.wf(),
            exists|i: int| self.is_island(i),
        ensures
            solved == self.solved_spec(),
    {
        let n = self.islands.len();
        let start = self.first_island();
        if !self.target_met(start) {
            return false;
        }
        let mut visited: Vec<bool> = Vec::new();
        while visited.len() < n
            invariant
                visited@.len() <= n,
                forall|i: int| 0 <= i < visited@.len() ==> !visited@[i],
            decreases n - visited@.len(),
        {
            visited.push(false);
        }
        let mut pending: Vec<usize> = Vec::new();
        let mut seen: usize = 1;
        proof {
            lemma_linked_reflexive(self.states(), start);
            lemma_mark(
                self.islands@,
                self.states(),
                start,
                visited@,
                pending@,
                start,
                start,
            );
            lemma_count_true_none(visited@);
        }
        visited.set(start, true);
        pending.push(start);
        assert(settled(self.states(), visited@, pending@, None)) by {
            assert(pending@[0] == start);
        }
        while pending.len() > 0
            invariant
                self.wf(),
                n == self.islands@.len(),
                visited@.len() == n,
                start < n,
                visited@[start as int],
                seen == count_true(visited@),
                seen <= n,
                explored(self.islands@, self.states(), start, visited@),
                waiting(visited@, pending@),
                settled(self.states(), visited@, pending@, None),
            decreases n - seen, pending@.len(),
        {
            proof {
                lemma_take_pending(self.states(), visited@, pending@);
            }
            let ghost taken = pending@.len() - 1;
            let ghost seen_before = seen;
            let current = pending.pop().unwrap();
            let mut other: usize = 0;
            while other < n
                invariant
                    self.wf(),
                    n == self.islands@.len(),
                    visited@.len() == n,
                    start < n,
                    current < n,
                    other <= n,
                    visited@[start as int],
                    visited@[current as int],
                    seen == count_true(visited@),
                    seen <= n,
                    seen >= seen_before,
                    seen == seen_before ==> pending@.len() == taken,
                    explored(self.islands@, self.states(), start, visited@),
                    waiting(visited@, pending@),
                    settled(self.states(), visited@, pending@, Some(current)),
                    forall|o: usize|
                        o < other && joined(self.states(), current, o) ==> visited@[o as int],
                decreases n - other,
            {
                if !visited[other] && self.is_joined(current, other) {
                    proof {
                        assert(self.bridges@.contains_key(bridge_key(current, other)));
                        assert(self.is_island(other as int));
                        assert(reached(self.islands@, self.states(), start, current as int));
                        lemma_linked_step(self.states(), start, current, other);
                    }
                    if !self.target_met(other) {
                        return false;
                    }
                    proof {
                        lemma_mark(
                            self.islands@,
                            self.states(),
                            start,
                            visited@,
                            pending@,
                            current,
                            other,
                        );
                    }
                    visited.set(other, true);
                    pending.push(other);
                    seen += 1;
                }
                other += 1;
            }
            proof {
                assert forall|o: usize| #[trigger]
                    joined(self.states(), current, o) implies o < visited@.len()
                    && visited@[o as int] by {
                    assert(self.bridges@.contains_key(bridge_key(current, o)));
                    assert(self.is_island(o as int));
                }
                assert(closed_at(self.states(), visited@, current));
            }
        }
        assert(pending@ =~= Seq::<usize>::empty());
        let mut index: usize = 0;
        while index < n
            invariant
                index <= n,
                n == self.islands@.len(),
                visited@.len() == n,
                self.is_island(start as int),
                visited@[start as int],
                explored(self.islands@, self.states(), start, visited@),
                settled(self.states(), visited@, Seq::<usize>::empty(), None),
                forall|i: int| 0 <= i < index && self.is_island(i) ==> visited@[i],
            decreases n - index,
        {
            if matches!(self.islands[index], Island::Bridged(_)) && !visited[index] {
                proof {
                    if linked(self.states(), start, index) {
                        lemma_walked(self.states(), visited@, start, index);
                    }
                    assert(self.is_island(index as int));
                }
                return false;
            }
            index += 1;
        }
        proof {
            assert forall|i: int| is_island(self.islands@, i) implies visited@[i] by {
                assert(self.is_island(i));
            }
            lemma_all_explored(self.islands@, self.states(), start, visited@);
        }
        true
    }
}

} // verus!
