//! Forward dataflow for one place over a control-flow graph: the most
//! permissive assignment of states to program points that respects every
//! edge, found by iterating to a fixpoint.

use crate::lattice::{Effect, PlaceState};
use vstd::prelude::*;

verus! {

/// A directed edge of a graph whose nodes are numbered from zero.
#[derive(Debug, Clone, Copy, PartialEq, Eq, Structural)]
pub struct Edge {
    pub from: usize,
    pub to: usize,
}

/// Every endpoint of every edge is a node below `n`.
pub open spec fn edges_within(edges: Seq<Edge>, n: int) -> bool {
    forall|k: int| 0 <= k < edges.len() ==> (#[trigger] edges[k]).from < n && edges[k].to < n
}

/// State of the place after the statement at point `p`, if `x` gives the
/// states on entry to each point.
pub open spec fn out_state(effects: Seq<Effect>, x: Seq<PlaceState>, p: int) -> PlaceState {
    effects[p].apply_spec(x[p])
}

/// Edge `k` is respected by `x`: the state on entry to its target is no more
/// permissive than the state on leaving its source.
pub open spec fn edge_respected(
    edges: Seq<Edge>,
    effects: Seq<Effect>,
    x: Seq<PlaceState>,
    k: int,
) -> bool {
    x[edges[k].to as int].leq(out_state(effects, x, edges[k].from as int))
}

/// `x` assigns a state to every point, starts no higher than `entry` at
/// point 0, and respects every edge.
pub open spec fn is_solution(
    edges: Seq<Edge>,
    effects: Seq<Effect>,
    entry: PlaceState,
    x: Seq<PlaceState>,
) -> bool {
    &&& x.len() == effects.len()
    &&& x.len() > 0
    &&& x[0].leq(entry)
    &&& forall|k: int| 0 <= k < edges.len() ==> #[trigger] edge_respected(edges, effects, x, k)
}

/// `x` is pointwise at most as permissive as `y`.
pub open spec fn below(x: Seq<PlaceState>, y: Seq<PlaceState>) -> bool {
    &&& x.len() == y.len()
    &&& forall|p: int| 0 <= p < x.len() ==> (#[trigger] x[p]).leq(y[p])
}

/// `x` is a solution and every solution lies below it.
pub open spec fn is_greatest_solution(
    edges: Seq<Edge>,
    effects: Seq<Effect>,
    entry: PlaceState,
    x: Seq<PlaceState>,
) -> bool {
    &&& is_solution(edges, effects, entry, x)
    &&& forall|y: Seq<PlaceState>| #[trigger]
        is_solution(edges, effects, entry, y) ==> below(y, x)
}

/// The greatest solution of a flow problem.
pub open spec fn greatest_solution(
    edges: Seq<Edge>,
    effects: Seq<Effect>,
    entry: PlaceState,
) -> Seq<PlaceState> {
    choose|x: Seq<PlaceState>| is_greatest_solution(edges, effects, entry, x)
}

/// A flow problem has at most one greatest solution.
pub proof fn lemma_greatest_solution_unique(
    edges: Seq<Edge>,
    effects: Seq<Effect>,
    entry: PlaceState,
    x: Seq<PlaceState>,
    y: Seq<PlaceState>,
)
    requires
        is_greatest_solution(edges, effects, entry, x),
        is_greatest_solution(edges, effects, entry, y),
    ensures
        x == y,
{
    assert(below(x, y));
    assert(below(y, x));
    assert forall|p: int| 0 <= p < x.len() implies x[p] == y[p] by {
        assert(x[p].leq(y[p]));
        assert(y[p].leq(x[p]));
    }
    assert(x =~= y);
}

/// In the greatest solution the state on entry to a point is the meet of
/// what flows into it: any `v` that is below the state leaving each
/// predecessor (and below `entry`, for point 0) is below the state at `p`.
pub proof fn lemma_greatest_is_tight(
    edges: Seq<Edge>,
    effects: Seq<Effect>,
    entry: PlaceState,
    x: Seq<PlaceState>,
    p: int,
    v: PlaceState,
)
    requires
        is_greatest_solution(edges, effects, entry, x),
        edges_within(edges, x.len() as int),
        0 <= p < x.len(),
        p == 0 ==> v.leq(entry),
        forall|k: int|
            0 <= k < edges.len() && (#[trigger] edges[k]).to == p ==> v.leq(
                out_state(effects, x, edges[k].from as int),
            ),
    ensures
        v.leq(x[p]),
{
    if !v.leq(x[p]) {
        let y = x.update(p, v);
        assert forall|k: int| 0 <= k < edges.len() implies #[trigger] edge_respected(
            edges,
            effects,
            y,
            k,
        ) by {
            assert(edge_respected(edges, effects, x, k));
            let a = edges[k].from as int;
            let b = edges[k].to as int;
            assert(x[a].leq(y[a]));
            assert(out_state(effects, x, a).leq(out_state(effects, y, a)));
        }
        assert(is_solution(edges, effects, entry, y));
        assert(below(y, x));
        assert(y[p].leq(x[p]));
    }
}

/// A solution never lets a place be better on entry to a point than it was
/// on leaving a predecessor: what is `Moved` after the source of an edge is
/// `Moved` at its target.
pub proof fn lemma_moved_flows_along_edge(
    edges: Seq<Edge>,
    effects: Seq<Effect>,
    entry: PlaceState,
    x: Seq<PlaceState>,
    k: int,
)
    requires
        is_solution(edges, effects, entry, x),
        0 <= k < edges.len(),
        out_state(effects, x, edges[k].from as int) == PlaceState::Moved,
    ensures
        x[edges[k].to as int] == PlaceState::Moved,
{
    assert(edge_respected(edges, effects, x, k));
}

/// Sum of the heights of all states in `x`.
pub open spec fn total_rank(x: Seq<PlaceState>) -> int
    decreases x.len(),
{
    if x.len() == 0 {
        0
    } else {
        total_rank(x.drop_last()) + x.last().rank()
    }
}

proof fn lemma_total_rank_bounds(x: Seq<PlaceState>)
    ensures
        0 <= total_rank(x) <= 2 * x.len(),
    decreases x.len(),
{
    if x.len() > 0 {
        lemma_total_rank_bounds(x.drop_last());
    }
}

proof fn lemma_total_rank_update(x: Seq<PlaceState>, i: int, v: PlaceState)
    requires
        0 <= i < x.len(),
    ensures
        total_rank(x.update(i, v)) == total_rank(x) - x[i].rank() + v.rank(),
    decreases x.len(),
{
    let y = x.update(i, v);
    if i == x.len() - 1 {
        assert(y.drop_last() =~= x.drop_last());
    } else {
        assert(y.drop_last() =~= x.drop_last().update(i, v));
        lemma_total_rank_update(x.drop_last(), i, v);
    }
}

/// Solves the flow problem for one place.
///
/// `effects[p]` is what the statement at point `p` does to the place and
/// `entry` is the state of the place on entry to point 0. The first result
/// holds, for each point, the state on entry to it: the greatest solution of
/// the problem. The second result is the number of passes over the edge list
/// that were made; each pass but the last lowers the state of at least one
/// point, so there are at most `2 * points + 1` of them.
pub fn solve(edges: &Vec<Edge>, effects: &Vec<Effect>, entry: PlaceState) -> (r: (
    Vec<PlaceState>,
    usize,
))
    requires
        effects.len() > 0,
        edges_within(edges@, effects.len() as int),
    ensures
        r.0@ == greatest_solution(edges@, effects@, entry),
        is_greatest_solution(edges@, effects@, entry, r.0@),
        1 <= r.1 <= 2 * effects.len() + 1,
{
    let n = effects.len();
    let mut states: Vec<PlaceState> = Vec::new();
    let mut p: usize = 0;
    while p < n
        invariant
            p <= n,
            states.len() == p,
            forall|q: int| 0 <= q < p ==> states[q] == PlaceState::Live,
        decreases n - p,
    {
        states.push(PlaceState::Live);
        p += 1;
    }
    states.set(0, entry);
    proof {
        lemma_total_rank_bounds(states@);
        assert forall|y: Seq<PlaceState>| #[trigger]
            is_solution(edges@, effects@, entry, y) implies below(y, states@) by {
            assert forall|q: int| 0 <= q < y.len() implies (#[trigger] y[q]).leq(states@[q]) by {}
        }
    }
    let mut passes: usize = 0;
    loop
        invariant_except_break
            passes + total_rank(states@) <= 2 * n,
        invariant
            n == effects.len(),
            n > 0,
            edges_within(edges@, n as int),
            states.len() == n,
            states[0].leq(entry),
            forall|y: Seq<PlaceState>| #[trigger]
                is_solution(edges@, effects@, entry, y) ==> below(y, states@),
            0 <= total_rank(states@),
        ensures
            is_solution(edges@, effects@, entry, states@),
            forall|y: Seq<PlaceState>| #[trigger]
                is_solution(edges@, effects@, entry, y) ==> below(y, states@),
            1 <= passes <= 2 * n + 1,
        decreases total_rank(states@),
    {
        let ghost start = states@;
        let mut changed = false;
        let mut k: usize = 0;
        while k < edges.len()
            invariant
                k <= edges.len(),
                n == effects.len(),
                n > 0,
                edges_within(edges@, n as int),
                states.len() == n,
                states[0].leq(entry),
                forall|y: Seq<PlaceState>| #[trigger]
                    is_solution(edges@, effects@, entry, y) ==> below(y, states@),
                0 <= total_rank(states@),
                !changed ==> states@ == start,
                changed ==> total_rank(states@) < total_rank(start),
                !changed ==> forall|j: int|
                    0 <= j < k ==> #[trigger] edge_respected(edges@, effects@, states@, j),
            decreases edges.len() - k,
        {
            let e = edges[k];
            let v = effects[e.from].apply(states[e.from]).meet(states[e.to]);
            if v != states[e.to] {
                let ghost prev = states@;
                states.set(e.to, v);
                proof {
                    lemma_total_rank_update(prev, e.to as int, v);
                    lemma_total_rank_bounds(states@);
                    assert forall|y: Seq<PlaceState>| #[trigger]
                        is_solution(edges@, effects@, entry, y) implies below(y, states@) by {
                        assert(below(y, prev));
                        assert(edge_respected(edges@, effects@, y, k as int));
                        assert(y[e.from as int].leq(prev[e.from as int]));
                        assert forall|q: int| 0 <= q < y.len() implies (#[trigger] y[q]).leq(
                            states@[q],
                        ) by {
                            assert(y[q].leq(prev[q]));
                        }
                    }
                }
                changed = true;
            }
            k += 1;
        }
        if passes < usize::MAX {
            passes += 1;
        }
        if !changed {
            break ;
        }
    }
    proof {
        assert(is_greatest_solution(edges@, effects@, entry, states@));
        lemma_greatest_solution_unique(
            edges@,
            effects@,
            entry,
            states@,
            greatest_solution(edges@, effects@, entry),
        );
    }
    (states, passes)
}

} // verus!
