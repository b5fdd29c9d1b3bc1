//! Closure of a set of nodes under the edges of a graph.

use crate::dataflow::{edges_within, Edge};
use vstd::prelude::*;

verus! {

/// Edge `k` is closed in `m`: if it is enabled and its source is in `m`, so
/// is its target.
pub open spec fn edge_closed(edges: Seq<Edge>, enabled: Seq<bool>, m: Seq<bool>, k: int) -> bool {
    enabled[k] && m[edges[k].from as int] ==> m[edges[k].to as int]
}

/// `m` is closed under every enabled edge.
pub open spec fn closed(edges: Seq<Edge>, enabled: Seq<bool>, m: Seq<bool>) -> bool {
    forall|k: int| 0 <= k < edges.len() ==> #[trigger] edge_closed(edges, enabled, m, k)
}

/// Every node of `a` is a node of `b`.
pub open spec fn subset(a: Seq<bool>, b: Seq<bool>) -> bool {
    &&& a.len() == b.len()
    &&& forall|i: int| 0 <= i < a.len() && #[trigger] a[i] ==> b[i]
}

/// `m` is the least set that contains `seed` and is closed under the enabled
/// edges: the nodes that can be reached from a seed node along them.
pub open spec fn is_closure(
    edges: Seq<Edge>,
    enabled: Seq<bool>,
    seed: Seq<bool>,
    m: Seq<bool>,
) -> bool {
    &&& subset(seed, m)
    &&& closed(edges, enabled, m)
    &&& forall|x: Seq<bool>| #[trigger]
        closed(edges, enabled, x) && subset(seed, x) ==> subset(m, x)
}

/// The closure of `seed` under the enabled edges.
pub open spec fn closure(edges: Seq<Edge>, enabled: Seq<bool>, seed: Seq<bool>) -> Seq<bool> {
    choose|m: Seq<bool>| is_closure(edges, enabled, seed, m)
}

/// Two sets that contain each other are the same set.
pub proof fn lemma_subset_antisymmetric(a: Seq<bool>, b: Seq<bool>)
    requires
        subset(a, b),
        subset(b, a),
    ensures
        a == b,
{
    assert forall|i: int| 0 <= i < a.len() implies a[i] == b[i] by {
        if a[i] {
            assert(b[i]);
        }
        if b[i] {
            assert(a[i]);
        }
    }
    assert(a =~= b);
}

/// A seed has at most one closure.
pub proof fn lemma_closure_unique(
    edges: Seq<Edge>,
    enabled: Seq<bool>,
    seed: Seq<bool>,
    a: Seq<bool>,
    b: Seq<bool>,
)
    requires
        is_closure(edges, enabled, seed, a),
        is_closure(edges, enabled, seed, b),
    ensures
        a == b,
{
    assert(subset(a, b));
    assert(subset(b, a));
    assert forall|i: int| 0 <= i < a.len() implies a[i] == b[i] by {
        if a[i] {
            assert(b[i]);
        }
        if b[i] {
            assert(a[i]);
        }
    }
    assert(a =~= b);
}

/// Number of nodes that are not in `m`.
pub open spec fn count_out(m: Seq<bool>) -> int
    decreases m.len(),
{
    if m.len() == 0 {
        0
    } else {
        count_out(m.drop_last()) + if m.last() {
            0int
        } else {
            1int
        }
    }
}

proof fn lemma_count_out_nonneg(m: Seq<bool>)
    ensures
        0 <= count_out(m),
    decreases m.len(),
{
    if m.len() > 0 {
        lemma_count_out_nonneg(m.drop_last());
    }
}

proof fn lemma_count_out_insert(m: Seq<bool>, i: int)
    requires
        0 <= i < m.len(),
        !m[i],
    ensures
        count_out(m.update(i, true)) == count_out(m) - 1,
    decreases m.len(),
{
    let y = m.update(i, true);
    if i == m.len() - 1 {
        assert(y.drop_last() =~= m.drop_last());
    } else {
        assert(y.drop_last() =~= m.drop_last().update(i, true));
        lemma_count_out_insert(m.drop_last(), i);
    }
}

/// Closes `seed` under the enabled edges of a graph with `seed.len()` nodes.
pub fn close(edges: &Vec<Edge>, enabled: &Vec<bool>, seed: Vec<bool>) -> (m: Vec<bool>)
    requires
        enabled.len() == edges.len(),
        edges_within(edges@, seed.len() as int),
    ensures
        m@ == closure(edges@, enabled@, seed@),
        is_closure(edges@, enabled@, seed@, m@),
{
    let ghost seed0 = seed@;
    let n = seed.len();
    let mut m = seed;
    proof {
        lemma_count_out_nonneg(m@);
    }
    loop
        invariant
            enabled.len() == edges.len(),
            edges_within(edges@, n as int),
            m.len() == n,
            seed0.len() == n,
            subset(seed0, m@),
            forall|x: Seq<bool>| #[trigger]
                closed(edges@, enabled@, x) && subset(seed0, x) ==> subset(m@, x),
            0 <= count_out(m@),
        ensures
            closed(edges@, enabled@, m@),
        decreases count_out(m@),
    {
        let ghost start = m@;
        let mut changed = false;
        let mut k: usize = 0;
        while k < edges.len()
            invariant
                k <= edges.len(),
                enabled.len() == edges.len(),
                edges_within(edges@, n as int),
                m.len() == n,
                seed0.len() == n,
                subset(seed0, m@),
                forall|x: Seq<bool>| #[trigger]
                    closed(edges@, enabled@, x) && subset(seed0, x) ==> subset(m@, x),
                0 <= count_out(m@),
                !changed ==> m@ == start,
                changed ==> count_out(m@) < count_out(start),
                !changed ==> forall|j: int|
                    0 <= j < k ==> #[trigger] edge_closed(edges@, enabled@, m@, j),
            decreases edges.len() - k,
        {
            let e = edges[k];
            if enabled[k] && m[e.from] && !m[e.to] {
                let ghost prev = m@;
                m.set(e.to, true);
                proof {
                    lemma_count_out_insert(prev, e.to as int);
                    lemma_count_out_nonneg(m@);
                    assert forall|x: Seq<bool>| #[trigger]
                        closed(edges@, enabled@, x) && subset(seed0, x) implies subset(m@, x) by {
                        assert(subset(prev, x));
                        assert(edge_closed(edges@, enabled@, x, k as int));
                        assert(prev[e.from as int]);
                        assert forall|i: int| 0 <= i < m@.len() && #[trigger] m@[i] implies x[i] by {
                            if i != e.to {
                                assert(prev[i]);
                            }
                        }
                    }
                    assert forall|i: int| 0 <= i < seed0.len() && #[trigger] seed0[i] implies m@[i] by {
                        assert(prev[i]);
                    }
                }
                changed = true;
            }
            k += 1;
        }
        if !changed {
            break ;
        }
    }
    proof {
        assert(is_closure(edges@, enabled@, seed0, m@));
        lemma_closure_unique(edges@, enabled@, seed0, m@, closure(edges@, enabled@, seed0));
    }
    m
}

} // verus!
