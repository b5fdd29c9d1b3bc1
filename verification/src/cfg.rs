//! The control-flow graph of a function as a list of edges.

use crate::dataflow::{edges_within, Edge};
use crate::graph::{closed, edge_closed};
use crate::model::{Function, Program};
use vstd::prelude::*;

verus! {

impl Function {
    /// The `j`-th edge out of point `p`.
    pub open spec fn edge_at(&self, p: int, j: int) -> Edge {
        Edge { from: p as usize, to: self.stmts@[p].succs@[j] }
    }

    /// The first `upto` edges out of point `p`, in the order in which the
    /// statement lists its successors.
    pub open spec fn out_edges(&self, p: int, upto: int) -> Seq<Edge>
        decreases upto,
    {
        if upto <= 0 {
            Seq::empty()
        } else {
            self.out_edges(p, upto - 1).push(self.edge_at(p, upto - 1))
        }
    }

    /// The edges out of the points before `upto`, by source.
    pub open spec fn edges_before(&self, upto: int) -> Seq<Edge>
        decreases upto,
    {
        if upto <= 0 {
            Seq::empty()
        } else {
            self.edges_before(upto - 1) + self.out_edges(
                upto - 1,
                self.stmts@[upto - 1].succs@.len() as int,
            )
        }
    }

    /// Control may pass along `ed`: its target is a successor of its source.
    pub open spec fn has_edge(&self, ed: Edge) -> bool {
        exists|p: int, j: int|
            0 <= p < self.points() && 0 <= j < self.stmts@[p].succs@.len() && ed
                == #[trigger] self.edge_at(p, j)
    }

    /// `edges` holds the edges of the control-flow graph and nothing else.
    pub open spec fn lists_edges(&self, edges: Seq<Edge>) -> bool {
        &&& forall|k: int| 0 <= k < edges.len() ==> self.has_edge(#[trigger] edges[k])
        &&& forall|ed: Edge| #[trigger] self.has_edge(ed) ==> edges.contains(ed)
    }
}

/// In a sound function every edge joins two points.
pub proof fn lemma_edges_within(prog: &Program, f: &Function, edges: Seq<Edge>)
    requires
        f.well_formed(prog),
        f.lists_edges(edges),
    ensures
        edges_within(edges, f.points()),
{
    assert forall|k: int| 0 <= k < edges.len() implies (#[trigger] edges[k]).from < f.points()
        && edges[k].to < f.points() by {
        assert(f.has_edge(edges[k]));
        let (p, j) = choose|p: int, j: int|
            0 <= p < f.points() && 0 <= j < f.stmts@[p].succs@.len() && edges[k]
                == #[trigger] f.edge_at(p, j);
        assert(f.stmt_wf(prog, p));
    }
}

/// The edges of the control-flow graph of `f`, by source and then in the
/// order in which each statement lists its successors.
pub fn edge_list(f: &Function) -> (edges: Vec<Edge>)
    ensures
        edges@ == f.edges_before(f.points()),
        f.lists_edges(edges@),
{
    let mut edges: Vec<Edge> = Vec::new();
    let mut p: usize = 0;
    while p < f.stmts.len()
        invariant
            p <= f.points(),
            edges@ == f.edges_before(p as int),
            forall|k: int| 0 <= k < edges@.len() ==> f.has_edge(#[trigger] edges@[k]),
            forall|q: int, j: int|
                0 <= q < p && 0 <= j < f.stmts@[q].succs@.len() ==> edges@.contains(
                    #[trigger] f.edge_at(q, j),
                ),
        decreases f.points() - p,
    {
        let ghost head = edges@;
        let mut j: usize = 0;
        while j < f.stmts[p].succs.len()
            invariant
                p < f.points(),
                j <= f.stmts@[p as int].succs@.len(),
                edges@ == head + f.out_edges(p as int, j as int),
                forall|k: int| 0 <= k < edges@.len() ==> f.has_edge(#[trigger] edges@[k]),
                forall|q: int, i: int|
                    0 <= q < p && 0 <= i < f.stmts@[q].succs@.len() ==> edges@.contains(
                        #[trigger] f.edge_at(q, i),
                    ),
                forall|i: int| 0 <= i < j ==> edges@.contains(#[trigger] f.edge_at(p as int, i)),
            decreases f.stmts@[p as int].succs@.len() - j,
        {
            let ghost old_edges = edges@;
            let ed = Edge { from: p, to: f.stmts[p].succs[j] };
            edges.push(ed);
            proof {
                assert(ed == f.edge_at(p as int, j as int));
                assert(edges@ =~= head + f.out_edges(p as int, j + 1));
                assert(edges@[old_edges.len() as int] == ed);
                assert forall|q: int, i: int|
                    0 <= q < p && 0 <= i < f.stmts@[q].succs@.len() implies edges@.contains(
                    #[trigger] f.edge_at(q, i),
                ) by {
                    let k = choose|k: int|
                        0 <= k < old_edges.len() && old_edges[k] == f.edge_at(q, i);
                    assert(edges@[k] == f.edge_at(q, i));
                }
                assert forall|i: int| 0 <= i < j + 1 implies edges@.contains(
                    #[trigger] f.edge_at(p as int, i),
                ) by {
                    if i < j {
                        let k = choose|k: int|
                            0 <= k < old_edges.len() && old_edges[k] == f.edge_at(p as int, i);
                        assert(edges@[k] == f.edge_at(p as int, i));
                    }
                }
            }
            j += 1;
        }
        p += 1;
    }
    edges
}

/// The same edges, each turned around.
pub fn reversed(edges: &Vec<Edge>) -> (r: Vec<Edge>)
    ensures
        r@.len() == edges@.len(),
        forall|k: int|
            0 <= k < edges@.len() ==> (#[trigger] r@[k]) == (Edge {
                from: edges@[k].to,
                to: edges@[k].from,
            }),
{
    let mut r: Vec<Edge> = Vec::new();
    let mut k: usize = 0;
    while k < edges.len()
        invariant
            k <= edges@.len(),
            r@.len() == k,
            forall|i: int|
                0 <= i < k ==> (#[trigger] r@[i]) == (Edge {
                    from: edges@[i].to,
                    to: edges@[i].from,
                }),
        decreases edges@.len() - k,
    {
        r.push(Edge { from: edges[k].to, to: edges[k].from });
        k += 1;
    }
    r
}

/// `y` is closed under the edges of `f` that satisfy `pred`, followed from
/// source to target.
pub open spec fn closed_forward(f: &Function, pred: spec_fn(Edge) -> bool, y: Seq<bool>) -> bool {
    forall|ed: Edge| #[trigger] f.has_edge(ed) && pred(ed) && y[ed.from as int] ==> y[ed.to as int]
}

/// `y` is closed under the edges of `f` that satisfy `pred`, followed from
/// target to source.
pub open spec fn closed_backward(f: &Function, pred: spec_fn(Edge) -> bool, y: Seq<bool>) -> bool {
    forall|ed: Edge| #[trigger] f.has_edge(ed) && pred(ed) && y[ed.to as int] ==> y[ed.from as int]
}

/// Over a list of the edges of `f` with the edges that satisfy `pred`
/// enabled, being closed means being closed forward.
pub proof fn lemma_closed_forward(
    f: &Function,
    edges: Seq<Edge>,
    enabled: Seq<bool>,
    pred: spec_fn(Edge) -> bool,
    y: Seq<bool>,
)
    requires
        f.lists_edges(edges),
        enabled.len() == edges.len(),
        forall|k: int| 0 <= k < edges.len() ==> #[trigger] enabled[k] == pred(edges[k]),
    ensures
        closed(edges, enabled, y) == closed_forward(f, pred, y),
{
    if closed(edges, enabled, y) {
        assert forall|ed: Edge| #[trigger]
            f.has_edge(ed) && pred(ed) && y[ed.from as int] implies y[ed.to as int] by {
            assert(edges.contains(ed));
            let k = choose|k: int| 0 <= k < edges.len() && edges[k] == ed;
            assert(edge_closed(edges, enabled, y, k));
            assert(enabled[k] == pred(edges[k]));
        }
    }
    if closed_forward(f, pred, y) {
        assert forall|k: int| 0 <= k < edges.len() implies #[trigger] edge_closed(
            edges,
            enabled,
            y,
            k,
        ) by {
            assert(f.has_edge(edges[k]));
            assert(enabled[k] == pred(edges[k]));
        }
    }
}

/// Over the turned-around list of the edges of `f` with the edges that
/// satisfy `pred` enabled, being closed means being closed backward.
pub proof fn lemma_closed_backward(
    f: &Function,
    edges: Seq<Edge>,
    rev: Seq<Edge>,
    enabled: Seq<bool>,
    pred: spec_fn(Edge) -> bool,
    y: Seq<bool>,
)
    requires
        f.lists_edges(edges),
        enabled.len() == edges.len(),
        rev.len() == edges.len(),
        forall|k: int|
            0 <= k < edges.len() ==> (#[trigger] rev[k]) == (Edge {
                from: edges[k].to,
                to: edges[k].from,
            }),
        forall|k: int| 0 <= k < edges.len() ==> #[trigger] enabled[k] == pred(edges[k]),
    ensures
        closed(rev, enabled, y) == closed_backward(f, pred, y),
{
    if closed(rev, enabled, y) {
        assert forall|ed: Edge| #[trigger]
            f.has_edge(ed) && pred(ed) && y[ed.to as int] implies y[ed.from as int] by {
            assert(edges.contains(ed));
            let k = choose|k: int| 0 <= k < edges.len() && edges[k] == ed;
            assert(edge_closed(rev, enabled, y, k));
            assert(enabled[k] == pred(edges[k]));
            assert(rev[k].from == ed.to);
        }
    }
    if closed_backward(f, pred, y) {
        assert forall|k: int| 0 <= k < rev.len() implies #[trigger] edge_closed(
            rev,
            enabled,
            y,
            k,
        ) by {
            assert(f.has_edge(edges[k]));
            assert(enabled[k] == pred(edges[k]));
            assert(rev[k].from == edges[k].to);
        }
    }
}

} // verus!
