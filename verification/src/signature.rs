//! Resolved signatures: for each parameter of a function, whether the
//! reference it is given may be the one the function returns.

use crate::dataflow::{edges_within, Edge};
use crate::graph::{close, closure};
use crate::model::{Function, Outlives, Program};
use crate::scopes::check_signature;
use vstd::prelude::*;

verus! {

impl Function {
    /// The declared constraints as edges, each from a region to one that
    /// outlives it.
    pub open spec fn constraint_edges(&self) -> Seq<Edge> {
        self.outlives@.map_values(|o: Outlives| Edge { from: o.shorter, to: o.longer })
    }

    /// The region of the returned reference alone, as a set of region
    /// parameters.
    pub open spec fn ret_seed(&self) -> Seq<bool> {
        Seq::new(self.regions as nat, |r: int| self.ret == Some(r as usize))
    }

    /// The region parameters that outlive the region of the returned
    /// reference: that region itself, and whatever the declared constraints
    /// put above one of them.
    pub open spec fn outliving_ret(&self) -> Seq<bool> {
        closure(
            self.constraint_edges(),
            Seq::new(self.outlives@.len(), |k: int| true),
            self.ret_seed(),
        )
    }

    /// The reference passed for parameter `i` may be the one that is
    /// returned: the parameter is a reference whose region outlives the
    /// region of the returned reference.
    pub open spec fn passes_through(&self, i: int) -> bool {
        match self.params@[i].region {
            Some(r) => self.outliving_ret()[r as int],
            None => false,
        }
    }
}

/// The resolved signatures of a program: for each function with a sound
/// signature, and each of its parameters, whether the argument may pass
/// through to the result.
pub open spec fn resolves(prog: &Program, sigs: Seq<Vec<bool>>) -> bool {
    &&& sigs.len() == prog.functions@.len()
    &&& forall|c: int|
        0 <= c < sigs.len() && (#[trigger] prog.functions@[c]).signature_wf() ==> {
            &&& sigs[c]@.len() == prog.functions@[c].params@.len()
            &&& forall|i: int|
                0 <= i < sigs[c]@.len() ==> (#[trigger] sigs[c]@[i]) == prog.functions@[c].passes_through(
                    i,
                )
        }
}

/// Resolves the signature of `g`: for each parameter, whether its argument
/// may pass through to the result.
pub fn resolve_signature(g: &Function) -> (r: Vec<bool>)
    requires
        g.signature_wf(),
    ensures
        r@.len() == g.params@.len(),
        forall|i: int| 0 <= i < r@.len() ==> (#[trigger] r@[i]) == g.passes_through(i),
{
    let mut edges: Vec<Edge> = Vec::new();
    let mut enabled: Vec<bool> = Vec::new();
    let mut k: usize = 0;
    while k < g.outlives.len()
        invariant
            k <= g.outlives@.len(),
            g.signature_wf(),
            edges@.len() == k,
            enabled@.len() == k,
            forall|j: int| 0 <= j < k ==> (#[trigger] edges@[j]) == g.constraint_edges()[j],
            forall|j: int| 0 <= j < k ==> #[trigger] enabled@[j],
        decreases g.outlives@.len() - k,
    {
        edges.push(Edge { from: g.outlives[k].shorter, to: g.outlives[k].longer });
        enabled.push(true);
        k += 1;
    }
    assert(edges@ =~= g.constraint_edges());
    assert(enabled@ =~= Seq::new(g.outlives@.len(), |k: int| true));
    let mut seed: Vec<bool> = Vec::new();
    let mut r: usize = 0;
    while r < g.regions
        invariant
            r <= g.regions,
            seed@.len() == r,
            forall|q: int| 0 <= q < r ==> (#[trigger] seed@[q]) == (g.ret == Some(q as usize)),
        decreases g.regions - r,
    {
        let is_ret = match g.ret {
            Some(x) => x == r,
            None => false,
        };
        seed.push(is_ret);
        r += 1;
    }
    assert(seed@ =~= g.ret_seed());
    assert(edges_within(edges@, g.regions as int)) by {
        assert forall|j: int| 0 <= j < edges@.len() implies (#[trigger] edges@[j]).from < g.regions
            && edges@[j].to < g.regions by {
            assert(g.outlives@[j].longer < g.regions);
        }
    }
    let above = close(&edges, &enabled, seed);
    let mut out: Vec<bool> = Vec::new();
    let mut i: usize = 0;
    while i < g.params.len()
        invariant
            i <= g.params@.len(),
            g.signature_wf(),
            above@ == g.outliving_ret(),
            above@.len() == g.regions,
            out@.len() == i,
            forall|j: int| 0 <= j < i ==> (#[trigger] out@[j]) == g.passes_through(j),
        decreases g.params@.len() - i,
    {
        let through = match g.params[i].region {
            Some(x) => above[x],
            None => false,
        };
        out.push(through);
        i += 1;
    }
    out
}

/// Resolves the signature of every function of the program that has a sound
/// one. This is the one result that the analyses of different functions
/// share; it is computed once and only read afterwards.
pub fn resolve_signatures(prog: &Program) -> (sigs: Vec<Vec<bool>>)
    ensures
        resolves(prog, sigs@),
{
    let mut sigs: Vec<Vec<bool>> = Vec::new();
    let mut c: usize = 0;
    while c < prog.functions.len()
        invariant
            c <= prog.functions@.len(),
            sigs@.len() == c,
            forall|d: int|
                0 <= d < c && (#[trigger] prog.functions@[d]).signature_wf() ==> {
                    &&& sigs@[d]@.len() == prog.functions@[d].params@.len()
                    &&& forall|i: int|
                        0 <= i < sigs@[d]@.len() ==> (#[trigger] sigs@[d]@[i])
                            == prog.functions@[d].passes_through(i)
                },
        decreases prog.functions@.len() - c,
    {
        if check_signature(&prog.functions[c]) {
            sigs.push(resolve_signature(&prog.functions[c]));
        } else {
            sigs.push(Vec::new());
        }
        c += 1;
    }
    sigs
}

} // verus!
