//! The borrow checker: which borrows a function creates, who holds each of
//! them, over which program points each is live, and which of them conflict.

use crate::cfg::{
    closed_backward, closed_forward, lemma_closed_backward, lemma_closed_forward,
    lemma_edges_within,
};
use crate::dataflow::{edges_within, Edge};
use crate::diag::{DiagKind, Finding};
use crate::graph::{close, closed, edge_closed, lemma_subset_antisymmetric, subset};
use crate::lattice::PlaceState;
use crate::model::{AccessMode, BorrowKind, Function, Program, StmtKind};
use crate::ownership::{covers, status, Ownership};
use crate::seqs::{lemma_contains_add, lemma_contains_push};
use crate::signature::resolves;
use vstd::prelude::*;

verus! {

/// A borrow: a reference that an operand of a statement creates.
#[derive(Debug, Clone, Copy, PartialEq, Eq, Structural)]
pub struct Borrow {
    pub kind: BorrowKind,
    /// The place that is borrowed.
    pub target: usize,
    /// The point of the statement that creates the borrow.
    pub point: usize,
    /// Which operand of that statement creates it.
    pub operand: usize,
    /// The place that receives the reference, if one does.
    pub receiver: Option<usize>,
}

impl Function {
    /// The place that receives the value of operand `i` of the statement at
    /// `p`: the place that the statement assigns, except that what is
    /// returned goes to the caller, and an argument of a call reaches the
    /// result only if the signature of the callee lets it pass through.
    pub open spec fn receiver(&self, prog: &Program, p: int, i: int) -> Option<usize> {
        match self.stmts@[p].kind {
            StmtKind::Return => None,
            StmtKind::Call(c) => if prog.functions@[c as int].passes_through(i) {
                self.stmts@[p].assigns
            } else {
                None
            },
            _ => self.stmts@[p].assigns,
        }
    }

    /// The borrow that operand `i` of the statement at `p` creates, if it
    /// creates one.
    pub open spec fn borrow_at(&self, prog: &Program, p: int, i: int) -> Option<Borrow> {
        let a = self.stmts@[p].uses@[i];
        match a.mode {
            AccessMode::Borrow(kind) => Some(
                Borrow {
                    kind,
                    target: a.place,
                    point: p as usize,
                    operand: i as usize,
                    receiver: self.receiver(prog, p, i),
                },
            ),
            _ => None,
        }
    }

    /// `b` is a borrow that a statement of the function creates.
    pub open spec fn is_borrow(&self, prog: &Program, b: Borrow) -> bool {
        &&& b.point < self.points()
        &&& b.operand < self.stmts@[b.point as int].uses@.len()
        &&& b.target < self.places()
        &&& match b.receiver {
            Some(r) => r < self.places(),
            None => true,
        }
        &&& self.borrow_at(prog, b.point as int, b.operand as int) == Some(b)
    }

    /// The borrows that the operands before `upto` of the statement at `p`
    /// create, in operand order.
    pub open spec fn borrows_in(&self, prog: &Program, p: int, upto: int) -> Seq<Borrow>
        decreases upto,
    {
        if upto <= 0 {
            Seq::empty()
        } else {
            match self.borrow_at(prog, p, upto - 1) {
                Some(b) => self.borrows_in(prog, p, upto - 1).push(b),
                None => self.borrows_in(prog, p, upto - 1),
            }
        }
    }

    /// The borrows that the statements before point `upto` create, by point
    /// and then by operand.
    pub open spec fn borrows(&self, prog: &Program, upto: int) -> Seq<Borrow>
        decreases upto,
    {
        if upto <= 0 {
            Seq::empty()
        } else {
            self.borrows(prog, upto - 1) + self.borrows_in(
                prog,
                upto - 1,
                self.stmts@[upto - 1].uses@.len() as int,
            )
        }
    }

    /// The value flow that operand `i` of the statement at `p` causes: from
    /// the place that it takes by value to the place that receives the
    /// value.
    pub open spec fn flow_of(&self, prog: &Program, p: int, i: int) -> Option<Edge> {
        let a = self.stmts@[p].uses@[i];
        match self.receiver(prog, p, i) {
            Some(d) => if a.mode == AccessMode::Use {
                Some(Edge { from: a.place, to: d })
            } else {
                None
            },
            None => None,
        }
    }

    /// The value flows that the operands before `upto` of the statement at
    /// `p` cause, in operand order.
    pub open spec fn flows_in(&self, prog: &Program, p: int, upto: int) -> Seq<Edge>
        decreases upto,
    {
        if upto <= 0 {
            Seq::empty()
        } else {
            match self.flow_of(prog, p, upto - 1) {
                Some(ed) => self.flows_in(prog, p, upto - 1).push(ed),
                None => self.flows_in(prog, p, upto - 1),
            }
        }
    }

    /// The value flows that the statements before point `upto` cause, by
    /// point and then by operand.
    pub open spec fn flows_before(&self, prog: &Program, upto: int) -> Seq<Edge>
        decreases upto,
    {
        if upto <= 0 {
            Seq::empty()
        } else {
            self.flows_before(prog, upto - 1) + self.flows_in(
                prog,
                upto - 1,
                self.stmts@[upto - 1].uses@.len() as int,
            )
        }
    }

    /// Operand `i` of the statement at `p` hands the value of place
    /// `ed.from` on to place `ed.to`.
    pub open spec fn flow_at(&self, prog: &Program, p: int, i: int, ed: Edge) -> bool {
        &&& 0 <= p < self.points()
        &&& 0 <= i < self.stmts@[p].uses@.len()
        &&& self.stmts@[p].uses@[i].mode == AccessMode::Use
        &&& self.stmts@[p].uses@[i].place == ed.from
        &&& self.receiver(prog, p, i) == Some(ed.to)
    }

    /// Some statement hands the value of place `ed.from` on to place
    /// `ed.to`; a reference held by the one may afterwards be held by the
    /// other.
    pub open spec fn flows(&self, prog: &Program, ed: Edge) -> bool {
        exists|p: int, i: int| #[trigger] self.flow_at(prog, p, i, ed)
    }

    /// `fl` holds the value flows between places and nothing else.
    pub open spec fn lists_flows(&self, prog: &Program, fl: Seq<Edge>) -> bool {
        &&& forall|k: int| 0 <= k < fl.len() ==> self.flows(prog, #[trigger] fl[k])
        &&& forall|ed: Edge| #[trigger] self.flows(prog, ed) ==> fl.contains(ed)
    }

    /// `x` is a set of places that contains the receiver of a reference and
    /// every place that a value may flow to from one of its members.
    pub open spec fn is_holders(&self, prog: &Program, recv: Option<usize>, x: Seq<bool>) -> bool {
        &&& x.len() == self.places()
        &&& match recv {
            Some(r) => x[r as int],
            None => true,
        }
        &&& forall|ed: Edge| #[trigger] self.flows(prog, ed) && x[ed.from as int] ==> x[ed.to as int]
    }

    /// `x` is the least set of holders for `recv`.
    pub open spec fn is_least_holders(
        &self,
        prog: &Program,
        recv: Option<usize>,
        x: Seq<bool>,
    ) -> bool {
        &&& self.is_holders(prog, recv, x)
        &&& forall|y: Seq<bool>| #[trigger] self.is_holders(prog, recv, y) ==> subset(x, y)
    }

    /// The places that may come to hold a reference first received by
    /// `recv`: the least set of places that contains `recv` and is closed
    /// under value flow. Empty for a reference that no place receives.
    pub open spec fn holders(&self, prog: &Program, recv: Option<usize>) -> Seq<bool> {
        choose|x: Seq<bool>| self.is_least_holders(prog, recv, x)
    }
}

/// A reference has at most one least set of holders.
pub proof fn lemma_holders_unique(
    f: &Function,
    prog: &Program,
    recv: Option<usize>,
    x: Seq<bool>,
    y: Seq<bool>,
)
    requires
        f.is_least_holders(prog, recv, x),
        f.is_least_holders(prog, recv, y),
    ensures
        x == y,
{
    assert(subset(x, y));
    assert(subset(y, x));
    assert forall|i: int| 0 <= i < x.len() implies x[i] == y[i] by {
        if x[i] {
            assert(y[i]);
        }
        if y[i] {
            assert(x[i]);
        }
    }
    assert(x =~= y);
}

/// The place that receives the value of operand `i` of the statement at `p`.
pub fn receiver(prog: &Program, f: &Function, sigs: &Vec<Vec<bool>>, p: usize, i: usize) -> (r:
    Option<usize>)
    requires
        f.well_formed(prog),
        resolves(prog, sigs@),
        p < f.points(),
        i < f.stmts@[p as int].uses@.len(),
    ensures
        r == f.receiver(prog, p as int, i as int),
        match r {
            Some(d) => d < f.places(),
            None => true,
        },
{
    assert(f.stmt_wf(prog, p as int));
    match f.stmts[p].kind {
        StmtKind::Return => None,
        StmtKind::Call(c) => {
            assert(prog.functions@[c as int].signature_wf());
            if sigs[c][i] {
                f.stmts[p].assigns
            } else {
                None
            }
        },
        _ => f.stmts[p].assigns,
    }
}

/// The borrows that `f` creates, by point and then by operand.
pub fn collect_borrows(prog: &Program, f: &Function, sigs: &Vec<Vec<bool>>) -> (r: Vec<Borrow>)
    requires
        f.well_formed(prog),
        resolves(prog, sigs@),
    ensures
        r@ == f.borrows(prog, f.points()),
        forall|k: int| 0 <= k < r@.len() ==> f.is_borrow(prog, #[trigger] r@[k]),
        forall|i: int, j: int| 0 <= i <= j < r@.len() ==> r@[i].point <= r@[j].point,
{
    let mut r: Vec<Borrow> = Vec::new();
    let mut p: usize = 0;
    while p < f.stmts.len()
        invariant
            p <= f.points(),
            f.well_formed(prog),
            resolves(prog, sigs@),
            r@ == f.borrows(prog, p as int),
            forall|k: int| 0 <= k < r@.len() ==> f.is_borrow(prog, #[trigger] r@[k]),
            forall|k: int| 0 <= k < r@.len() ==> (#[trigger] r@[k]).point < p,
            forall|i: int, j: int| 0 <= i <= j < r@.len() ==> r@[i].point <= r@[j].point,
        decreases f.points() - p,
    {
        let ghost head = r@;
        assert(f.stmt_wf(prog, p as int));
        let mut i: usize = 0;
        while i < f.stmts[p].uses.len()
            invariant
                p < f.points(),
                i <= f.stmts@[p as int].uses@.len(),
                f.well_formed(prog),
                f.refs_fit(prog, p as int),
                resolves(prog, sigs@),
                r@ == head + f.borrows_in(prog, p as int, i as int),
                forall|k: int| 0 <= k < r@.len() ==> f.is_borrow(prog, #[trigger] r@[k]),
                forall|k: int| 0 <= k < r@.len() ==> (#[trigger] r@[k]).point <= p,
                forall|i: int, j: int| 0 <= i <= j < r@.len() ==> r@[i].point <= r@[j].point,
            decreases f.stmts@[p as int].uses@.len() - i,
        {
            let a = f.stmts[p].uses[i];
            match a.mode {
                AccessMode::Borrow(kind) => {
                    let recv = receiver(prog, f, sigs, p, i);
                    r.push(Borrow { kind, target: a.place, point: p, operand: i, receiver: recv });
                },
                _ => {},
            }
            assert(r@ =~= head + f.borrows_in(prog, p as int, i + 1));
            i += 1;
        }
        p += 1;
    }
    r
}

/// The value flows between the places of `f`, by point and then by operand.
pub fn flow_list(prog: &Program, f: &Function, sigs: &Vec<Vec<bool>>) -> (fl: Vec<Edge>)
    requires
        f.well_formed(prog),
        resolves(prog, sigs@),
    ensures
        fl@ == f.flows_before(prog, f.points()),
        f.lists_flows(prog, fl@),
        edges_within(fl@, f.places()),
{
    let mut fl: Vec<Edge> = Vec::new();
    let mut p: usize = 0;
    while p < f.stmts.len()
        invariant
            p <= f.points(),
            fl@ == f.flows_before(prog, p as int),
            f.well_formed(prog),
            resolves(prog, sigs@),
            edges_within(fl@, f.places()),
            forall|k: int| 0 <= k < fl@.len() ==> f.flows(prog, #[trigger] fl@[k]),
            forall|q: int, i: int, ed: Edge|
                0 <= q < p && #[trigger] f.flow_at(prog, q, i, ed) ==> fl@.contains(ed),
        decreases f.points() - p,
    {
        assert(f.stmt_wf(prog, p as int));
        let ghost head = fl@;
        let mut i: usize = 0;
        while i < f.stmts[p].uses.len()
            invariant
                p < f.points(),
                i <= f.stmts@[p as int].uses@.len(),
                f.well_formed(prog),
                f.refs_fit(prog, p as int),
                resolves(prog, sigs@),
                fl@ == head + f.flows_in(prog, p as int, i as int),
                edges_within(fl@, f.places()),
                forall|k: int| 0 <= k < fl@.len() ==> f.flows(prog, #[trigger] fl@[k]),
                forall|q: int, j: int, ed: Edge|
                    0 <= q < p && #[trigger] f.flow_at(prog, q, j, ed) ==> fl@.contains(ed),
                forall|j: int, ed: Edge|
                    0 <= j < i && #[trigger] f.flow_at(prog, p as int, j, ed) ==> fl@.contains(ed),
            decreases f.stmts@[p as int].uses@.len() - i,
        {
            let a = f.stmts[p].uses[i];
            let by_value = match a.mode {
                AccessMode::Use => true,
                _ => false,
            };
            let ghost old_fl = fl@;
            if by_value {
                match receiver(prog, f, sigs, p, i) {
                    Some(d) => {
                        let ed = Edge { from: a.place, to: d };
                        fl.push(ed);
                        assert(fl@[old_fl.len() as int] == ed);
                        assert(f.flow_at(prog, p as int, i as int, ed));
                    },
                    None => {},
                }
            }
            proof {
                assert(fl@ =~= head + f.flows_in(prog, p as int, i + 1));
                assert forall|x: Edge| old_fl.contains(x) implies fl@.contains(x) by {
                    let k = choose|k: int| 0 <= k < old_fl.len() && old_fl[k] == x;
                    assert(fl@[k] == x);
                }
                assert forall|j: int, ed: Edge|
                    0 <= j < i + 1 && #[trigger] f.flow_at(
                        prog,
                        p as int,
                        j,
                        ed,
                    ) implies fl@.contains(ed) by {
                    if j < i {
                        assert(old_fl.contains(ed));
                    } else {
                        assert(fl@[old_fl.len() as int] == ed);
                    }
                }
            }
            i += 1;
        }
        p += 1;
    }
    fl
}

/// The places that may come to hold a reference first received by `recv`.
pub fn holders(prog: &Program, f: &Function, flows: &Vec<Edge>, recv: Option<usize>) -> (h: Vec<
    bool,
>)
    requires
        f.lists_flows(prog, flows@),
        edges_within(flows@, f.places()),
        match recv {
            Some(r) => r < f.places(),
            None => true,
        },
    ensures
        h@ == f.holders(prog, recv),
        f.is_least_holders(prog, recv, h@),
{
    let mut seed: Vec<bool> = Vec::new();
    let mut c: usize = 0;
    while c < f.bindings.len()
        invariant
            c <= f.places(),
            seed@.len() == c,
            forall|d: int| 0 <= d < c ==> (#[trigger] seed@[d]) == (recv == Some(d as usize)),
        decreases f.places() - c,
    {
        let is_recv = match recv {
            Some(r) => r == c,
            None => false,
        };
        seed.push(is_recv);
        c += 1;
    }
    let mut enabled: Vec<bool> = Vec::new();
    let mut k: usize = 0;
    while k < flows.len()
        invariant
            k <= flows@.len(),
            enabled@.len() == k,
            forall|j: int| 0 <= j < k ==> #[trigger] enabled@[j],
        decreases flows@.len() - k,
    {
        enabled.push(true);
        k += 1;
    }
    let ghost seed0 = seed@;
    let h = close(flows, &enabled, seed);
    proof {
        assert forall|y: Seq<bool>| y.len() == f.places() implies (f.is_holders(prog, recv, y) == (
        closed(flows@, enabled@, y) && subset(seed0, y))) by {
            if f.is_holders(prog, recv, y) {
                assert forall|k: int| 0 <= k < flows@.len() implies #[trigger] edge_closed(
                    flows@,
                    enabled@,
                    y,
                    k,
                ) by {
                    assert(f.flows(prog, flows@[k]));
                }
                assert(subset(seed0, y));
            }
            if closed(flows@, enabled@, y) && subset(seed0, y) {
                assert forall|ed: Edge| #[trigger]
                    f.flows(prog, ed) && y[ed.from as int] implies y[ed.to as int] by {
                    assert(flows@.contains(ed));
                    let k = choose|k: int| 0 <= k < flows@.len() && flows@[k] == ed;
                    assert(edge_closed(flows@, enabled@, y, k));
                }
                match recv {
                    Some(r) => {
                        assert(seed0[r as int]);
                    },
                    None => {},
                }
            }
        }
        assert(f.is_holders(prog, recv, h@));
        assert forall|y: Seq<bool>| #[trigger] f.is_holders(prog, recv, y) implies subset(
            h@,
            y,
        ) by {
            assert(closed(flows@, enabled@, y) && subset(seed0, y));
        }
        lemma_holders_unique(f, prog, recv, h@, f.holders(prog, recv));
    }
    h
}

impl Function {
    /// The statement at `a` gives entry `h` a new value or declares it
    /// anew, so that whatever `h` held before is gone.
    pub open spec fn defines(&self, a: int, h: int) -> bool {
        self.assigned(a, h) || self.declared_by(a, h)
    }

    /// The statement at `a` overwrites every place of `hold`: a reference
    /// that only these places hold does not survive it.
    pub open spec fn kills(&self, a: int, hold: Seq<bool>) -> bool {
        forall|h: int| 0 <= h < self.places() && hold[h] ==> #[trigger] self.defines(a, h)
    }

    /// Operand `i` of the statement at `q` touches place `h`.
    pub open spec fn touches(&self, q: int, i: int, h: int) -> bool {
        self.overlaps(h, self.stmts@[q].uses@[i].place as int)
    }

    /// An operand of the statement at `q` touches a place of `hold`.
    pub open spec fn uses_any(&self, q: int, hold: Seq<bool>) -> bool {
        exists|i: int, h: int|
            0 <= i < self.stmts@[q].uses@.len() && 0 <= h < self.places() && hold[h]
                && #[trigger] self.touches(q, i, h)
    }

    /// The edges along which a reference created at `origin` and held by
    /// `hold` survives: those out of `origin`, and those out of statements
    /// that do not overwrite all its holders.
    pub open spec fn carries(&self, origin: int, hold: Seq<bool>) -> spec_fn(Edge) -> bool {
        |ed: Edge| ed.from == origin || !self.kills(ed.from as int, hold)
    }

    /// The edges out of statements that do not overwrite all of `hold`.
    pub open spec fn transparent(&self, hold: Seq<bool>) -> spec_fn(Edge) -> bool {
        |ed: Edge| !self.kills(ed.from as int, hold)
    }

    /// `x` is a set of points that contains `origin` and every point that a
    /// reference created there and held by `hold` passes on to from one of its
    /// members.
    pub open spec fn is_reach(&self, origin: int, hold: Seq<bool>, x: Seq<bool>) -> bool {
        &&& x.len() == self.points()
        &&& x[origin]
        &&& closed_forward(self, self.carries(origin, hold), x)
    }

    /// `x` is the least such set.
    pub open spec fn is_least_reach(&self, origin: int, hold: Seq<bool>, x: Seq<bool>) -> bool {
        &&& self.is_reach(origin, hold, x)
        &&& forall|y: Seq<bool>| #[trigger] self.is_reach(origin, hold, y) ==> subset(x, y)
    }

    /// The points that a reference created at `origin` and held by `hold`
    /// can reach: `origin`, and every point at the end of a path from it on
    /// which no statement after `origin` overwrites all holders.
    pub open spec fn reach(&self, origin: int, hold: Seq<bool>) -> Seq<bool> {
        choose|x: Seq<bool>| self.is_least_reach(origin, hold, x)
    }

    /// `x` is a set of points that contains every use of a place of `hold` and,
    /// with each of its members, every predecessor that does not overwrite all
    /// of `hold`.
    pub open spec fn is_live(&self, hold: Seq<bool>, x: Seq<bool>) -> bool {
        &&& x.len() == self.points()
        &&& forall|q: int| 0 <= q < self.points() && #[trigger] self.uses_any(q, hold) ==> x[q]
        &&& closed_backward(self, self.transparent(hold), x)
    }

    /// `x` is the least such set.
    pub open spec fn is_least_live(&self, hold: Seq<bool>, x: Seq<bool>) -> bool {
        &&& self.is_live(hold, x)
        &&& forall|y: Seq<bool>| #[trigger] self.is_live(hold, y) ==> subset(x, y)
    }

    /// The points at which what `hold` holds is still needed: the points
    /// that use a place of `hold`, and every point from which such a use can
    /// be reached before all of `hold` is overwritten.
    pub open spec fn live(&self, hold: Seq<bool>) -> Seq<bool> {
        choose|x: Seq<bool>| self.is_least_live(hold, x)
    }

    /// The region of a reference created at `origin` and held by `hold`: the
    /// point of its creation, and every point that it reaches and at which
    /// it is still needed.
    pub open spec fn region(&self, origin: int, hold: Seq<bool>) -> Seq<bool> {
        Seq::new(
            self.points() as nat,
            |q: int| q == origin || (self.reach(origin, hold)[q] && self.live(hold)[q]),
        )
    }

    /// The region of borrow `b`.
    pub open spec fn borrow_region(&self, prog: &Program, b: Borrow) -> Seq<bool> {
        self.region(b.point as int, self.holders(prog, b.receiver))
    }
}

/// Whether the statement at `a` gives entry `h` a new value or declares it.
fn defines(prog: &Program, f: &Function, a: usize, h: usize) -> (r: bool)
    requires
        f.well_formed(prog),
        a < f.points(),
        h < f.places(),
    ensures
        r == f.defines(a as int, h as int),
{
    let assigned = match f.stmts[a].assigns {
        Some(t) => covers(f, t, h),
        None => false,
    };
    let declared = match f.stmts[a].kind {
        StmtKind::Declare(b) => covers(f, b, h),
        _ => false,
    };
    assigned || declared
}

/// For each point, whether its statement overwrites every place of `hold`.
fn kill_points(prog: &Program, f: &Function, hold: &Vec<bool>) -> (r: Vec<bool>)
    requires
        f.well_formed(prog),
        hold@.len() == f.places(),
    ensures
        r@.len() == f.points(),
        forall|a: int| 0 <= a < f.points() ==> (#[trigger] r@[a]) == f.kills(a, hold@),
{
    let mut r: Vec<bool> = Vec::new();
    let mut a: usize = 0;
    while a < f.stmts.len()
        invariant
            a <= f.points(),
            f.well_formed(prog),
            hold@.len() == f.places(),
            r@.len() == a,
            forall|q: int| 0 <= q < a ==> (#[trigger] r@[q]) == f.kills(q, hold@),
        decreases f.points() - a,
    {
        let mut all = true;
        let mut h: usize = 0;
        while h < f.bindings.len()
            invariant
                h <= f.places(),
                a < f.points(),
                f.well_formed(prog),
                hold@.len() == f.places(),
                all == (forall|g: int| 0 <= g < h && hold@[g] ==> #[trigger] f.defines(a as int, g)),
            decreases f.places() - h,
        {
            if hold[h] && !defines(prog, f, a, h) {
                all = false;
            }
            h += 1;
        }
        r.push(all);
        a += 1;
    }
    r
}

/// Whether a place of `hold` shares storage with `place`.
pub fn touched(f: &Function, hold: &Vec<bool>, place: usize) -> (r: bool)
    requires
        hold@.len() == f.places(),
        place < f.places(),
    ensures
        r == (exists|h: int| 0 <= h < f.places() && hold@[h] && #[trigger] f.overlaps(h, place as int)),
{
    let mut h: usize = 0;
    while h < f.bindings.len()
        invariant
            h <= f.places(),
            hold@.len() == f.places(),
            place < f.places(),
            forall|g: int| 0 <= g < h && hold@[g] ==> !#[trigger] f.overlaps(g, place as int),
        decreases f.places() - h,
    {
        if hold[h] && (covers(f, h, place) || covers(f, place, h)) {
            assert(f.overlaps(h as int, place as int));
            return true;
        }
        h += 1;
    }
    false
}

/// For each point, whether an operand of its statement touches a place of
/// `hold`.
fn use_points(prog: &Program, f: &Function, hold: &Vec<bool>) -> (r: Vec<bool>)
    requires
        f.well_formed(prog),
        hold@.len() == f.places(),
    ensures
        r@.len() == f.points(),
        forall|q: int| 0 <= q < f.points() ==> (#[trigger] r@[q]) == f.uses_any(q, hold@),
{
    let mut r: Vec<bool> = Vec::new();
    let mut q: usize = 0;
    while q < f.stmts.len()
        invariant
            q <= f.points(),
            f.well_formed(prog),
            hold@.len() == f.places(),
            r@.len() == q,
            forall|a: int| 0 <= a < q ==> (#[trigger] r@[a]) == f.uses_any(a, hold@),
        decreases f.points() - q,
    {
        assert(f.stmt_wf(prog, q as int));
        let mut any = false;
        let mut i: usize = 0;
        while i < f.stmts[q].uses.len()
            invariant
                q < f.points(),
                i <= f.stmts@[q as int].uses@.len(),
                f.refs_fit(prog, q as int),
                hold@.len() == f.places(),
                any == (exists|j: int, h: int|
                    0 <= j < i && 0 <= h < f.places() && hold@[h] && #[trigger] f.touches(
                        q as int,
                        j,
                        h,
                    )),
            decreases f.stmts@[q as int].uses@.len() - i,
        {
            let place = f.stmts[q].uses[i].place;
            let t = touched(f, hold, place);
            proof {
                if t {
                    let h = choose|h: int|
                        0 <= h < f.places() && hold@[h] && #[trigger] f.overlaps(h, place as int);
                    assert(f.touches(q as int, i as int, h));
                }
                if exists|j: int, h: int|
                    0 <= j < i + 1 && 0 <= h < f.places() && hold@[h] && #[trigger] f.touches(
                        q as int,
                        j,
                        h,
                    ) {
                    let (j, h) = choose|j: int, h: int|
                        0 <= j < i + 1 && 0 <= h < f.places() && hold@[h] && #[trigger] f.touches(
                            q as int,
                            j,
                            h,
                        );
                    if j == i {
                        assert(f.overlaps(h, place as int));
                    } else {
                        assert(f.touches(q as int, j, h));
                    }
                }
            }
            if t {
                any = true;
            }
            i += 1;
        }
        r.push(any);
        q += 1;
    }
    r
}

/// The region of a reference created at `origin` and held by `hold`, over a
/// list of the edges of `f` and the same list turned around.
pub fn region(
    prog: &Program,
    f: &Function,
    edges: &Vec<Edge>,
    rev: &Vec<Edge>,
    origin: usize,
    hold: &Vec<bool>,
) -> (r: Vec<bool>)
    requires
        f.well_formed(prog),
        f.lists_edges(edges@),
        rev@.len() == edges@.len(),
        forall|k: int|
            0 <= k < edges@.len() ==> (#[trigger] rev@[k]) == (Edge {
                from: edges@[k].to,
                to: edges@[k].from,
            }),
        origin < f.points(),
        hold@.len() == f.places(),
    ensures
        r@ == f.region(origin as int, hold@),
{
    let n = f.stmts.len();
    let kills = kill_points(prog, f, hold);
    let uses = use_points(prog, f, hold);
    proof {
        lemma_edges_within(prog, f, edges@);
        assert(edges_within(rev@, n as int)) by {
            assert forall|k: int| 0 <= k < rev@.len() implies (#[trigger] rev@[k]).from < n
                && rev@[k].to < n by {
                assert(edges@[k].from < n);
            }
        }
    }
    let mut fwd_on: Vec<bool> = Vec::new();
    let mut bwd_on: Vec<bool> = Vec::new();
    let mut k: usize = 0;
    while k < edges.len()
        invariant
            k <= edges@.len(),
            n == f.points(),
            edges_within(edges@, n as int),
            kills@.len() == n,
            forall|a: int| 0 <= a < n ==> (#[trigger] kills@[a]) == f.kills(a, hold@),
            fwd_on@.len() == k,
            bwd_on@.len() == k,
            forall|j: int|
                0 <= j < k ==> (#[trigger] fwd_on@[j]) == f.carries(origin as int, hold@)(edges@[j]),
            forall|j: int| 0 <= j < k ==> (#[trigger] bwd_on@[j]) == f.transparent(hold@)(edges@[j]),
        decreases edges@.len() - k,
    {
        let from = edges[k].from;
        fwd_on.push(from == origin || !kills[from]);
        bwd_on.push(!kills[from]);
        k += 1;
    }
    let mut seed: Vec<bool> = Vec::new();
    let mut q: usize = 0;
    while q < n
        invariant
            q <= n,
            seed@.len() == q,
            forall|a: int| 0 <= a < q ==> (#[trigger] seed@[a]) == (a == origin),
        decreases n - q,
    {
        seed.push(q == origin);
        q += 1;
    }
    let ghost seed0 = seed@;
    let ghost uses0 = uses@;
    let fwd = close(edges, &fwd_on, seed);
    let live = close(rev, &bwd_on, uses);
    proof {
        let carries = f.carries(origin as int, hold@);
        let transparent = f.transparent(hold@);
        assert forall|y: Seq<bool>| y.len() == n implies f.is_reach(origin as int, hold@, y) == (
        closed(edges@, fwd_on@, y) && subset(seed0, y)) by {
            lemma_closed_forward(f, edges@, fwd_on@, carries, y);
            if y[origin as int] {
                assert(subset(seed0, y));
            }
            if subset(seed0, y) {
                assert(seed0[origin as int]);
            }
        }
        assert(f.is_reach(origin as int, hold@, fwd@));
        assert forall|y: Seq<bool>| #[trigger] f.is_reach(origin as int, hold@, y) implies subset(
            fwd@,
            y,
        ) by {
            assert(closed(edges@, fwd_on@, y) && subset(seed0, y));
        }
        assert(f.is_least_reach(origin as int, hold@, fwd@));
        let fwd2 = f.reach(origin as int, hold@);
        assert(f.is_least_reach(origin as int, hold@, fwd2));
        assert(subset(fwd@, fwd2));
        assert(subset(fwd2, fwd@));
        lemma_subset_antisymmetric(fwd@, fwd2);

        assert forall|y: Seq<bool>| y.len() == n implies f.is_live(hold@, y) == (closed(
            rev@,
            bwd_on@,
            y,
        ) && subset(uses0, y)) by {
            lemma_closed_backward(f, edges@, rev@, bwd_on@, transparent, y);
            if subset(uses0, y) {
                assert forall|q: int| 0 <= q < n && #[trigger] f.uses_any(q, hold@) implies y[q] by {
                    assert(uses0[q]);
                }
            }
            if f.is_live(hold@, y) {
                assert forall|q: int| 0 <= q < n && #[trigger] uses0[q] implies y[q] by {
                    assert(f.uses_any(q, hold@));
                }
            }
        }
        assert(f.is_live(hold@, live@));
        assert forall|y: Seq<bool>| #[trigger] f.is_live(hold@, y) implies subset(live@, y) by {
            assert(closed(rev@, bwd_on@, y) && subset(uses0, y));
        }
        assert(f.is_least_live(hold@, live@));
        let live2 = f.live(hold@);
        assert(f.is_least_live(hold@, live2));
        assert(subset(live@, live2));
        assert(subset(live2, live@));
        lemma_subset_antisymmetric(live@, live2);
    }
    let mut r: Vec<bool> = Vec::new();
    let mut q: usize = 0;
    while q < n
        invariant
            q <= n,
            n == f.points(),
            fwd@.len() == n,
            live@.len() == n,
            r@.len() == q,
            forall|a: int|
                0 <= a < q ==> (#[trigger] r@[a]) == (a == origin || (fwd@[a] && live@[a])),
        decreases n - q,
    {
        r.push(q == origin || (fwd[q] && live[q]));
        q += 1;
    }
    assert(r@ =~= f.region(origin as int, hold@));
    r
}

/// Some point lies in both regions.
pub open spec fn regions_meet(ra: Seq<bool>, rb: Seq<bool>) -> bool {
    exists|q: int| 0 <= q < ra.len() && q < rb.len() && ra[q] && #[trigger] rb[q]
}

impl Function {
    /// Borrows `a` and `b` conflict: their targets share storage, at least
    /// one of them is exclusive, and their regions have a point in common.
    pub open spec fn conflict(&self, prog: &Program, a: Borrow, b: Borrow) -> bool {
        &&& self.overlaps(a.target as int, b.target as int)
        &&& (a.kind == BorrowKind::Exclusive || b.kind == BorrowKind::Exclusive)
        &&& regions_meet(self.borrow_region(prog, a), self.borrow_region(prog, b))
    }

    /// What is reported for borrow `b` against the earlier borrow `a`: a
    /// conflict at the creation of `b`, if the two conflict.
    pub open spec fn conflict_finding(&self, prog: &Program, a: Borrow, b: Borrow) -> Option<
        Finding,
    > {
        if self.conflict(prog, a, b) {
            Some(
                Finding {
                    kind: DiagKind::ConflictingBorrow,
                    point: b.point,
                    place: b.target,
                    related: Some(a.point),
                },
            )
        } else {
            None
        }
    }

    /// The conflicts of borrow `j` of `bs` with the borrows before `upto`.
    pub open spec fn conflicts_with(&self, prog: &Program, bs: Seq<Borrow>, j: int, upto: int) -> Seq<
        Finding,
    >
        decreases upto,
    {
        if upto <= 0 {
            Seq::empty()
        } else {
            match self.conflict_finding(prog, bs[upto - 1], bs[j]) {
                Some(x) => self.conflicts_with(prog, bs, j, upto - 1).push(x),
                None => self.conflicts_with(prog, bs, j, upto - 1),
            }
        }
    }

    /// The conflicts of each borrow before `upto` with the borrows before
    /// it.
    pub open spec fn conflict_findings(&self, prog: &Program, bs: Seq<Borrow>, upto: int) -> Seq<
        Finding,
    >
        decreases upto,
    {
        if upto <= 0 {
            Seq::empty()
        } else {
            self.conflict_findings(prog, bs, upto - 1) + self.conflicts_with(
                prog,
                bs,
                upto - 1,
                upto - 1,
            )
        }
    }

    /// What is reported for the creation of borrow `b` by itself: a borrow of
    /// an invalid value, unless the target holds a value at that moment.
    pub open spec fn invalid_finding(&self, b: Borrow) -> Option<Finding> {
        if self.status(b.point as int, b.operand as int, b.target as int) == PlaceState::Live {
            None
        } else {
            Some(
                Finding {
                    kind: DiagKind::BorrowOfInvalidValue,
                    point: b.point,
                    place: b.target,
                    related: None,
                },
            )
        }
    }

    /// The borrows of invalid values among the borrows before `upto`.
    pub open spec fn invalid_findings(&self, bs: Seq<Borrow>, upto: int) -> Seq<Finding>
        decreases upto,
    {
        if upto <= 0 {
            Seq::empty()
        } else {
            match self.invalid_finding(bs[upto - 1]) {
                Some(x) => self.invalid_findings(bs, upto - 1).push(x),
                None => self.invalid_findings(bs, upto - 1),
            }
        }
    }

    /// The place that the statement at `p` changes directly in its `i`-th
    /// slot: a slot for each operand, which changes its place if it writes
    /// to it, and a last slot for the place that the statement assigns.
    pub open spec fn mutated(&self, p: int, i: int) -> Option<usize> {
        let st = self.stmts@[p];
        if i < st.uses@.len() {
            if st.uses@[i].mode == AccessMode::Write {
                Some(st.uses@[i].place)
            } else {
                None
            }
        } else {
            st.assigns
        }
    }

    /// What is reported for a direct change of place `t` at point `p`
    /// against borrow `b`: a conflict at `p` if `b` was created elsewhere,
    /// its target shares storage with `t`, and `p` lies in its region.
    pub open spec fn mutation_finding(&self, prog: &Program, p: int, t: int, b: Borrow) -> Option<
        Finding,
    > {
        if b.point != p && self.overlaps(b.target as int, t) && self.borrow_region(prog, b)[p] {
            Some(
                Finding {
                    kind: DiagKind::ConflictingBorrow,
                    point: p as usize,
                    place: t as usize,
                    related: Some(b.point),
                },
            )
        } else {
            None
        }
    }

    /// The conflicts of a direct change of place `t` at point `p` with the
    /// borrows before `upto`.
    pub open spec fn mutation_findings_for(
        &self,
        prog: &Program,
        bs: Seq<Borrow>,
        p: int,
        t: int,
        upto: int,
    ) -> Seq<Finding>
        decreases upto,
    {
        if upto <= 0 {
            Seq::empty()
        } else {
            match self.mutation_finding(prog, p, t, bs[upto - 1]) {
                Some(x) => self.mutation_findings_for(prog, bs, p, t, upto - 1).push(x),
                None => self.mutation_findings_for(prog, bs, p, t, upto - 1),
            }
        }
    }

    /// The conflicts of the direct changes in the slots before `upto` of the
    /// statement at `p` with any borrow.
    pub open spec fn mutation_findings_in(&self, prog: &Program, bs: Seq<Borrow>, p: int, upto: int) -> Seq<
        Finding,
    >
        decreases upto,
    {
        if upto <= 0 {
            Seq::empty()
        } else {
            match self.mutated(p, upto - 1) {
                Some(t) => self.mutation_findings_in(prog, bs, p, upto - 1)
                    + self.mutation_findings_for(prog, bs, p, t as int, bs.len() as int),
                None => self.mutation_findings_in(prog, bs, p, upto - 1),
            }
        }
    }

    /// The conflicts of the direct changes by the statements before point
    /// `upto` with any borrow.
    pub open spec fn mutation_findings(&self, prog: &Program, bs: Seq<Borrow>, upto: int) -> Seq<
        Finding,
    >
        decreases upto,
    {
        if upto <= 0 {
            Seq::empty()
        } else {
            self.mutation_findings(prog, bs, upto - 1) + self.mutation_findings_in(
                prog,
                bs,
                upto - 1,
                self.stmts@[upto - 1].uses@.len() as int + 1,
            )
        }
    }

    /// The findings of the borrow checker: borrows of invalid values, then
    /// conflicts between borrows, then conflicts of direct changes with
    /// borrows.
    pub open spec fn borrow_findings(&self, prog: &Program) -> Seq<Finding> {
        let bs = self.borrows(prog, self.points());
        self.invalid_findings(bs, bs.len() as int) + self.conflict_findings(
            prog,
            bs,
            bs.len() as int,
        ) + self.mutation_findings(prog, bs, self.points())
    }
}

/// The borrows of a function with their regions.
#[derive(Debug, Clone, PartialEq, Eq)]
pub struct BorrowSet {
    /// The borrows, by point of creation and then by operand.
    pub borrows: Vec<Borrow>,
    /// The value flows between the places of the function.
    pub flows: Vec<Edge>,
    /// For each borrow, the places that may come to hold the reference.
    pub holders: Vec<Vec<bool>>,
    /// For each borrow, for each point, whether the borrow is live there.
    pub regions: Vec<Vec<bool>>,
}

impl BorrowSet {
    /// The set holds the borrows of `f`, each with its holders and region.
    pub open spec fn describes(&self, prog: &Program, f: &Function) -> bool {
        &&& self.borrows@ == f.borrows(prog, f.points())
        &&& self.flows@ == f.flows_before(prog, f.points())
        &&& f.lists_flows(prog, self.flows@)
        &&& edges_within(self.flows@, f.places())
        &&& self.regions@.len() == self.borrows@.len()
        &&& self.holders@.len() == self.borrows@.len()
        &&& forall|k: int| 0 <= k < self.borrows@.len() ==> f.is_borrow(prog, #[trigger] self.borrows@[k])
        &&& forall|i: int, j: int|
            0 <= i <= j < self.borrows@.len() ==> self.borrows@[i].point <= self.borrows@[j].point
        &&& forall|k: int|
            0 <= k < self.borrows@.len() ==> (#[trigger] self.regions@[k])@ == f.borrow_region(
                prog,
                self.borrows@[k],
            )
        &&& forall|k: int|
            0 <= k < self.borrows@.len() ==> (#[trigger] self.holders@[k])@ == f.holders(
                prog,
                self.borrows@[k].receiver,
            ) && self.holders@[k]@.len() == f.places()
    }
}

/// Collects the borrows of `f` and computes the holders and the region of
/// each.
pub fn find_borrows(prog: &Program, f: &Function, sigs: &Vec<Vec<bool>>, edges: &Vec<Edge>) -> (set:
    BorrowSet)
    requires
        f.well_formed(prog),
        resolves(prog, sigs@),
        f.lists_edges(edges@),
    ensures
        set.describes(prog, f),
{
    let borrows = collect_borrows(prog, f, sigs);
    let flows = flow_list(prog, f, sigs);
    let rev = crate::cfg::reversed(edges);
    let mut regions: Vec<Vec<bool>> = Vec::new();
    let mut all_holders: Vec<Vec<bool>> = Vec::new();
    let mut k: usize = 0;
    while k < borrows.len()
        invariant
            k <= borrows@.len(),
            f.well_formed(prog),
            f.lists_edges(edges@),
            f.lists_flows(prog, flows@),
            edges_within(flows@, f.places()),
            rev@.len() == edges@.len(),
            forall|j: int|
                0 <= j < edges@.len() ==> (#[trigger] rev@[j]) == (Edge {
                    from: edges@[j].to,
                    to: edges@[j].from,
                }),
            forall|j: int| 0 <= j < borrows@.len() ==> f.is_borrow(prog, #[trigger] borrows@[j]),
            regions@.len() == k,
            all_holders@.len() == k,
            forall|j: int|
                0 <= j < k ==> (#[trigger] regions@[j])@ == f.borrow_region(prog, borrows@[j]),
            forall|j: int|
                0 <= j < k ==> (#[trigger] all_holders@[j])@ == f.holders(
                    prog,
                    borrows@[j].receiver,
                ) && all_holders@[j]@.len() == f.places(),
        decreases borrows@.len() - k,
    {
        let b = borrows[k];
        assert(f.is_borrow(prog, b));
        let hold = holders(prog, f, &flows, b.receiver);
        let reg = region(prog, f, edges, &rev, b.point, &hold);
        regions.push(reg);
        all_holders.push(hold);
        k += 1;
    }
    BorrowSet { borrows, flows, holders: all_holders, regions }
}

/// Whether some point lies in both regions.
fn regions_meet_at(ra: &Vec<bool>, rb: &Vec<bool>) -> (r: bool)
    ensures
        r == regions_meet(ra@, rb@),
{
    let mut q: usize = 0;
    while q < ra.len() && q < rb.len()
        invariant
            forall|a: int| 0 <= a < q && a < ra@.len() && a < rb@.len() && ra@[a] ==> !#[trigger] rb@[a],
        decreases ra@.len() - q,
    {
        if ra[q] && rb[q] {
            return true;
        }
        q += 1;
    }
    false
}

/// Whether places `a` and `b` share storage.
pub fn overlaps(f: &Function, a: usize, b: usize) -> (r: bool)
    requires
        a < f.places(),
        b < f.places(),
    ensures
        r == f.overlaps(a as int, b as int),
{
    covers(f, a, b) || covers(f, b, a)
}

/// Appends to `out` the conflicts of borrow `j` with the borrows before it.
fn push_conflicts(prog: &Program, f: &Function, set: &BorrowSet, j: usize, out: &mut Vec<Finding>)
    requires
        set.describes(prog, f),
        j < set.borrows@.len(),
    ensures
        final(out)@ == old(out)@ + f.conflicts_with(prog, set.borrows@, j as int, j as int),
{
    let ghost head = out@;
    let b = set.borrows[j];
    assert(f.is_borrow(prog, b));
    let mut i: usize = 0;
    while i < j
        invariant
            i <= j,
            j < set.borrows@.len(),
            set.describes(prog, f),
            b == set.borrows@[j as int],
            f.is_borrow(prog, b),
            out@ == head + f.conflicts_with(prog, set.borrows@, j as int, i as int),
        decreases j - i,
    {
        let a = set.borrows[i];
        assert(f.is_borrow(prog, a));
        let exclusive = match (a.kind, b.kind) {
            (BorrowKind::Shared, BorrowKind::Shared) => false,
            _ => true,
        };
        assert(set.regions@[i as int]@ == f.borrow_region(prog, a));
        assert(set.regions@[j as int]@ == f.borrow_region(prog, b));
        if exclusive && overlaps(f, a.target, b.target) && regions_meet_at(
            &set.regions[i],
            &set.regions[j],
        ) {
            out.push(
                Finding {
                    kind: DiagKind::ConflictingBorrow,
                    point: b.point,
                    place: b.target,
                    related: Some(a.point),
                },
            );
        }
        assert(out@ =~= head + f.conflicts_with(prog, set.borrows@, j as int, i + 1));
        i += 1;
    }
}

/// Appends to `out` the conflicts of a direct change of place `t` at point
/// `p` with any borrow.
fn push_mutation_conflicts(
    prog: &Program,
    f: &Function,
    set: &BorrowSet,
    p: usize,
    t: usize,
    out: &mut Vec<Finding>,
)
    requires
        set.describes(prog, f),
        p < f.points(),
        t < f.places(),
    ensures
        final(out)@ == old(out)@ + f.mutation_findings_for(
            prog,
            set.borrows@,
            p as int,
            t as int,
            set.borrows@.len() as int,
        ),
{
    let ghost head = out@;
    let mut k: usize = 0;
    while k < set.borrows.len()
        invariant
            k <= set.borrows@.len(),
            set.describes(prog, f),
            p < f.points(),
            t < f.places(),
            out@ == head + f.mutation_findings_for(prog, set.borrows@, p as int, t as int, k as int),
        decreases set.borrows@.len() - k,
    {
        let b = set.borrows[k];
        assert(f.is_borrow(prog, b));
        assert(set.regions@[k as int]@ == f.borrow_region(prog, b));
        if b.point != p && overlaps(f, b.target, t) && set.regions[k][p] {
            out.push(
                Finding {
                    kind: DiagKind::ConflictingBorrow,
                    point: p,
                    place: t,
                    related: Some(b.point),
                },
            );
        }
        assert(out@ =~= head + f.mutation_findings_for(
            prog,
            set.borrows@,
            p as int,
            t as int,
            k + 1,
        ));
        k += 1;
    }
}

/// The findings of the borrow checker: for each borrow of a place that does
/// not hold a value, a `BorrowOfInvalidValue` at its creation; for each pair
/// of conflicting borrows, a `ConflictingBorrow` at the creation of the later
/// one; for each direct change of a place in the region of a borrow of it
/// that was created elsewhere, a `ConflictingBorrow` at the change.
pub fn borrow_findings(prog: &Program, f: &Function, own: &Ownership, set: &BorrowSet) -> (r: Vec<
    Finding,
>)
    requires
        f.well_formed(prog),
        own.describes(f),
        set.describes(prog, f),
    ensures
        r@ == f.borrow_findings(prog),
{
    let mut r: Vec<Finding> = Vec::new();
    let mut k: usize = 0;
    while k < set.borrows.len()
        invariant
            k <= set.borrows@.len(),
            f.well_formed(prog),
            own.describes(f),
            set.describes(prog, f),
            r@ == f.invalid_findings(set.borrows@, k as int),
        decreases set.borrows@.len() - k,
    {
        let b = set.borrows[k];
        assert(f.is_borrow(prog, b));
        match status(prog, f, own, b.point, b.operand, b.target) {
            PlaceState::Live => {},
            _ => {
                r.push(
                    Finding {
                        kind: DiagKind::BorrowOfInvalidValue,
                        point: b.point,
                        place: b.target,
                        related: None,
                    },
                );
            },
        }
        k += 1;
    }
    let ghost invalid = r@;
    let mut j: usize = 0;
    while j < set.borrows.len()
        invariant
            j <= set.borrows@.len(),
            set.describes(prog, f),
            r@ == invalid + f.conflict_findings(prog, set.borrows@, j as int),
        decreases set.borrows@.len() - j,
    {
        push_conflicts(prog, f, set, j, &mut r);
        assert(r@ =~= invalid + f.conflict_findings(prog, set.borrows@, j + 1));
        j += 1;
    }
    let ghost head = r@;
    let mut p: usize = 0;
    while p < f.stmts.len()
        invariant
            p <= f.points(),
            f.well_formed(prog),
            set.describes(prog, f),
            r@ == head + f.mutation_findings(prog, set.borrows@, p as int),
        decreases f.points() - p,
    {
        let ghost at_p = r@;
        assert(f.stmt_wf(prog, p as int));
        let slots = f.stmts[p].uses.len();
        let mut i: usize = 0;
        while i < slots
            invariant
                p < f.points(),
                slots == f.stmts@[p as int].uses@.len(),
                i <= slots,
                f.well_formed(prog),
                f.refs_fit(prog, p as int),
                set.describes(prog, f),
                r@ == at_p + f.mutation_findings_in(prog, set.borrows@, p as int, i as int),
            decreases slots - i,
        {
            let a = f.stmts[p].uses[i];
            let writes = match a.mode {
                AccessMode::Write => true,
                _ => false,
            };
            if writes {
                push_mutation_conflicts(prog, f, set, p, a.place, &mut r);
            }
            assert(r@ =~= at_p + f.mutation_findings_in(prog, set.borrows@, p as int, i + 1));
            i += 1;
        }
        match f.stmts[p].assigns {
            Some(t) => {
                push_mutation_conflicts(prog, f, set, p, t, &mut r);
            },
            None => {},
        }
        assert(r@ =~= at_p + f.mutation_findings_in(prog, set.borrows@, p as int, slots + 1));
        assert(r@ =~= head + f.mutation_findings(prog, set.borrows@, p + 1));
        p += 1;
    }
    assert(r@ =~= f.borrow_findings(prog));
    r
}

/// Two shared borrows never conflict, whatever their targets and regions.
pub proof fn lemma_shared_borrows_agree(f: &Function, prog: &Program, a: Borrow, b: Borrow)
    requires
        a.kind == BorrowKind::Shared,
        b.kind == BorrowKind::Shared,
    ensures
        !f.conflict(prog, a, b),
        f.conflict_finding(prog, a, b) is None,
{
}

/// An exclusive borrow conflicts with every other borrow of overlapping
/// storage whose region overlaps its own: for two such borrows of the
/// function the borrow checker emits a `ConflictingBorrow` at the creation
/// of the later one.
pub proof fn lemma_exclusive_borrow_conflicts(f: &Function, prog: &Program, i: int, j: int)
    requires
        0 <= i < j < f.borrows(prog, f.points()).len(),
        f.overlaps(
            f.borrows(prog, f.points())[i].target as int,
            f.borrows(prog, f.points())[j].target as int,
        ),
        f.borrows(prog, f.points())[i].kind == BorrowKind::Exclusive || f.borrows(
            prog,
            f.points(),
        )[j].kind == BorrowKind::Exclusive,
        regions_meet(
            f.borrow_region(prog, f.borrows(prog, f.points())[i]),
            f.borrow_region(prog, f.borrows(prog, f.points())[j]),
        ),
    ensures
        f.borrow_findings(prog).contains(
            Finding {
                kind: DiagKind::ConflictingBorrow,
                point: f.borrows(prog, f.points())[j].point,
                place: f.borrows(prog, f.points())[j].target,
                related: Some(f.borrows(prog, f.points())[i].point),
            },
        ),
{
    let bs = f.borrows(prog, f.points());
    let x = Finding {
        kind: DiagKind::ConflictingBorrow,
        point: bs[j].point,
        place: bs[j].target,
        related: Some(bs[i].point),
    };
    assert(f.conflict_finding(prog, bs[i], bs[j]) == Some(x));
    lemma_conflicts_with_hold(f, prog, bs, i, j, j, x);
    lemma_conflict_findings_hold(f, prog, bs, j, bs.len() as int, x);
    let invalid = f.invalid_findings(bs, bs.len() as int);
    let conflicts = f.conflict_findings(prog, bs, bs.len() as int);
    let mutations = f.mutation_findings(prog, bs, f.points());
    lemma_contains_add(invalid, conflicts, x);
    lemma_contains_add(invalid + conflicts, mutations, x);
}

proof fn lemma_conflicts_with_hold(
    f: &Function,
    prog: &Program,
    bs: Seq<Borrow>,
    i: int,
    j: int,
    upto: int,
    x: Finding,
)
    requires
        0 <= i < upto,
        f.conflict_finding(prog, bs[i], bs[j]) == Some(x),
    ensures
        f.conflicts_with(prog, bs, j, upto).contains(x),
    decreases upto,
{
    let before = f.conflicts_with(prog, bs, j, upto - 1);
    if i < upto - 1 {
        lemma_conflicts_with_hold(f, prog, bs, i, j, upto - 1, x);
        match f.conflict_finding(prog, bs[upto - 1], bs[j]) {
            Some(y) => {
                lemma_contains_push(before, y, x);
            },
            None => {},
        }
    } else {
        lemma_contains_push(before, x, x);
    }
}

proof fn lemma_conflict_findings_hold(
    f: &Function,
    prog: &Program,
    bs: Seq<Borrow>,
    j: int,
    upto: int,
    x: Finding,
)
    requires
        0 <= j < upto,
        f.conflicts_with(prog, bs, j, j).contains(x),
    ensures
        f.conflict_findings(prog, bs, upto).contains(x),
    decreases upto,
{
    let before = f.conflict_findings(prog, bs, upto - 1);
    let here = f.conflicts_with(prog, bs, upto - 1, upto - 1);
    if j < upto - 1 {
        lemma_conflict_findings_hold(f, prog, bs, j, upto - 1, x);
    }
    lemma_contains_add(before, here, x);
}

} // verus!
