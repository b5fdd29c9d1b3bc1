//! The ownership analyzer: for every place and every program point, whether
//! the place holds a value there, has not been given one yet, or has had it
//! moved away.

use crate::dataflow::{below, edge_respected, edges_within, is_solution, solve, Edge};
use crate::cfg::lemma_edges_within;
use crate::lattice::{Effect, PlaceState};
use crate::model::{Access, AccessMode, Function, Program, StmtKind, ValueKind};
use crate::scopes::{is_param, Tracker};
use crate::seqs::{lemma_contains_add, lemma_contains_push};
use crate::diag::{DiagKind, Finding};
use vstd::prelude::*;

verus! {

impl Function {
    /// The operand takes its place by value and the place is `MoveOnly`, so
    /// the value leaves the place.
    pub open spec fn moves(&self, a: Access) -> bool {
        a.mode == AccessMode::Use && self.bindings@[a.place as int].kind == ValueKind::MoveOnly
    }

    /// Operand `j` of the statement at `p` moves the value out of entry `e`.
    pub open spec fn moves_place(&self, p: int, j: int, e: int) -> bool {
        let a = self.stmts@[p].uses@[j];
        self.moves(a) && a.place == e
    }

    /// Some operand before operand `i` of the statement at `p` moves the
    /// value out of entry `e`.
    pub open spec fn moved_before(&self, p: int, i: int, e: int) -> bool {
        exists|j: int| 0 <= j < i && #[trigger] self.moves_place(p, j, e)
    }

    /// The statement at `p` gives entry `e` a value.
    pub open spec fn assigned(&self, p: int, e: int) -> bool {
        match self.stmts@[p].assigns {
            Some(t) => self.covers(t as int, e),
            None => false,
        }
    }

    /// The statement at `p` declares the binding of entry `e`.
    pub open spec fn declared_by(&self, p: int, e: int) -> bool {
        match self.stmts@[p].kind {
            StmtKind::Declare(b) => self.covers(b as int, e),
            _ => false,
        }
    }

    /// What the statement at `p` does to entry `e`. A value given last wins
    /// over a move by an operand, which wins over the declaration.
    pub open spec fn effect(&self, p: int, e: int) -> Effect {
        if self.assigned(p, e) {
            Effect::Becomes(PlaceState::Live)
        } else if self.moved_before(p, self.stmts@[p].uses@.len() as int, e) {
            Effect::Becomes(PlaceState::Moved)
        } else if self.declared_by(p, e) {
            Effect::Becomes(PlaceState::Uninit)
        } else {
            Effect::Keep
        }
    }

    /// State of entry `e` on entry to the function: parameters hold their
    /// arguments, locals hold nothing yet.
    pub open spec fn entry_state(&self, e: int) -> PlaceState {
        if self.is_param(self.root(e)) {
            PlaceState::Live
        } else {
            PlaceState::Uninit
        }
    }

    /// The effects of all statements on entry `e`, by point.
    pub open spec fn effects_of(&self, e: int) -> Seq<Effect> {
        Seq::new(self.points() as nat, |p: int| self.effect(p, e))
    }

    /// `x` gives entry `e` a state on entry to every point such that the
    /// state at point 0 is no better than the entry state, and the state at
    /// the target of every edge is no better than the state after its source.
    pub open spec fn is_flow(&self, e: int, x: Seq<PlaceState>) -> bool {
        &&& x.len() == self.points()
        &&& x.len() > 0
        &&& x[0].leq(self.entry_state(e))
        &&& forall|ed: Edge| #[trigger]
            self.has_edge(ed) ==> x[ed.to as int].leq(
                self.effect(ed.from as int, e).apply_spec(x[ed.from as int]),
            )
    }

    /// `x` is the most permissive flow for entry `e`: at a join a place is
    /// as good as on the worst path into it, and no worse.
    pub open spec fn is_greatest_flow(&self, e: int, x: Seq<PlaceState>) -> bool {
        &&& self.is_flow(e, x)
        &&& forall|y: Seq<PlaceState>| #[trigger] self.is_flow(e, y) ==> below(y, x)
    }

    /// The states of entry `e` on entry to each point.
    pub open spec fn place_states(&self, e: int) -> Seq<PlaceState> {
        choose|x: Seq<PlaceState>| self.is_greatest_flow(e, x)
    }

    /// State of entry `e` on entry to point `p`.
    pub open spec fn state_at(&self, e: int, p: int) -> PlaceState {
        self.place_states(e)[p]
    }

    /// State of entry `e` after the statement at point `p`.
    pub open spec fn state_after(&self, e: int, p: int) -> PlaceState {
        self.effect(p, e).apply_spec(self.state_at(e, p))
    }
}

/// Over a list of the edges of `f`, the flows of entry `e` are the solutions
/// of the flow problem that its effects and entry state pose.
pub proof fn lemma_flow_is_solution(f: &Function, edges: Seq<Edge>, e: int, x: Seq<PlaceState>)
    requires
        f.lists_edges(edges),
    ensures
        is_solution(edges, f.effects_of(e), f.entry_state(e), x) == f.is_flow(e, x),
{
    let effects = f.effects_of(e);
    let entry = f.entry_state(e);
    if is_solution(edges, effects, entry, x) {
        assert forall|ed: Edge| #[trigger] f.has_edge(ed) implies x[ed.to as int].leq(
            f.effect(ed.from as int, e).apply_spec(x[ed.from as int]),
        ) by {
            assert(edges.contains(ed));
            let k = choose|k: int| 0 <= k < edges.len() && edges[k] == ed;
            assert(edge_respected(edges, effects, x, k));
            let (p, j) = choose|p: int, j: int|
                0 <= p < f.points() && 0 <= j < f.stmts@[p].succs@.len() && ed
                    == #[trigger] f.edge_at(p, j);
            assert(effects[ed.from as int] == f.effect(ed.from as int, e));
        }
    }
    if f.is_flow(e, x) {
        assert forall|k: int| 0 <= k < edges.len() implies #[trigger] edge_respected(
            edges,
            effects,
            x,
            k,
        ) by {
            let ed = edges[k];
            assert(f.has_edge(ed));
            let (p, j) = choose|p: int, j: int|
                0 <= p < f.points() && 0 <= j < f.stmts@[p].succs@.len() && ed
                    == #[trigger] f.edge_at(p, j);
            assert(effects[ed.from as int] == f.effect(ed.from as int, e));
        }
    }
}

/// An entry has at most one greatest flow.
pub proof fn lemma_greatest_flow_unique(
    f: &Function,
    e: int,
    x: Seq<PlaceState>,
    y: Seq<PlaceState>,
)
    requires
        f.is_greatest_flow(e, x),
        f.is_greatest_flow(e, y),
    ensures
        x == y,
{
    assert(below(x, y));
    assert(below(y, x));
    assert forall|p: int| 0 <= p < x.len() implies x[p] == y[p] by {
        assert(x[p].leq(y[p]));
        assert(y[p].leq(x[p]));
    }
    assert(x =~= y);
}

/// The result of the ownership analysis of one function.
#[derive(Debug, Clone, PartialEq, Eq)]
pub struct Ownership {
    /// For each entry of the binding table, its state on entry to each point.
    pub states: Vec<Vec<PlaceState>>,
    /// How many passes over the edges of the control-flow graph the
    /// fixpoint iterations made, all entries together.
    pub passes: usize,
}

impl Ownership {
    /// The table holds, for every entry, the greatest flow of that entry.
    pub open spec fn describes(&self, f: &Function) -> bool {
        &&& self.states@.len() == f.places()
        &&& forall|e: int|
            0 <= e < f.places() ==> (#[trigger] self.states@[e])@ == f.place_states(e)
                && f.is_greatest_flow(e, f.place_states(e))
    }
}

/// Whether giving place `t` a value gives entry `e` a value.
pub fn covers(f: &Function, t: usize, e: usize) -> (r: bool)
    requires
        e < f.places(),
    ensures
        r == f.covers(t as int, e as int),
{
    if e == t {
        return true;
    }
    match f.bindings[e].field_of {
        Some(o) => o == t,
        None => false,
    }
}

/// Whether the operand moves the value out of its place.
pub fn access_moves(f: &Function, a: Access) -> (r: bool)
    requires
        a.place < f.places(),
    ensures
        r == f.moves(a),
{
    let by_value = match a.mode {
        AccessMode::Use => true,
        _ => false,
    };
    let move_only = match f.bindings[a.place].kind {
        ValueKind::MoveOnly => true,
        ValueKind::Copyable => false,
    };
    by_value && move_only
}

/// Whether an operand before operand `i` of the statement at `p` moves the
/// value out of entry `e`.
pub fn moved_before(prog: &Program, f: &Function, p: usize, i: usize, e: usize) -> (r: bool)
    requires
        f.well_formed(prog),
        p < f.points(),
        i <= f.stmts@[p as int].uses@.len(),
    ensures
        r == f.moved_before(p as int, i as int, e as int),
{
    assert(f.stmt_wf(prog, p as int));
    let st = &f.stmts[p];
    let mut j: usize = 0;
    while j < i
        invariant
            j <= i,
            p < f.points(),
            *st == f.stmts@[p as int],
            i <= st.uses@.len(),
            f.refs_fit(prog, p as int),
            forall|k: int| 0 <= k < j ==> !#[trigger] f.moves_place(p as int, k, e as int),
        decreases i - j,
    {
        let a = st.uses[j];
        if a.place == e && access_moves(f, a) {
            assert(f.moves_place(p as int, j as int, e as int));
            return true;
        }
        j += 1;
    }
    false
}

/// What the statement at `p` does to entry `e`.
pub fn effect_of(prog: &Program, f: &Function, p: usize, e: usize) -> (r: Effect)
    requires
        f.well_formed(prog),
        p < f.points(),
        e < f.places(),
    ensures
        r == f.effect(p as int, e as int),
{
    let st = &f.stmts[p];
    match st.assigns {
        Some(t) => {
            if covers(f, t, e) {
                return Effect::Becomes(PlaceState::Live);
            }
        },
        None => {},
    }
    if moved_before(prog, f, p, st.uses.len(), e) {
        return Effect::Becomes(PlaceState::Moved);
    }
    match st.kind {
        StmtKind::Declare(b) => {
            if covers(f, b, e) {
                return Effect::Becomes(PlaceState::Uninit);
            }
        },
        _ => {},
    }
    Effect::Keep
}

/// State of entry `e` on entry to the function.
pub fn entry_state(prog: &Program, f: &Function, e: usize) -> (r: PlaceState)
    requires
        f.well_formed(prog),
        e < f.places(),
    ensures
        r == f.entry_state(e as int),
{
    let root = match f.bindings[e].field_of {
        Some(o) => o,
        None => e,
    };
    if is_param(f, root) {
        PlaceState::Live
    } else {
        PlaceState::Uninit
    }
}

/// Runs the ownership analysis of `f` over a list of the edges of its
/// control-flow graph.
///
/// Each entry of the binding table is solved on its own. The fixpoint
/// iteration for one entry ends after at most `2 * points + 1` passes, so the
/// whole analysis makes at most that many passes per entry.
pub fn analyze(prog: &Program, f: &Function, edges: &Vec<Edge>) -> (own: Ownership)
    requires
        f.well_formed(prog),
        f.lists_edges(edges@),
    ensures
        own.describes(f),
        own.passes <= f.places() * (2 * f.points() + 1),
{
    let n = f.stmts.len();
    let m = f.bindings.len();
    let mut states: Vec<Vec<PlaceState>> = Vec::new();
    let mut passes: usize = 0;
    let mut e: usize = 0;
    proof {
        lemma_edges_within(prog, f, edges@);
        assert(0 * (2 * n + 1) == 0);
    }
    while e < m
        invariant
            e <= m,
            n == f.points(),
            m == f.places(),
            n > 0,
            f.well_formed(prog),
            f.lists_edges(edges@),
            edges_within(edges@, n as int),
            states@.len() == e,
            forall|c: int|
                0 <= c < e ==> (#[trigger] states@[c])@ == f.place_states(c) && f.is_greatest_flow(
                    c,
                    f.place_states(c),
                ),
            passes <= e * (2 * n + 1),
        decreases m - e,
    {
        let mut effects: Vec<Effect> = Vec::new();
        let mut p: usize = 0;
        while p < n
            invariant
                p <= n,
                n == f.points(),
                e < f.places(),
                f.well_formed(prog),
                effects@.len() == p,
                forall|q: int| 0 <= q < p ==> (#[trigger] effects@[q]) == f.effect(q, e as int),
            decreases n - p,
        {
            effects.push(effect_of(prog, f, p, e));
            p += 1;
        }
        assert(effects@ =~= f.effects_of(e as int));
        let entry = entry_state(prog, f, e);
        let (column, k) = solve(edges, &effects, entry);
        proof {
            assert forall|y: Seq<PlaceState>| #[trigger] f.is_flow(e as int, y) implies below(
                y,
                column@,
            ) by {
                lemma_flow_is_solution(f, edges@, e as int, y);
            }
            lemma_flow_is_solution(f, edges@, e as int, column@);
            assert(f.is_greatest_flow(e as int, column@));
            lemma_greatest_flow_unique(f, e as int, column@, f.place_states(e as int));
            assert((e + 1) * (2 * n + 1) == e * (2 * n + 1) + (2 * n + 1)) by (nonlinear_arith);
        }
        if passes <= usize::MAX - k {
            passes = passes + k;
        } else {
            passes = usize::MAX;
        }
        states.push(column);
        e += 1;
    }
    Ownership { states, passes }
}

impl Function {
    /// State of entry `c` just before operand `i` of the statement at `p` is
    /// evaluated: earlier operands of the statement have been evaluated, and
    /// a declaration has made its binding uninitialized.
    pub open spec fn seen(&self, p: int, i: int, c: int) -> PlaceState {
        if self.moved_before(p, i, c) {
            PlaceState::Moved
        } else if self.declared_by(p, c) {
            PlaceState::Uninit
        } else {
            self.state_at(c, p)
        }
    }

    /// Entry `c` decides whether place `e` can be used: it is `e`, the
    /// aggregate that `e` is a field of, or a field of `e`.
    pub open spec fn relevant(&self, e: int, c: int) -> bool {
        c == e || self.bindings@[e].field_of == Some(c as usize) || self.bindings@[c].field_of
            == Some(e as usize)
    }

    /// Entry `c` decides about place `e` and is in state `s` just before
    /// operand `i` of the statement at `p`.
    pub open spec fn hit(&self, p: int, i: int, e: int, c: int, s: PlaceState) -> bool {
        self.relevant(e, c) && self.seen(p, i, c) == s
    }

    /// The worst state among the entries below `bound` that decide about
    /// place `e`, just before operand `i` of the statement at `p`.
    pub open spec fn status_among(&self, p: int, i: int, e: int, bound: int) -> PlaceState {
        if exists|c: int| 0 <= c < bound && #[trigger] self.hit(p, i, e, c, PlaceState::Moved) {
            PlaceState::Moved
        } else if exists|c: int|
            0 <= c < bound && #[trigger] self.hit(p, i, e, c, PlaceState::Uninit) {
            PlaceState::Uninit
        } else {
            PlaceState::Live
        }
    }

    /// Whether place `e` can be used by operand `i` of the statement at `p`:
    /// `Live` if the place, its aggregate and its fields all hold their
    /// values, `Moved` if one of them has been moved away, `Uninit` if none
    /// was moved but one of them has no value yet.
    pub open spec fn status(&self, p: int, i: int, e: int) -> PlaceState {
        self.status_among(p, i, e, self.places())
    }

    /// What the ownership analyzer reports for operand `i` of the statement
    /// at `p`. Creating a borrow is judged by the borrow checker instead.
    pub open spec fn operand_finding(&self, p: int, i: int) -> Option<Finding> {
        let a = self.stmts@[p].uses@[i];
        match a.mode {
            AccessMode::Borrow(_) => None,
            _ => match self.status(p, i, a.place as int) {
                PlaceState::Live => None,
                PlaceState::Uninit => Some(
                    Finding {
                        kind: DiagKind::UninitializedUse,
                        point: p as usize,
                        place: a.place,
                        related: None,
                    },
                ),
                PlaceState::Moved => Some(
                    Finding {
                        kind: if self.moves(a) {
                            DiagKind::DoubleMove
                        } else {
                            DiagKind::UseAfterMove
                        },
                        point: p as usize,
                        place: a.place,
                        related: None,
                    },
                ),
            },
        }
    }

    /// The findings for the operands before operand `upto` of the statement
    /// at `p`, in operand order.
    pub open spec fn operand_findings(&self, p: int, upto: int) -> Seq<Finding>
        decreases upto,
    {
        if upto <= 0 {
            Seq::empty()
        } else {
            match self.operand_finding(p, upto - 1) {
                Some(x) => self.operand_findings(p, upto - 1).push(x),
                None => self.operand_findings(p, upto - 1),
            }
        }
    }

    /// The findings of the ownership analyzer for the statements before
    /// point `upto`, by point and then by operand.
    pub open spec fn ownership_findings(&self, upto: int) -> Seq<Finding>
        decreases upto,
    {
        if upto <= 0 {
            Seq::empty()
        } else {
            self.ownership_findings(upto - 1) + self.operand_findings(
                upto - 1,
                self.stmts@[upto - 1].uses@.len() as int,
            )
        }
    }
}

/// State of entry `c` just before operand `i` of the statement at `p`.
pub fn seen(prog: &Program, f: &Function, own: &Ownership, p: usize, i: usize, c: usize) -> (r:
    PlaceState)
    requires
        f.well_formed(prog),
        own.describes(f),
        p < f.points(),
        i <= f.stmts@[p as int].uses@.len(),
        c < f.places(),
    ensures
        r == f.seen(p as int, i as int, c as int),
{
    if moved_before(prog, f, p, i, c) {
        return PlaceState::Moved;
    }
    let declared = match f.stmts[p].kind {
        StmtKind::Declare(b) => covers(f, b, c),
        _ => false,
    };
    if declared {
        return PlaceState::Uninit;
    }
    assert(own.states@[c as int]@ == f.place_states(c as int));
    own.states[c][p]
}

/// Whether entry `c` decides whether place `e` can be used.
pub fn relevant(f: &Function, e: usize, c: usize) -> (r: bool)
    requires
        e < f.places(),
        c < f.places(),
    ensures
        r == f.relevant(e as int, c as int),
{
    if c == e {
        return true;
    }
    let up = match f.bindings[e].field_of {
        Some(o) => o == c,
        None => false,
    };
    let down = match f.bindings[c].field_of {
        Some(o) => o == e,
        None => false,
    };
    up || down
}

/// Whether place `e` can be used by operand `i` of the statement at `p`.
pub fn status(prog: &Program, f: &Function, own: &Ownership, p: usize, i: usize, e: usize) -> (r:
    PlaceState)
    requires
        f.well_formed(prog),
        own.describes(f),
        p < f.points(),
        i <= f.stmts@[p as int].uses@.len(),
        e < f.places(),
    ensures
        r == f.status(p as int, i as int, e as int),
{
    let mut acc = PlaceState::Live;
    let mut c: usize = 0;
    while c < f.bindings.len()
        invariant
            c <= f.places(),
            f.well_formed(prog),
            own.describes(f),
            p < f.points(),
            i <= f.stmts@[p as int].uses@.len(),
            e < f.places(),
            acc == f.status_among(p as int, i as int, e as int, c as int),
        decreases f.places() - c,
    {
        if relevant(f, e, c) {
            let s = seen(prog, f, own, p, i, c);
            acc = acc.meet(s);
            assert(f.hit(p as int, i as int, e as int, c as int, s));
        }
        proof {
            let (pi, ii, ei) = (p as int, i as int, e as int);
            assert forall|s: PlaceState|
                (exists|d: int| 0 <= d < c + 1 && #[trigger] f.hit(pi, ii, ei, d, s)) == ((exists|
                    d: int,
                | 0 <= d < c && #[trigger] f.hit(pi, ii, ei, d, s)) || f.hit(
                    pi,
                    ii,
                    ei,
                    c as int,
                    s,
                )) by {
                if exists|d: int| 0 <= d < c + 1 && #[trigger] f.hit(pi, ii, ei, d, s) {
                    let d = choose|d: int| 0 <= d < c + 1 && #[trigger] f.hit(pi, ii, ei, d, s);
                    if d < c {
                        assert(f.hit(pi, ii, ei, d, s));
                    }
                }
            }
        }
        c += 1;
    }
    acc
}

/// What the ownership analyzer reports for operand `i` of the statement at
/// `p`.
pub fn operand_finding(prog: &Program, f: &Function, own: &Ownership, p: usize, i: usize) -> (r:
    Option<Finding>)
    requires
        f.well_formed(prog),
        own.describes(f),
        p < f.points(),
        i < f.stmts@[p as int].uses@.len(),
    ensures
        r == f.operand_finding(p as int, i as int),
{
    assert(f.stmt_wf(prog, p as int));
    let a = f.stmts[p].uses[i];
    match a.mode {
        AccessMode::Borrow(_) => None,
        _ => match status(prog, f, own, p, i, a.place) {
            PlaceState::Live => None,
            PlaceState::Uninit => Some(
                Finding { kind: DiagKind::UninitializedUse, point: p, place: a.place, related: None },
            ),
            PlaceState::Moved => {
                let kind = if access_moves(f, a) {
                    DiagKind::DoubleMove
                } else {
                    DiagKind::UseAfterMove
                };
                Some(Finding { kind, point: p, place: a.place, related: None })
            },
        },
    }
}

/// The findings of the ownership analyzer, by point and then by operand:
/// reads of moved or uninitialized places and moves out of places that the
/// value has already left.
pub fn ownership_findings(prog: &Program, f: &Function, own: &Ownership) -> (r: Vec<Finding>)
    requires
        f.well_formed(prog),
        own.describes(f),
    ensures
        r@ == f.ownership_findings(f.points()),
{
    let mut r: Vec<Finding> = Vec::new();
    let mut p: usize = 0;
    while p < f.stmts.len()
        invariant
            p <= f.points(),
            f.well_formed(prog),
            own.describes(f),
            r@ == f.ownership_findings(p as int),
        decreases f.points() - p,
    {
        let ghost head = r@;
        let mut i: usize = 0;
        while i < f.stmts[p].uses.len()
            invariant
                p < f.points(),
                i <= f.stmts@[p as int].uses@.len(),
                f.well_formed(prog),
                own.describes(f),
                r@ == head + f.operand_findings(p as int, i as int),
            decreases f.stmts@[p as int].uses@.len() - i,
        {
            match operand_finding(prog, f, own, p, i) {
                Some(x) => {
                    r.push(x);
                },
                None => {},
            }
            assert(r@ =~= head + f.operand_findings(p as int, i + 1));
            i += 1;
        }
        p += 1;
    }
    r
}

impl Function {
    /// `ed` is an edge into `h` from `h` itself or from a later point: it
    /// closes a loop whose head is `h`.
    pub open spec fn back_edge_into(&self, ed: Edge, h: int) -> bool {
        self.has_edge(ed) && ed.to == h && ed.from >= h
    }

    /// `ed` is an edge into `h` from an earlier point.
    pub open spec fn forward_edge_into(&self, ed: Edge, h: int) -> bool {
        self.has_edge(ed) && ed.to == h && ed.from < h
    }

    /// Point `h` is the head of a loop.
    pub open spec fn loop_head(&self, h: int) -> bool {
        exists|ed: Edge| #[trigger] self.back_edge_into(ed, h)
    }

    /// Control reaches `h` other than around a loop: `h` is the entry of the
    /// function or the target of an edge from an earlier point.
    pub open spec fn entered_from_outside(&self, h: int) -> bool {
        h == 0 || exists|ed: Edge| #[trigger] self.forward_edge_into(ed, h)
    }

    /// Entry `c` is in a worse state on entry to `h` than on every way into
    /// `h` that does not come around a loop: worse after an iteration than
    /// before the first.
    pub open spec fn lowered_by_loop(&self, h: int, c: int) -> bool {
        &&& h == 0 ==> self.state_at(c, h).rank() < self.entry_state(c).rank()
        &&& forall|ed: Edge| #[trigger]
            self.forward_edge_into(ed, h) ==> self.state_at(c, h).rank() < self.state_after(
                c,
                ed.from as int,
            ).rank()
    }

    /// Entry `c` belongs to binding `b` and the loop at `h` lowers it.
    pub open spec fn loop_lowers(&self, h: int, b: int, c: int) -> bool {
        self.covers(b, c) && self.lowered_by_loop(h, c)
    }

    /// The loop with head `h` may start an iteration with binding `b`, or a
    /// field of it, in a worse state than before the first iteration. Only
    /// bindings whose storage exists at `h` count: one that the body of the
    /// loop declares is new in every iteration.
    pub open spec fn possibly_moved_in_loop(&self, h: int, b: int) -> bool {
        &&& self.bindings@[b].field_of is None
        &&& self.loop_head(h)
        &&& self.entered_from_outside(h)
        &&& self.storage_at(b, h)
        &&& exists|c: int| 0 <= c < self.places() && #[trigger] self.loop_lowers(h, b, c)
    }

    /// The loop warnings at head `h` for the bindings below `upto`.
    pub open spec fn loop_findings_at(&self, h: int, upto: int) -> Seq<Finding>
        decreases upto,
    {
        if upto <= 0 {
            Seq::empty()
        } else if self.possibly_moved_in_loop(h, upto - 1) {
            self.loop_findings_at(h, upto - 1).push(
                Finding {
                    kind: DiagKind::PossiblyMovedInLoop,
                    point: h as usize,
                    place: (upto - 1) as usize,
                    related: None,
                },
            )
        } else {
            self.loop_findings_at(h, upto - 1)
        }
    }

    /// The loop warnings for the points below `upto`, by point and then by
    /// binding.
    pub open spec fn loop_findings(&self, upto: int) -> Seq<Finding>
        decreases upto,
    {
        if upto <= 0 {
            Seq::empty()
        } else {
            self.loop_findings(upto - 1) + self.loop_findings_at(upto - 1, self.places())
        }
    }
}

/// Whether an edge of the list is an edge into `h` from `h` or later
/// (`back`), or from an earlier point (not `back`).
fn has_edge_into(f: &Function, edges: &Vec<Edge>, h: usize, back: bool) -> (r: bool)
    requires
        f.lists_edges(edges@),
    ensures
        back ==> r == f.loop_head(h as int),
        !back ==> r == (exists|ed: Edge| #[trigger] f.forward_edge_into(ed, h as int)),
{
    let mut k: usize = 0;
    while k < edges.len()
        invariant
            k <= edges@.len(),
            f.lists_edges(edges@),
            forall|i: int|
                0 <= i < k ==> !((#[trigger] edges@[i]).to == h && (edges@[i].from >= h) == back),
        decreases edges@.len() - k,
    {
        let ed = edges[k];
        if ed.to == h && (ed.from >= h) == back {
            assert(f.has_edge(ed));
            assert(back ==> f.back_edge_into(ed, h as int));
            assert(!back ==> f.forward_edge_into(ed, h as int));
            return true;
        }
        k += 1;
    }
    proof {
        assert forall|ed: Edge| !(f.has_edge(ed) && ed.to == h && (ed.from >= h) == back) by {
            if f.has_edge(ed) {
                assert(edges@.contains(ed));
            }
        }
        if back {
            assert forall|ed: Edge| !#[trigger] f.back_edge_into(ed, h as int) by {}
        } else {
            assert forall|ed: Edge| !#[trigger] f.forward_edge_into(ed, h as int) by {}
        }
    }
    false
}

/// State of entry `c` after the statement at point `p`.
pub fn state_after(prog: &Program, f: &Function, own: &Ownership, c: usize, p: usize) -> (r:
    PlaceState)
    requires
        f.well_formed(prog),
        own.describes(f),
        p < f.points(),
        c < f.places(),
    ensures
        r == f.state_after(c as int, p as int),
{
    assert(own.states@[c as int]@ == f.place_states(c as int));
    effect_of(prog, f, p, c).apply(own.states[c][p])
}

fn lowered_by_loop(
    prog: &Program,
    f: &Function,
    own: &Ownership,
    edges: &Vec<Edge>,
    h: usize,
    c: usize,
) -> (r: bool)
    requires
        f.well_formed(prog),
        own.describes(f),
        f.lists_edges(edges@),
        h < f.points(),
        c < f.places(),
    ensures
        r == f.lowered_by_loop(h as int, c as int),
{
    assert(own.states@[c as int]@ == f.place_states(c as int));
    let here = own.states[c][h];
    if h == 0 && entry_state(prog, f, c).at_most(here) {
        return false;
    }
    proof {
        lemma_edges_within(prog, f, edges@);
    }
    let mut k: usize = 0;
    while k < edges.len()
        invariant
            k <= edges@.len(),
            f.well_formed(prog),
            own.describes(f),
            f.lists_edges(edges@),
            edges_within(edges@, f.points()),
            h < f.points(),
            c < f.places(),
            here == f.state_at(c as int, h as int),
            forall|i: int|
                0 <= i < k && (#[trigger] edges@[i]).to == h && edges@[i].from < h ==> here.rank()
                    < f.state_after(c as int, edges@[i].from as int).rank(),
        decreases edges@.len() - k,
    {
        let ed = edges[k];
        if ed.to == h && ed.from < h {
            if state_after(prog, f, own, c, ed.from).at_most(here) {
                assert(f.has_edge(ed));
                assert(f.forward_edge_into(ed, h as int));
                return false;
            }
        }
        k += 1;
    }
    proof {
        assert forall|ed: Edge| #[trigger] f.forward_edge_into(ed, h as int) implies here.rank()
            < f.state_after(c as int, ed.from as int).rank() by {
            assert(edges@.contains(ed));
        }
    }
    true
}

/// Whether the storage of entry `e` exists at point `p`.
pub fn storage_at(prog: &Program, f: &Function, tracker: &Tracker, e: usize, p: usize) -> (r: bool)
    requires
        f.well_formed(prog),
        tracker.tracks(f),
        e < f.places(),
    ensures
        r == f.storage_at(e as int, p as int),
{
    assert(f.binding_wf(e as int));
    let root = match f.bindings[e].field_of {
        Some(o) => o,
        None => e,
    };
    if is_param(f, root) {
        return true;
    }
    proof {
        assert(f.root(root as int) == root);
        assert(f.is_local(root as int));
        assert(f.declared_once(root as int));
        let w = choose|w: int| #[trigger] f.declared_at(root as int, w);
        assert(f.declared_at(f.root(e as int), w));
        assert(f.declared_at(root as int, f.decl_point(e as int)));
        assert(f.stmt_wf(prog, f.decl_point(e as int)));
    }
    let dp = tracker.decl_point[e];
    let ds = tracker.decl_scope[e];
    dp <= p && p < f.scopes[ds].exit
}

fn possibly_moved_in_loop(
    prog: &Program,
    f: &Function,
    tracker: &Tracker,
    own: &Ownership,
    edges: &Vec<Edge>,
    h: usize,
    b: usize,
) -> (r: bool)
    requires
        f.well_formed(prog),
        tracker.tracks(f),
        own.describes(f),
        f.lists_edges(edges@),
        h < f.points(),
        b < f.places(),
    ensures
        r == f.possibly_moved_in_loop(h as int, b as int),
{
    if f.bindings[b].field_of.is_some() {
        return false;
    }
    if !has_edge_into(f, edges, h, true) {
        return false;
    }
    if h != 0 && !has_edge_into(f, edges, h, false) {
        return false;
    }
    if !storage_at(prog, f, tracker, b, h) {
        return false;
    }
    let mut c: usize = 0;
    while c < f.bindings.len()
        invariant
            c <= f.places(),
            f.well_formed(prog),
            own.describes(f),
            f.lists_edges(edges@),
            h < f.points(),
            b < f.places(),
            f.bindings@[b as int].field_of is None,
            f.loop_head(h as int),
            f.entered_from_outside(h as int),
            f.storage_at(b as int, h as int),
            forall|d: int| 0 <= d < c ==> !#[trigger] f.loop_lowers(h as int, b as int, d),
        decreases f.places() - c,
    {
        if covers(f, b, c) && lowered_by_loop(prog, f, own, edges, h, c) {
            assert(f.loop_lowers(h as int, b as int, c as int));
            return true;
        }
        c += 1;
    }
    false
}

/// The loop warnings, by loop head and then by binding: a warning for each
/// loop and each binding that an iteration of the loop may leave in a worse
/// state than it had before the first iteration.
pub fn loop_findings(
    prog: &Program,
    f: &Function,
    tracker: &Tracker,
    own: &Ownership,
    edges: &Vec<Edge>,
) -> (r: Vec<Finding>)
    requires
        f.well_formed(prog),
        tracker.tracks(f),
        own.describes(f),
        f.lists_edges(edges@),
    ensures
        r@ == f.loop_findings(f.points()),
{
    let mut r: Vec<Finding> = Vec::new();
    let mut h: usize = 0;
    while h < f.stmts.len()
        invariant
            h <= f.points(),
            f.well_formed(prog),
            tracker.tracks(f),
            own.describes(f),
            f.lists_edges(edges@),
            r@ == f.loop_findings(h as int),
        decreases f.points() - h,
    {
        let ghost head = r@;
        let mut b: usize = 0;
        while b < f.bindings.len()
            invariant
                h < f.points(),
                b <= f.places(),
                f.well_formed(prog),
                tracker.tracks(f),
                own.describes(f),
                f.lists_edges(edges@),
                r@ == head + f.loop_findings_at(h as int, b as int),
            decreases f.places() - b,
        {
            if possibly_moved_in_loop(prog, f, tracker, own, edges, h, b) {
                r.push(
                    Finding {
                        kind: DiagKind::PossiblyMovedInLoop,
                        point: h,
                        place: b,
                        related: None,
                    },
                );
            }
            assert(r@ =~= head + f.loop_findings_at(h as int, b + 1));
            b += 1;
        }
        h += 1;
    }
    r
}

/// The state of a binding as a whole at a program point. A binding is in
/// exactly one of these states at any point.
#[derive(Debug, Clone, PartialEq, Eq)]
pub enum BindingState {
    /// The binding has not been given a value.
    Uninitialized,
    /// The binding and all its fields hold their values.
    Live,
    /// The binding holds its value but for the listed fields, which are
    /// entries of the binding table, in the order of the table.
    PartiallyMoved(Vec<usize>),
    /// The value of the binding has been moved away.
    Moved,
}

/// The state of a binding, as plain values.
pub enum BindingStateView {
    Uninitialized,
    Live,
    PartiallyMoved(Seq<usize>),
    Moved,
}

impl View for BindingState {
    type V = BindingStateView;

    open spec fn view(&self) -> BindingStateView {
        match self {
            BindingState::Uninitialized => BindingStateView::Uninitialized,
            BindingState::Live => BindingStateView::Live,
            BindingState::PartiallyMoved(fields) => BindingStateView::PartiallyMoved(fields@),
            BindingState::Moved => BindingStateView::Moved,
        }
    }
}

impl Function {
    /// The fields below `upto` of binding `b` that do not hold their values
    /// on entry to point `p`, in the order of the binding table.
    pub open spec fn fields_gone(&self, b: int, p: int, upto: int) -> Seq<usize>
        decreases upto,
    {
        if upto <= 0 {
            Seq::empty()
        } else if self.bindings@[upto - 1].field_of == Some(b as usize) && self.state_at(upto - 1, p)
            != PlaceState::Live {
            self.fields_gone(b, p, upto - 1).push((upto - 1) as usize)
        } else {
            self.fields_gone(b, p, upto - 1)
        }
    }

    /// The state of binding `b` as a whole on entry to point `p`.
    pub open spec fn binding_state(&self, b: int, p: int) -> BindingStateView {
        match self.state_at(b, p) {
            PlaceState::Uninit => BindingStateView::Uninitialized,
            PlaceState::Moved => BindingStateView::Moved,
            PlaceState::Live => if self.fields_gone(b, p, self.places()).len() == 0 {
                BindingStateView::Live
            } else {
                BindingStateView::PartiallyMoved(self.fields_gone(b, p, self.places()))
            },
        }
    }
}

/// The state of binding `b` as a whole on entry to point `p`.
pub fn binding_state(prog: &Program, f: &Function, own: &Ownership, b: usize, p: usize) -> (r:
    BindingState)
    requires
        f.well_formed(prog),
        own.describes(f),
        b < f.places(),
        p < f.points(),
    ensures
        r@ == f.binding_state(b as int, p as int),
{
    assert(own.states@[b as int]@ == f.place_states(b as int));
    match own.states[b][p] {
        PlaceState::Uninit => BindingState::Uninitialized,
        PlaceState::Moved => BindingState::Moved,
        PlaceState::Live => {
            let mut gone: Vec<usize> = Vec::new();
            let mut c: usize = 0;
            while c < f.bindings.len()
                invariant
                    c <= f.places(),
                    own.describes(f),
                    p < f.points(),
                    gone@ == f.fields_gone(b as int, p as int, c as int),
                decreases f.places() - c,
            {
                let is_field = match f.bindings[c].field_of {
                    Some(o) => o == b,
                    None => false,
                };
                assert(own.states@[c as int]@ == f.place_states(c as int));
                if is_field {
                    match own.states[c][p] {
                        PlaceState::Live => {},
                        _ => {
                            gone.push(c);
                        },
                    }
                }
                c += 1;
            }
            if gone.len() == 0 {
                BindingState::Live
            } else {
                BindingState::PartiallyMoved(gone)
            }
        },
    }
}

/// In a sound function every edge joins two points.
pub proof fn lemma_edge_in_range(prog: &Program, f: &Function, ed: Edge)
    requires
        f.well_formed(prog),
        f.has_edge(ed),
    ensures
        ed.from < f.points(),
        ed.to < f.points(),
{
    let (p, j) = choose|p: int, j: int|
        0 <= p < f.points() && 0 <= j < f.stmts@[p].succs@.len() && ed == #[trigger] f.edge_at(p, j);
    assert(f.stmt_wf(prog, p));
}

impl Function {
    /// Some flow of entry `e` gives point `p` the state `v`.
    pub open spec fn attained(&self, e: int, p: int, v: PlaceState) -> bool {
        exists|y: Seq<PlaceState>| #[trigger] self.is_flow(e, y) && y[p] == v
    }

    /// The best state that any flow of entry `e` gives point `p`.
    pub open spec fn best_at(&self, e: int, p: int) -> PlaceState {
        if self.attained(e, p, PlaceState::Live) {
            PlaceState::Live
        } else if self.attained(e, p, PlaceState::Uninit) {
            PlaceState::Uninit
        } else {
            PlaceState::Moved
        }
    }
}

/// Every entry of a sound function has a greatest flow: the states that the
/// analysis computes exist, whatever the shape of the control-flow graph.
pub proof fn lemma_greatest_flow_exists(prog: &Program, f: &Function, e: int)
    requires
        f.well_formed(prog),
    ensures
        f.is_greatest_flow(e, f.place_states(e)),
{
    let n = f.points() as nat;
    let x = Seq::new(n, |p: int| f.best_at(e, p));
    let bottom = Seq::new(n, |p: int| PlaceState::Moved);
    assert(f.is_flow(e, bottom)) by {
        assert forall|ed: Edge| #[trigger] f.has_edge(ed) implies bottom[ed.to as int].leq(
            f.effect(ed.from as int, e).apply_spec(bottom[ed.from as int]),
        ) by {
            lemma_edge_in_range(prog, f, ed);
        }
    }
    // every point has a flow that attains the best state there
    assert forall|p: int| 0 <= p < n implies #[trigger] f.attained(e, p, x[p]) by {
        if x[p] == PlaceState::Moved {
            assert(f.is_flow(e, bottom) && bottom[p] == x[p]);
        }
    }
    // and no flow is better anywhere
    assert forall|y: Seq<PlaceState>| #[trigger] f.is_flow(e, y) implies below(y, x) by {
        assert forall|p: int| 0 <= p < y.len() implies (#[trigger] y[p]).leq(x[p]) by {
            assert(f.attained(e, p, y[p]));
        }
    }
    assert(f.is_flow(e, x)) by {
        assert(f.attained(e, 0, x[0]));
        let y0 = choose|y: Seq<PlaceState>| #[trigger] f.is_flow(e, y) && y[0] == x[0];
        assert(x[0].leq(f.entry_state(e)));
        assert forall|ed: Edge| #[trigger] f.has_edge(ed) implies x[ed.to as int].leq(
            f.effect(ed.from as int, e).apply_spec(x[ed.from as int]),
        ) by {
            lemma_edge_in_range(prog, f, ed);
            let b = ed.to as int;
            let a = ed.from as int;
            assert(f.attained(e, b, x[b]));
            let y = choose|y: Seq<PlaceState>| #[trigger] f.is_flow(e, y) && y[b] == x[b];
            assert(below(y, x));
            assert(y[a].leq(x[a]));
            assert(f.effect(a, e).apply_spec(y[a]).leq(f.effect(a, e).apply_spec(x[a])));
        }
    }
    assert(f.is_greatest_flow(e, x));
}

/// The state of an entry on entry to a point is the meet of what flows into
/// the point: any state `v` that is at most the state after every
/// predecessor (and at most the entry state, at point 0) is at most the
/// state at the point.
pub proof fn lemma_flow_is_tight(prog: &Program, f: &Function, e: int, p: int, v: PlaceState)
    requires
        f.well_formed(prog),
        0 <= p < f.points(),
        p == 0 ==> v.leq(f.entry_state(e)),
        forall|ed: Edge| #[trigger] f.has_edge(ed) && ed.to == p ==> v.leq(f.state_after(e, ed.from as int)),
    ensures
        v.leq(f.state_at(e, p)),
{
    lemma_greatest_flow_exists(prog, f, e);
    let x = f.place_states(e);
    if !v.leq(x[p]) {
        let y = x.update(p, v);
        assert forall|ed: Edge| #[trigger] f.has_edge(ed) implies y[ed.to as int].leq(
            f.effect(ed.from as int, e).apply_spec(y[ed.from as int]),
        ) by {
            lemma_edge_in_range(prog, f, ed);
            let a = ed.from as int;
            assert(x[a].leq(y[a]));
            assert(f.effect(a, e).apply_spec(x[a]).leq(f.effect(a, e).apply_spec(y[a])));
        }
        assert(f.is_flow(e, y));
        assert(below(y, x));
        assert(y[p].leq(x[p]));
    }
}

/// Copy semantics: the value of a `Copyable` place is never moved away. No
/// statement moves it, and it is `Moved` at no point.
pub proof fn lemma_copyable_never_moved(prog: &Program, f: &Function, e: int, p: int)
    requires
        f.well_formed(prog),
        0 <= e < f.places(),
        0 <= p < f.points(),
        f.bindings@[e].kind == ValueKind::Copyable,
    ensures
        f.effect(p, e) != Effect::Becomes(PlaceState::Moved),
        f.state_at(e, p) != PlaceState::Moved,
{
    lemma_greatest_flow_exists(prog, f, e);
    let x = f.place_states(e);
    let y = Seq::new(
        x.len(),
        |q: int|
            if x[q] == PlaceState::Moved {
                PlaceState::Uninit
            } else {
                x[q]
            },
    );
    assert forall|q: int| 0 <= q < f.points() implies f.effect(q, e) != Effect::Becomes(
        PlaceState::Moved,
    ) by {
        assert forall|j: int| !#[trigger] f.moves_place(q, j, e) by {}
    }
    assert forall|ed: Edge| #[trigger] f.has_edge(ed) implies y[ed.to as int].leq(
        f.effect(ed.from as int, e).apply_spec(y[ed.from as int]),
    ) by {
        lemma_edge_in_range(prog, f, ed);
    }
    assert(f.is_flow(e, y));
    assert(below(y, x));
    assert(y[p].leq(x[p]));
}

/// Shadowing: a declaration leaves every place alone that does not belong to
/// the binding it declares, unless the statement takes or gives that place a
/// value as well.
pub proof fn lemma_declaration_leaves_others(f: &Function, p: int, b: int, e: int)
    requires
        0 <= p < f.points(),
        0 <= b <= usize::MAX,
        f.declares(p, b),
        !f.covers(b, e),
        !f.assigned(p, e),
        !f.moved_before(p, f.stmts@[p].uses@.len() as int, e),
    ensures
        f.effect(p, e) == Effect::Keep,
        f.state_after(e, p) == f.state_at(e, p),
{
}

/// What is `Moved` after a predecessor of a point is `Moved` on entry to the
/// point, whatever the other predecessors do.
pub proof fn lemma_moved_reaches(prog: &Program, f: &Function, e: int, ed: Edge)
    requires
        f.well_formed(prog),
        f.has_edge(ed),
        f.state_after(e, ed.from as int) == PlaceState::Moved,
    ensures
        f.state_at(e, ed.to as int) == PlaceState::Moved,
{
    lemma_greatest_flow_exists(prog, f, e);
}

impl Function {
    /// Control may pass from point `path[k]` to point `path[k + 1]`.
    pub open spec fn step(&self, path: Seq<usize>, k: int) -> bool {
        self.has_edge(Edge { from: path[k], to: path[k + 1] })
    }

    /// `path` is a way through the control-flow graph on which no statement
    /// after the first touches entry `e`.
    pub open spec fn untouched_path(&self, e: int, path: Seq<usize>) -> bool {
        &&& path.len() >= 2
        &&& forall|k: int| 0 <= k < path.len() - 1 ==> #[trigger] self.step(path, k)
        &&& forall|k: int|
            1 <= k < path.len() - 1 ==> #[trigger] self.effect(path[k] as int, e) == Effect::Keep
    }
}

/// A move lasts until the place is given a value again: what is `Moved`
/// after a statement is `Moved` on entry to every point that control can
/// reach from there without passing a statement that touches the place.
pub proof fn lemma_moved_along_path(prog: &Program, f: &Function, e: int, path: Seq<usize>)
    requires
        f.well_formed(prog),
        f.untouched_path(e, path),
        f.state_after(e, path[0] as int) == PlaceState::Moved,
    ensures
        f.state_at(e, path.last() as int) == PlaceState::Moved,
    decreases path.len(),
{
    let n = path.len() as int;
    if n == 2 {
        assert(f.step(path, 0));
        lemma_moved_reaches(prog, f, e, Edge { from: path[0], to: path[1] });
    } else {
        let shorter = path.drop_last();
        assert forall|k: int| 0 <= k < shorter.len() - 1 implies #[trigger] f.step(shorter, k) by {
            assert(f.step(path, k));
        }
        assert forall|k: int| 1 <= k < shorter.len() - 1 implies #[trigger] f.effect(
            shorter[k] as int,
            e,
        ) == Effect::Keep by {
            assert(f.effect(path[k] as int, e) == Effect::Keep);
        }
        lemma_moved_along_path(prog, f, e, shorter);
        assert(f.step(path, n - 2));
        assert(f.effect(path[n - 2] as int, e) == Effect::Keep);
        lemma_moved_reaches(prog, f, e, Edge { from: path[n - 2], to: path[n - 1] });
    }
}

/// A read after a move is reported: if the value of the place is moved away
/// on some way into the statement, an operand of the statement that reads
/// the place gets a `UseAfterMove` at the point of the read.
pub proof fn lemma_read_after_move(prog: &Program, f: &Function, p: int, i: int, ed: Edge)
    requires
        f.well_formed(prog),
        0 <= p < f.points(),
        0 <= i < f.stmts@[p].uses@.len(),
        f.stmts@[p].uses@[i].mode == AccessMode::Read,
        !f.declared_by(p, f.stmts@[p].uses@[i].place as int),
        f.has_edge(ed),
        ed.to == p,
        f.state_after(f.stmts@[p].uses@[i].place as int, ed.from as int) == PlaceState::Moved,
    ensures
        f.operand_finding(p, i) == Some(
            Finding {
                kind: DiagKind::UseAfterMove,
                point: p as usize,
                place: f.stmts@[p].uses@[i].place,
                related: None,
            },
        ),
{
    let b = f.stmts@[p].uses@[i].place as int;
    assert(f.stmt_wf(prog, p));
    lemma_moved_reaches(prog, f, b, ed);
    assert(f.seen(p, i, b) == PlaceState::Moved);
    assert(f.hit(p, i, b, b, PlaceState::Moved));
}

/// No finding after a reassignment: if on every way into a statement the
/// place that an operand uses, its aggregate and its fields all hold their
/// values, and the statement itself does not take them first, the operand
/// gets no finding.
pub proof fn lemma_no_finding_when_live(prog: &Program, f: &Function, p: int, i: int)
    requires
        f.well_formed(prog),
        0 <= p < f.points(),
        0 <= i < f.stmts@[p].uses@.len(),
        forall|c: int|
            0 <= c < f.places() && #[trigger] f.relevant(f.stmts@[p].uses@[i].place as int, c) ==> {
                &&& !f.moved_before(p, i, c)
                &&& !f.declared_by(p, c)
                &&& p == 0 ==> f.entry_state(c) == PlaceState::Live
                &&& forall|ed: Edge| #[trigger]
                    f.has_edge(ed) && ed.to == p ==> f.state_after(c, ed.from as int)
                        == PlaceState::Live
            },
    ensures
        f.operand_finding(p, i) is None,
{
    let b = f.stmts@[p].uses@[i].place as int;
    assert forall|c: int, s: PlaceState|
        0 <= c < f.places() && s != PlaceState::Live implies !#[trigger] f.hit(p, i, b, c, s) by {
        if f.relevant(b, c) {
            lemma_flow_is_tight(prog, f, c, p, PlaceState::Live);
        }
    }
}

/// What the ownership analyzer finds for an operand is among its findings.
pub proof fn lemma_operand_finding_emitted(f: &Function, p: int, i: int, x: Finding)
    requires
        0 <= p < f.points(),
        0 <= i < f.stmts@[p].uses@.len(),
        f.operand_finding(p, i) == Some(x),
    ensures
        f.ownership_findings(f.points()).contains(x),
{
    lemma_operand_findings_hold(f, p, i, f.stmts@[p].uses@.len() as int, x);
    lemma_ownership_findings_hold(f, p, f.points(), x);
}

proof fn lemma_operand_findings_hold(f: &Function, p: int, i: int, upto: int, x: Finding)
    requires
        0 <= i < upto,
        f.operand_finding(p, i) == Some(x),
    ensures
        f.operand_findings(p, upto).contains(x),
    decreases upto,
{
    let before = f.operand_findings(p, upto - 1);
    if i < upto - 1 {
        lemma_operand_findings_hold(f, p, i, upto - 1, x);
        match f.operand_finding(p, upto - 1) {
            Some(y) => {
                lemma_contains_push(before, y, x);
            },
            None => {},
        }
    } else {
        lemma_contains_push(before, x, x);
    }
}

proof fn lemma_ownership_findings_hold(f: &Function, p: int, upto: int, x: Finding)
    requires
        0 <= p < upto,
        f.operand_findings(p, f.stmts@[p].uses@.len() as int).contains(x),
    ensures
        f.ownership_findings(upto).contains(x),
    decreases upto,
{
    let before = f.ownership_findings(upto - 1);
    let here = f.operand_findings(upto - 1, f.stmts@[upto - 1].uses@.len() as int);
    if p < upto - 1 {
        lemma_ownership_findings_hold(f, p, upto - 1, x);
    }
    lemma_contains_add(before, here, x);
}

} // verus!
