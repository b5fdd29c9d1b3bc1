//! The region solver: checks that no reference is live where the storage it
//! points into is not, and that no function returns a reference into its own
//! locals.

use crate::borrows::{holders, touched, Borrow, BorrowSet};
use crate::diag::{DiagKind, Finding};
use crate::model::{AccessMode, Function, Outlives, Program, StmtKind};
use crate::ownership::storage_at;
use crate::scopes::{is_param, Tracker};
use crate::signature::resolve_signature;
use vstd::prelude::*;

verus! {

/// Every point of `short` is a point of `long`.
pub open spec fn contained(short: Seq<bool>, long: Seq<bool>) -> bool {
    forall|q: int| 0 <= q < short.len() && #[trigger] short[q] ==> q < long.len() && long[q]
}

/// Regions and the containments required between them. A region is a set
/// of program points, kept by index; a constraint names two regions and
/// requires that the longer contains the shorter.
#[derive(Debug, Clone, PartialEq, Eq)]
pub struct RegionArena {
    pub regions: Vec<Vec<bool>>,
    pub outlives: Vec<Outlives>,
}

impl RegionArena {
    /// Every constraint names regions of the arena.
    pub open spec fn wf(&self) -> bool {
        forall|k: int|
            0 <= k < self.outlives@.len() ==> (#[trigger] self.outlives@[k]).longer
                < self.regions@.len() && self.outlives@[k].shorter < self.regions@.len()
    }

    /// The shorter region of constraint `k`.
    pub open spec fn shorter(&self, k: int) -> Seq<bool> {
        self.regions@[self.outlives@[k].shorter as int]@
    }

    /// The longer region of constraint `k`.
    pub open spec fn longer(&self, k: int) -> Seq<bool> {
        self.regions@[self.outlives@[k].longer as int]@
    }

    /// Constraint `k` holds.
    pub open spec fn holds(&self, k: int) -> bool {
        contained(self.shorter(k), self.longer(k))
    }

    /// Whether constraint `k` holds.
    pub fn holds_at(&self, k: usize) -> (r: bool)
        requires
            self.wf(),
            k < self.outlives@.len(),
        ensures
            r == self.holds(k as int),
    {
        let short = &self.regions[self.outlives[k].shorter];
        let long = &self.regions[self.outlives[k].longer];
        let mut q: usize = 0;
        while q < short.len()
            invariant
                q <= short@.len(),
                short@ == self.shorter(k as int),
                long@ == self.longer(k as int),
                forall|a: int| 0 <= a < q && #[trigger] short@[a] ==> a < long@.len() && long@[a],
            decreases short@.len() - q,
        {
            if short[q] && !(q < long.len() && long[q]) {
                assert(short@[q as int]);
                return false;
            }
            q += 1;
        }
        true
    }
}

impl Function {
    /// The points at which the storage of entry `e` exists.
    pub open spec fn storage_region(&self, e: int) -> Seq<bool> {
        Seq::new(self.points() as nat, |q: int| self.storage_at(e, q))
    }

    /// Borrow `b` is live at a point where the storage of its target does
    /// not exist.
    pub open spec fn outlived(&self, prog: &Program, b: Borrow) -> bool {
        !contained(self.borrow_region(prog, b), self.storage_region(b.target as int))
    }

    /// What is reported for borrow `b` by itself: if it outlives its target,
    /// a lifetime mismatch where a call created it, since then the result of
    /// the call carries it beyond what the signature of the callee can be
    /// given, and a dangling reference elsewhere.
    pub open spec fn outlived_finding(&self, prog: &Program, b: Borrow) -> Option<Finding> {
        if self.outlived(prog, b) {
            Some(
                Finding {
                    kind: if self.stmts@[b.point as int].kind is Call {
                        DiagKind::LifetimeMismatch
                    } else {
                        DiagKind::DanglingReference
                    },
                    point: b.point,
                    place: b.target,
                    related: None,
                },
            )
        } else {
            None
        }
    }

    /// The findings for the borrows before `upto` that outlive their
    /// targets.
    pub open spec fn outlived_findings(&self, prog: &Program, bs: Seq<Borrow>, upto: int) -> Seq<
        Finding,
    >
        decreases upto,
    {
        if upto <= 0 {
            Seq::empty()
        } else {
            match self.outlived_finding(prog, bs[upto - 1]) {
                Some(x) => self.outlived_findings(prog, bs, upto - 1).push(x),
                None => self.outlived_findings(prog, bs, upto - 1),
            }
        }
    }

    /// A place of `hold` shares storage with place `c`.
    pub open spec fn held_in(&self, hold: Seq<bool>, c: int) -> bool {
        exists|h: int| 0 <= h < self.places() && hold[h] && #[trigger] self.overlaps(h, c)
    }

    /// Operand `i` of the return statement at `p` hands borrow `b` to the
    /// caller although `b` points into storage of this function: the operand
    /// creates `b`, or returns by value a place that may hold `b`, and the
    /// target of `b` does not belong to a parameter.
    pub open spec fn escapes(&self, prog: &Program, p: int, i: int, b: Borrow) -> bool {
        let a = self.stmts@[p].uses@[i];
        &&& !self.is_param(self.root(b.target as int))
        &&& (b.point == p && b.operand == i) || (a.mode == AccessMode::Use && self.held_in(
            self.holders(prog, b.receiver),
            a.place as int,
        ))
    }

    /// The dangling references that operand `i` of the return statement at
    /// `p` hands out, for the borrows before `upto`.
    pub open spec fn escape_findings_for(&self, prog: &Program, bs: Seq<Borrow>, p: int, i: int, upto: int) -> Seq<
        Finding,
    >
        decreases upto,
    {
        if upto <= 0 {
            Seq::empty()
        } else if self.escapes(prog, p, i, bs[upto - 1]) {
            self.escape_findings_for(prog, bs, p, i, upto - 1).push(
                Finding {
                    kind: DiagKind::DanglingReference,
                    point: p as usize,
                    place: bs[upto - 1].target,
                    related: Some(bs[upto - 1].point),
                },
            )
        } else {
            self.escape_findings_for(prog, bs, p, i, upto - 1)
        }
    }

    /// The dangling references that the operands before `upto` of the
    /// statement at `p` hand out; none unless the statement returns.
    pub open spec fn escape_findings_in(&self, prog: &Program, bs: Seq<Borrow>, p: int, upto: int) -> Seq<
        Finding,
    >
        decreases upto,
    {
        if upto <= 0 || !(self.stmts@[p].kind is Return) {
            Seq::empty()
        } else {
            self.escape_findings_in(prog, bs, p, upto - 1) + self.escape_findings_for(
                prog,
                bs,
                p,
                upto - 1,
                bs.len() as int,
            )
        }
    }

    /// The dangling references that the return statements before point
    /// `upto` hand out.
    pub open spec fn escape_findings(&self, prog: &Program, bs: Seq<Borrow>, upto: int) -> Seq<
        Finding,
    >
        decreases upto,
    {
        if upto <= 0 {
            Seq::empty()
        } else {
            self.escape_findings(prog, bs, upto - 1) + self.escape_findings_in(
                prog,
                bs,
                upto - 1,
                self.stmts@[upto - 1].uses@.len() as int,
            )
        }
    }

    /// Parameter `k` is a reference that the signature does not let through
    /// to the result: its region is not declared to outlive the region of
    /// the returned reference.
    pub open spec fn kept_back(&self, k: int) -> bool {
        self.params@[k].region is Some && !self.passes_through(k)
    }

    /// Operand `i` of the return statement at `p` hands the reference of
    /// parameter `k` to the caller although the signature keeps it back: the
    /// operand returns by value a place that may hold what the parameter was
    /// given.
    pub open spec fn leaks(&self, prog: &Program, p: int, i: int, k: int) -> bool {
        let a = self.stmts@[p].uses@[i];
        &&& self.kept_back(k)
        &&& a.mode == AccessMode::Use
        &&& self.held_in(self.holders(prog, Some(self.params@[k].binding)), a.place as int)
    }

    /// The lifetime mismatches of operand `i` of the return statement at `p`
    /// with the signature, for the parameters before `upto`.
    pub open spec fn leak_findings_for(&self, prog: &Program, p: int, i: int, upto: int) -> Seq<
        Finding,
    >
        decreases upto,
    {
        if upto <= 0 {
            Seq::empty()
        } else if self.leaks(prog, p, i, upto - 1) {
            self.leak_findings_for(prog, p, i, upto - 1).push(
                Finding {
                    kind: DiagKind::LifetimeMismatch,
                    point: p as usize,
                    place: self.params@[upto - 1].binding,
                    related: None,
                },
            )
        } else {
            self.leak_findings_for(prog, p, i, upto - 1)
        }
    }

    /// The lifetime mismatches of the operands before `upto` of the
    /// statement at `p` with the signature; none unless the statement
    /// returns.
    pub open spec fn leak_findings_in(&self, prog: &Program, p: int, upto: int) -> Seq<Finding>
        decreases upto,
    {
        if upto <= 0 || !(self.stmts@[p].kind is Return) {
            Seq::empty()
        } else {
            self.leak_findings_in(prog, p, upto - 1) + self.leak_findings_for(
                prog,
                p,
                upto - 1,
                self.params@.len() as int,
            )
        }
    }

    /// The lifetime mismatches of the return statements before point `upto`
    /// with the signature.
    pub open spec fn leak_findings(&self, prog: &Program, upto: int) -> Seq<Finding>
        decreases upto,
    {
        if upto <= 0 {
            Seq::empty()
        } else {
            self.leak_findings(prog, upto - 1) + self.leak_findings_in(
                prog,
                upto - 1,
                self.stmts@[upto - 1].uses@.len() as int,
            )
        }
    }

    /// The findings of the region solver: borrows that outlive their
    /// targets, then references into local storage that are returned, then
    /// references of parameters that are returned against the signature.
    pub open spec fn region_findings(&self, prog: &Program) -> Seq<Finding> {
        let bs = self.borrows(prog, self.points());
        self.outlived_findings(prog, bs, bs.len() as int) + self.escape_findings(
            prog,
            bs,
            self.points(),
        ) + self.leak_findings(prog, self.points())
    }
}

/// The arena of `f`: for each borrow, in order, its region and then the
/// region of the storage of its target, and the constraint that the second
/// contains the first.
pub open spec fn is_arena_of(prog: &Program, f: &Function, arena: &RegionArena) -> bool {
    let bs = f.borrows(prog, f.points());
    &&& arena.wf()
    &&& arena.outlives@.len() == bs.len()
    &&& arena.regions@.len() == 2 * bs.len()
    &&& forall|k: int|
        0 <= k < bs.len() ==> {
            &&& (#[trigger] arena.outlives@[k]).shorter == 2 * k
            &&& arena.outlives@[k].longer == 2 * k + 1
            &&& arena.shorter(k) == f.borrow_region(prog, bs[k])
            &&& arena.longer(k) == f.storage_region(bs[k].target as int)
        }
}

/// A copy of a region.
fn copy_region(region: &Vec<bool>) -> (r: Vec<bool>)
    ensures
        r@ == region@,
{
    let mut r: Vec<bool> = Vec::new();
    let mut q: usize = 0;
    while q < region.len()
        invariant
            q <= region@.len(),
            r@ == region@.subrange(0, q as int),
        decreases region@.len() - q,
    {
        r.push(region[q]);
        assert(r@ =~= region@.subrange(0, q + 1));
        q += 1;
    }
    assert(r@ =~= region@);
    r
}

/// Builds the arena of `f`.
pub fn region_arena(prog: &Program, f: &Function, tracker: &Tracker, set: &BorrowSet) -> (arena:
    RegionArena)
    requires
        f.well_formed(prog),
        tracker.tracks(f),
        set.describes(prog, f),
    ensures
        is_arena_of(prog, f, &arena),
{
    let mut regions: Vec<Vec<bool>> = Vec::new();
    let mut outlives: Vec<Outlives> = Vec::new();
    let mut k: usize = 0;
    while k < set.borrows.len()
        invariant
            k <= set.borrows@.len(),
            f.well_formed(prog),
            tracker.tracks(f),
            set.describes(prog, f),
            regions@.len() == 2 * k,
            outlives@.len() == k,
            forall|j: int|
                0 <= j < k ==> {
                    &&& (#[trigger] outlives@[j]).shorter == 2 * j
                    &&& outlives@[j].longer == 2 * j + 1
                    &&& regions@[2 * j]@ == f.borrow_region(prog, set.borrows@[j])
                    &&& regions@[2 * j + 1]@ == f.storage_region(set.borrows@[j].target as int)
                },
        decreases set.borrows@.len() - k,
    {
        let b = set.borrows[k];
        assert(f.is_borrow(prog, b));
        let mut storage: Vec<bool> = Vec::new();
        let mut q: usize = 0;
        while q < f.stmts.len()
            invariant
                q <= f.points(),
                f.well_formed(prog),
                tracker.tracks(f),
                b.target < f.places(),
                storage@.len() == q,
                forall|a: int|
                    0 <= a < q ==> (#[trigger] storage@[a]) == f.storage_at(b.target as int, a),
            decreases f.points() - q,
        {
            storage.push(storage_at(prog, f, tracker, b.target, q));
            q += 1;
        }
        assert(storage@ =~= f.storage_region(b.target as int));
        assert(set.regions@[k as int]@ == f.borrow_region(prog, b));
        let ghost old_regions = regions@;
        let ghost old_outlives = outlives@;
        let shorter = regions.len();
        regions.push(copy_region(&set.regions[k]));
        let longer = regions.len();
        regions.push(storage);
        outlives.push(Outlives { longer, shorter });
        proof {
            assert forall|j: int| 0 <= j < k + 1 implies {
                &&& (#[trigger] outlives@[j]).shorter == 2 * j
                &&& outlives@[j].longer == 2 * j + 1
                &&& regions@[2 * j]@ == f.borrow_region(prog, set.borrows@[j])
                &&& regions@[2 * j + 1]@ == f.storage_region(set.borrows@[j].target as int)
            } by {
                if j < k {
                    assert(outlives@[j] == old_outlives[j]);
                    assert(regions@[2 * j] == old_regions[2 * j]);
                    assert(regions@[2 * j + 1] == old_regions[2 * j + 1]);
                }
            }
        }
        k += 1;
    }
    RegionArena { regions, outlives }
}

/// Appends to `out` the dangling references that operand `i` of the return
/// statement at `p` hands out.
fn push_escapes(
    prog: &Program,
    f: &Function,
    set: &BorrowSet,
    p: usize,
    i: usize,
    out: &mut Vec<Finding>,
)
    requires
        f.well_formed(prog),
        set.describes(prog, f),
        p < f.points(),
        i < f.stmts@[p as int].uses@.len(),
    ensures
        final(out)@ == old(out)@ + f.escape_findings_for(
            prog,
            set.borrows@,
            p as int,
            i as int,
            set.borrows@.len() as int,
        ),
{
    let ghost head = out@;
    assert(f.stmt_wf(prog, p as int));
    let a = f.stmts[p].uses[i];
    let by_value = match a.mode {
        AccessMode::Use => true,
        _ => false,
    };
    let mut k: usize = 0;
    while k < set.borrows.len()
        invariant
            k <= set.borrows@.len(),
            f.well_formed(prog),
            set.describes(prog, f),
            p < f.points(),
            i < f.stmts@[p as int].uses@.len(),
            a == f.stmts@[p as int].uses@[i as int],
            a.place < f.places(),
            by_value == (a.mode == AccessMode::Use),
            out@ == head + f.escape_findings_for(prog, set.borrows@, p as int, i as int, k as int),
        decreases set.borrows@.len() - k,
    {
        let b = set.borrows[k];
        assert(f.is_borrow(prog, b));
        assert(f.binding_wf(b.target as int));
        let root = match f.bindings[b.target].field_of {
            Some(o) => o,
            None => b.target,
        };
        let local = !is_param(f, root);
        let made_here = b.point == p && b.operand == i;
        assert(set.holders@[k as int]@ == f.holders(prog, b.receiver));
        let held = by_value && touched(f, &set.holders[k], a.place);
        if local && (made_here || held) {
            out.push(
                Finding {
                    kind: DiagKind::DanglingReference,
                    point: p,
                    place: b.target,
                    related: Some(b.point),
                },
            );
        }
        assert(out@ =~= head + f.escape_findings_for(
            prog,
            set.borrows@,
            p as int,
            i as int,
            k + 1,
        ));
        k += 1;
    }
}

/// Appends to `out` the lifetime mismatches of operand `i` of the return
/// statement at `p` with the signature. `through` tells for each parameter
/// whether the signature lets it through, and `held` which places may hold
/// what it was given.
fn push_leaks(
    prog: &Program,
    f: &Function,
    through: &Vec<bool>,
    held: &Vec<Vec<bool>>,
    p: usize,
    i: usize,
    out: &mut Vec<Finding>,
)
    requires
        f.well_formed(prog),
        p < f.points(),
        i < f.stmts@[p as int].uses@.len(),
        through@.len() == f.params@.len(),
        held@.len() == f.params@.len(),
        forall|k: int| 0 <= k < through@.len() ==> (#[trigger] through@[k]) == f.passes_through(k),
        forall|k: int|
            0 <= k < held@.len() ==> (#[trigger] held@[k])@ == f.holders(
                prog,
                Some(f.params@[k].binding),
            ) && held@[k]@.len() == f.places(),
    ensures
        final(out)@ == old(out)@ + f.leak_findings_for(
            prog,
            p as int,
            i as int,
            f.params@.len() as int,
        ),
{
    let ghost head = out@;
    assert(f.stmt_wf(prog, p as int));
    let a = f.stmts[p].uses[i];
    let by_value = match a.mode {
        AccessMode::Use => true,
        _ => false,
    };
    let mut k: usize = 0;
    while k < f.params.len()
        invariant
            k <= f.params@.len(),
            p < f.points(),
            i < f.stmts@[p as int].uses@.len(),
            a == f.stmts@[p as int].uses@[i as int],
            a.place < f.places(),
            by_value == (a.mode == AccessMode::Use),
            through@.len() == f.params@.len(),
            held@.len() == f.params@.len(),
            forall|j: int|
                0 <= j < through@.len() ==> (#[trigger] through@[j]) == f.passes_through(j),
            forall|j: int|
                0 <= j < held@.len() ==> (#[trigger] held@[j])@ == f.holders(
                    prog,
                    Some(f.params@[j].binding),
                ) && held@[j]@.len() == f.places(),
            out@ == head + f.leak_findings_for(prog, p as int, i as int, k as int),
        decreases f.params@.len() - k,
    {
        let kept_back = f.params[k].region.is_some() && !through[k];
        assert(held@[k as int]@ == f.holders(prog, Some(f.params@[k as int].binding)));
        if kept_back && by_value && touched(f, &held[k], a.place) {
            out.push(
                Finding {
                    kind: DiagKind::LifetimeMismatch,
                    point: p,
                    place: f.params[k].binding,
                    related: None,
                },
            );
        }
        assert(out@ =~= head + f.leak_findings_for(prog, p as int, i as int, k + 1));
        k += 1;
    }
}

/// The findings of the region solver: for each borrow that is live at a
/// point where the storage of its target does not exist, a
/// `LifetimeMismatch` at the call that created it or a `DanglingReference`
/// at any other statement that did; and for each reference into storage of
/// the function that a return statement hands to the caller, a
/// `DanglingReference` at the return; and for each reference of a parameter
/// that a return statement hands to the caller although the signature does
/// not let that parameter through, a `LifetimeMismatch` at the return.
pub fn region_findings(
    prog: &Program,
    f: &Function,
    set: &BorrowSet,
    arena: &RegionArena,
) -> (r: Vec<Finding>)
    requires
        f.well_formed(prog),
        set.describes(prog, f),
        is_arena_of(prog, f, arena),
    ensures
        r@ == f.region_findings(prog),
{
    let mut r: Vec<Finding> = Vec::new();
    let mut k: usize = 0;
    while k < set.borrows.len()
        invariant
            k <= set.borrows@.len(),
            f.well_formed(prog),
            set.describes(prog, f),
            is_arena_of(prog, f, arena),
            r@ == f.outlived_findings(prog, set.borrows@, k as int),
        decreases set.borrows@.len() - k,
    {
        let b = set.borrows[k];
        assert(f.is_borrow(prog, b));
        assert(arena.outlives@[k as int].shorter == 2 * k);
        if !arena.holds_at(k) {
            let kind = match f.stmts[b.point].kind {
                StmtKind::Call(_) => DiagKind::LifetimeMismatch,
                _ => DiagKind::DanglingReference,
            };
            r.push(Finding { kind, point: b.point, place: b.target, related: None });
        }
        k += 1;
    }
    let ghost head = r@;
    let mut p: usize = 0;
    while p < f.stmts.len()
        invariant
            p <= f.points(),
            f.well_formed(prog),
            set.describes(prog, f),
            r@ == head + f.escape_findings(prog, set.borrows@, p as int),
        decreases f.points() - p,
    {
        let ghost at_p = r@;
        let is_return = match f.stmts[p].kind {
            StmtKind::Return => true,
            _ => false,
        };
        if is_return {
            let mut i: usize = 0;
            while i < f.stmts[p].uses.len()
                invariant
                    p < f.points(),
                    i <= f.stmts@[p as int].uses@.len(),
                    f.stmts@[p as int].kind is Return,
                    f.well_formed(prog),
                    set.describes(prog, f),
                    r@ == at_p + f.escape_findings_in(prog, set.borrows@, p as int, i as int),
                decreases f.stmts@[p as int].uses@.len() - i,
            {
                push_escapes(prog, f, set, p, i, &mut r);
                assert(r@ =~= at_p + f.escape_findings_in(prog, set.borrows@, p as int, i + 1));
                i += 1;
            }
        } else {
            assert(f.escape_findings_in(
                prog,
                set.borrows@,
                p as int,
                f.stmts@[p as int].uses@.len() as int,
            ) =~= Seq::empty());
        }
        assert(r@ =~= head + f.escape_findings(prog, set.borrows@, p + 1));
        p += 1;
    }
    let through = resolve_signature(f);
    let mut held: Vec<Vec<bool>> = Vec::new();
    let mut k: usize = 0;
    while k < f.params.len()
        invariant
            k <= f.params@.len(),
            f.well_formed(prog),
            set.describes(prog, f),
            held@.len() == k,
            forall|j: int|
                0 <= j < k ==> (#[trigger] held@[j])@ == f.holders(
                    prog,
                    Some(f.params@[j].binding),
                ) && held@[j]@.len() == f.places(),
        decreases f.params@.len() - k,
    {
        assert(f.param_wf(k as int));
        held.push(holders(prog, f, &set.flows, Some(f.params[k].binding)));
        k += 1;
    }
    let ghost before_leaks = r@;
    let mut p: usize = 0;
    while p < f.stmts.len()
        invariant
            p <= f.points(),
            f.well_formed(prog),
            through@.len() == f.params@.len(),
            held@.len() == f.params@.len(),
            forall|j: int|
                0 <= j < through@.len() ==> (#[trigger] through@[j]) == f.passes_through(j),
            forall|j: int|
                0 <= j < held@.len() ==> (#[trigger] held@[j])@ == f.holders(
                    prog,
                    Some(f.params@[j].binding),
                ) && held@[j]@.len() == f.places(),
            r@ == before_leaks + f.leak_findings(prog, p as int),
        decreases f.points() - p,
    {
        let ghost at_p = r@;
        let is_return = match f.stmts[p].kind {
            StmtKind::Return => true,
            _ => false,
        };
        if is_return {
            let mut i: usize = 0;
            while i < f.stmts[p].uses.len()
                invariant
                    p < f.points(),
                    i <= f.stmts@[p as int].uses@.len(),
                    f.stmts@[p as int].kind is Return,
                    f.well_formed(prog),
                    through@.len() == f.params@.len(),
                    held@.len() == f.params@.len(),
                    forall|j: int|
                        0 <= j < through@.len() ==> (#[trigger] through@[j]) == f.passes_through(
                            j,
                        ),
                    forall|j: int|
                        0 <= j < held@.len() ==> (#[trigger] held@[j])@ == f.holders(
                            prog,
                            Some(f.params@[j].binding),
                        ) && held@[j]@.len() == f.places(),
                    r@ == at_p + f.leak_findings_in(prog, p as int, i as int),
                decreases f.stmts@[p as int].uses@.len() - i,
            {
                push_leaks(prog, f, &through, &held, p, i, &mut r);
                assert(r@ =~= at_p + f.leak_findings_in(prog, p as int, i + 1));
                i += 1;
            }
        } else {
            assert(f.leak_findings_in(prog, p as int, f.stmts@[p as int].uses@.len() as int)
                =~= Seq::empty());
        }
        assert(r@ =~= before_leaks + f.leak_findings(prog, p + 1));
        p += 1;
    }
    assert(r@ =~= f.region_findings(prog));
    r
}

} // verus!
