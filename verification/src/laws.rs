//! What holds of every run of the verifier, whatever the program.

use crate::borrows::{lemma_exclusive_borrow_conflicts, regions_meet};
use crate::dataflow::Edge;
use crate::diag::{DiagKind, Finding};
use crate::engine::{diagnostic_of, function_diagnostics, is_verdict, program_diagnostics};
use crate::lattice::PlaceState;
use crate::model::{AccessMode, BorrowKind, Program};
use crate::ownership::{lemma_operand_finding_emitted, lemma_read_after_move};
use crate::report::{is_report_of, lemma_reported_once, same_key, views, DiagnosticView, Location, Report};
use crate::scopes::structural_error;
use crate::seqs::lemma_contains_add;
use vstd::prelude::*;

verus! {

/// Entry `k` of `out` has the given kind and lies at point `p` of function
/// `fidx`, and no other entry of `out` does.
pub open spec fn only_at(out: Seq<DiagnosticView>, k: int, kind: DiagKind, fidx: usize, p: usize) -> bool {
    &&& 0 <= k < out.len()
    &&& out[k].kind == kind
    &&& out[k].location == Location { function: fidx, point: p }
    &&& forall|l: int|
        0 <= l < out.len() && (#[trigger] out[l]).kind == kind && out[l].location == (Location {
            function: fidx,
            point: p,
        }) ==> l == k
}

/// The report has exactly one diagnostic of the given kind at point `p` of
/// function `fidx`.
pub open spec fn reported_once(out: Seq<DiagnosticView>, kind: DiagKind, fidx: usize, p: usize) -> bool {
    exists|k: int| #[trigger] only_at(out, k, kind, fidx, p)
}

proof fn lemma_program_diagnostics_hold(prog: &Program, fidx: usize, upto: int, d: DiagnosticView)
    requires
        fidx < upto,
        function_diagnostics(prog, fidx).contains(d),
    ensures
        program_diagnostics(prog, upto).contains(d),
    decreases upto,
{
    let before = program_diagnostics(prog, upto - 1);
    let here = function_diagnostics(prog, (upto - 1) as usize);
    if fidx < upto - 1 {
        lemma_program_diagnostics_hold(prog, fidx, upto - 1, d);
    }
    lemma_contains_add(before, here, d);
}

/// Whatever a pass finds in a sound function is reported, and reported
/// once: the report of the program has exactly one diagnostic with the kind
/// of the finding at its point.
pub proof fn lemma_finding_reported_once(
    prog: &Program,
    fidx: usize,
    x: Finding,
    out: Seq<DiagnosticView>,
)
    requires
        fidx < prog.functions@.len(),
        structural_error(prog, &prog.functions@[fidx as int]) is None,
        prog.functions@[fidx as int].findings(prog).contains(x),
        is_report_of(program_diagnostics(prog, prog.functions@.len() as int), out),
    ensures
        reported_once(out, x.kind, fidx, x.point),
{
    let f = &prog.functions@[fidx as int];
    let found = f.findings(prog);
    let at = choose|at: int| 0 <= at < found.len() && found[at] == x;
    let d = diagnostic_of(f, fidx, x);
    let emitted = function_diagnostics(prog, fidx);
    assert(emitted[at] == d);
    let all = program_diagnostics(prog, prog.functions@.len() as int);
    lemma_program_diagnostics_hold(prog, fidx, prog.functions@.len() as int, d);
    let j = choose|j: int| 0 <= j < all.len() && all[j] == d;
    lemma_reported_once(all, out, j);
    let k = choose|k: int|
        0 <= k < out.len() && #[trigger] same_key(out[k], all[j]) && forall|l: int|
            0 <= l < out.len() && #[trigger] same_key(out[l], all[j]) ==> l == k;
    assert forall|l: int|
        0 <= l < out.len() && (#[trigger] out[l]).kind == x.kind && out[l].location == (Location {
            function: fidx,
            point: x.point,
        }) implies l == k by {
        assert(same_key(out[l], all[j]));
    }
    assert(only_at(out, k, x.kind, fidx, x.point));
}

/// A read after a move yields exactly one `UseAfterMove` at the read: if
/// the value of a place is moved away on some way into a statement of a
/// sound function, and an operand of the statement reads the place, the
/// report of the program has exactly one `UseAfterMove` at the point of the
/// statement.
pub proof fn lemma_read_after_move_reported_once(
    prog: &Program,
    fidx: usize,
    p: int,
    i: int,
    ed: Edge,
    out: Seq<DiagnosticView>,
)
    requires
        fidx < prog.functions@.len(),
        prog.functions@[fidx as int].well_formed(prog),
        0 <= p < prog.functions@[fidx as int].points(),
        0 <= i < prog.functions@[fidx as int].stmts@[p].uses@.len(),
        prog.functions@[fidx as int].stmts@[p].uses@[i].mode == AccessMode::Read,
        !prog.functions@[fidx as int].declared_by(
            p,
            prog.functions@[fidx as int].stmts@[p].uses@[i].place as int,
        ),
        prog.functions@[fidx as int].has_edge(ed),
        ed.to == p,
        prog.functions@[fidx as int].state_after(
            prog.functions@[fidx as int].stmts@[p].uses@[i].place as int,
            ed.from as int,
        ) == PlaceState::Moved,
        is_report_of(program_diagnostics(prog, prog.functions@.len() as int), out),
    ensures
        reported_once(out, DiagKind::UseAfterMove, fidx, p as usize),
{
    let f = &prog.functions@[fidx as int];
    let x = Finding {
        kind: DiagKind::UseAfterMove,
        point: p as usize,
        place: f.stmts@[p].uses@[i].place,
        related: None,
    };
    lemma_read_after_move(prog, f, p, i, ed);
    lemma_operand_finding_emitted(f, p, i, x);
    let own = f.ownership_findings(f.points());
    let loops = f.loop_findings(f.points());
    let borrows = f.borrow_findings(prog);
    let regions = f.region_findings(prog);
    lemma_contains_add(own, loops, x);
    lemma_contains_add(own + loops, borrows, x);
    lemma_contains_add(own + loops + borrows, regions, x);
    lemma_finding_reported_once(prog, fidx, x, out);
}

/// An exclusive borrow and any other borrow of overlapping storage with an
/// overlapping region always yield a `ConflictingBorrow`: for two such
/// borrows of a sound function, the report of the program has exactly one
/// `ConflictingBorrow` at the creation of the later one.
pub proof fn lemma_conflict_reported_once(
    prog: &Program,
    fidx: usize,
    i: int,
    j: int,
    out: Seq<DiagnosticView>,
)
    requires
        fidx < prog.functions@.len(),
        prog.functions@[fidx as int].well_formed(prog),
        0 <= i < j < prog.functions@[fidx as int].borrows(
            prog,
            prog.functions@[fidx as int].points(),
        ).len(),
        ({
            let f = &prog.functions@[fidx as int];
            let bs = f.borrows(prog, f.points());
            &&& f.overlaps(bs[i].target as int, bs[j].target as int)
            &&& (bs[i].kind == BorrowKind::Exclusive || bs[j].kind == BorrowKind::Exclusive)
            &&& regions_meet(f.borrow_region(prog, bs[i]), f.borrow_region(prog, bs[j]))
        }),
        is_report_of(program_diagnostics(prog, prog.functions@.len() as int), out),
    ensures
        reported_once(
            out,
            DiagKind::ConflictingBorrow,
            fidx,
            prog.functions@[fidx as int].borrows(prog, prog.functions@[fidx as int].points())[j].point,
        ),
{
    let f = &prog.functions@[fidx as int];
    let bs = f.borrows(prog, f.points());
    let x = Finding {
        kind: DiagKind::ConflictingBorrow,
        point: bs[j].point,
        place: bs[j].target,
        related: Some(bs[i].point),
    };
    lemma_exclusive_borrow_conflicts(f, prog, i, j);
    let own = f.ownership_findings(f.points());
    let loops = f.loop_findings(f.points());
    let borrows = f.borrow_findings(prog);
    let regions = f.region_findings(prog);
    lemma_contains_add(own + loops, borrows, x);
    lemma_contains_add(own + loops + borrows, regions, x);
    lemma_finding_reported_once(prog, fidx, x, out);
}

/// Running the verifier twice on the same program gives the same output:
/// two reports that the verifier may return for a program say the same, in
/// the same order.
pub proof fn lemma_verdict_unique(prog: &Program, first: &Report, second: &Report)
    requires
        is_verdict(prog, first),
        is_verdict(prog, second),
    ensures
        views(first.diagnostics@) == views(second.diagnostics@),
        first.has_errors == second.has_errors,
{
}

} // verus!
