//! The engine: runs the passes over the functions of a program and
//! reports what they find.

use crate::borrows::{borrow_findings, find_borrows};
use crate::cfg::edge_list;
use crate::diag::{DiagKind, Finding};
use crate::drops::{drop_schedule, Release};
use crate::model::{Function, Program};
use crate::ownership::{loop_findings, ownership_findings};
use crate::regions::{region_arena, region_findings};
use crate::report::{
    any_error, is_report_of, report, report_of, views, Diagnostic, DiagnosticView, Location,
    Report,
};
use crate::scopes::{structural_error, track, StructuralError};
use crate::signature::{resolve_signatures, resolves};
use vstd::prelude::*;
use vstd::string::*;

verus! {

/// What a diagnostic of the given kind says before it names its subject.
pub open spec fn kind_text(kind: DiagKind) -> Seq<char> {
    match kind {
        DiagKind::UseAfterMove => "use of moved value"@,
        DiagKind::UninitializedUse => "use of uninitialized value"@,
        DiagKind::DoubleMove => "value moved more than once"@,
        DiagKind::ConflictingBorrow => "conflicting borrow"@,
        DiagKind::BorrowOfInvalidValue => "borrow of moved or uninitialized value"@,
        DiagKind::DanglingReference => "reference outlives the storage it points into"@,
        DiagKind::LifetimeMismatch => "regions cannot satisfy the signature"@,
        DiagKind::PossiblyMovedInLoop => "value may be moved in an earlier iteration of the loop"@,
        DiagKind::StructuralError => "malformed function"@,
    }
}

/// Which part of a function a structural error names.
pub open spec fn error_text(e: StructuralError) -> Seq<char> {
    match e {
        StructuralError::Signature => "signature"@,
        StructuralError::Bindings => "bindings"@,
        StructuralError::Scopes => "scopes"@,
        StructuralError::Statements => "statements"@,
        StructuralError::Declarations => "declarations"@,
    }
}

/// The name of entry `place` of the binding table, or nothing for a place
/// that the table does not have.
pub open spec fn subject(f: &Function, place: usize) -> Seq<char> {
    if place < f.places() {
        f.bindings@[place as int].name@
    } else {
        Seq::empty()
    }
}

/// The diagnostic for a finding in function `fidx`: its message is the text
/// of the kind, a colon and a space, and the name of the place.
pub open spec fn diagnostic_of(f: &Function, fidx: usize, x: Finding) -> DiagnosticView {
    DiagnosticView {
        kind: x.kind,
        location: Location { function: fidx, point: x.point },
        related: match x.related {
            Some(q) => seq![Location { function: fidx, point: q }],
            None => Seq::empty(),
        },
        message: kind_text(x.kind) + ": "@ + subject(f, x.place),
    }
}

/// The diagnostic for a malformed function, at its entry.
pub open spec fn structural_diagnostic(fidx: usize, e: StructuralError) -> DiagnosticView {
    DiagnosticView {
        kind: DiagKind::StructuralError,
        location: Location { function: fidx, point: 0 },
        related: Seq::empty(),
        message: kind_text(DiagKind::StructuralError) + ": "@ + error_text(e),
    }
}

impl Function {
    /// Everything the passes find in a sound function, in the order of
    /// emission: the ownership analyzer with its loop warnings, then the
    /// borrow checker, then the region solver.
    pub open spec fn findings(&self, prog: &Program) -> Seq<Finding> {
        self.ownership_findings(self.points()) + self.loop_findings(self.points())
            + self.borrow_findings(prog) + self.region_findings(prog)
    }
}

/// The diagnostics emitted for function `fidx`: a single structural error
/// for a malformed function, which is not analysed further, and else one
/// diagnostic per finding.
pub open spec fn function_diagnostics(prog: &Program, fidx: usize) -> Seq<DiagnosticView> {
    let f = &prog.functions@[fidx as int];
    match structural_error(prog, f) {
        Some(e) => seq![structural_diagnostic(fidx, e)],
        None => f.findings(prog).map_values(|x: Finding| diagnostic_of(f, fidx, x)),
    }
}

/// The diagnostics emitted for the functions before `upto`, by function.
pub open spec fn program_diagnostics(prog: &Program, upto: int) -> Seq<DiagnosticView>
    decreases upto,
{
    if upto <= 0 {
        Seq::empty()
    } else {
        program_diagnostics(prog, upto - 1) + function_diagnostics(prog, (upto - 1) as usize)
    }
}

/// What the passes compute for one sound function.
#[derive(Debug, Clone, PartialEq, Eq)]
pub struct Analysis {
    /// The findings, in the order of emission.
    pub findings: Vec<Finding>,
    /// The drop schedule.
    pub drops: Vec<Release>,
    /// How many passes over the control-flow graph the ownership analysis
    /// made.
    pub passes: usize,
}

fn push_all(out: &mut Vec<Finding>, more: &Vec<Finding>)
    ensures
        final(out)@ == old(out)@ + more@,
{
    let ghost head = out@;
    let mut k: usize = 0;
    while k < more.len()
        invariant
            k <= more@.len(),
            out@ == head + more@.subrange(0, k as int),
        decreases more@.len() - k,
    {
        out.push(more[k]);
        assert(out@ =~= head + more@.subrange(0, k + 1));
        k += 1;
    }
    assert(more@.subrange(0, more@.len() as int) =~= more@);
}

/// Analyses function `fidx` of the program: checks its structure, then runs
/// the ownership analyzer, the borrow checker, the region solver and the
/// drop scheduler over it. Fails, without analysing, for a malformed
/// function.
pub fn analyze(prog: &Program, sigs: &Vec<Vec<bool>>, fidx: usize) -> (r: Result<
    Analysis,
    StructuralError,
>)
    requires
        fidx < prog.functions@.len(),
        resolves(prog, sigs@),
    ensures
        match r {
            Ok(a) => {
                let f = &prog.functions@[fidx as int];
                &&& structural_error(prog, f) is None
                &&& a.findings@ == f.findings(prog)
                &&& a.drops@ == f.drop_schedule(f.points())
                &&& a.passes <= f.places() * (2 * f.points() + 1)
            },
            Err(e) => structural_error(prog, &prog.functions@[fidx as int]) == Some(e),
        },
{
    let f = &prog.functions[fidx];
    let tracker = match track(prog, f) {
        Ok(t) => t,
        Err(e) => {
            return Err(e);
        },
    };
    let edges = edge_list(f);
    let own = crate::ownership::analyze(prog, f, &edges);
    let mut findings = ownership_findings(prog, f, &own);
    let loops = loop_findings(prog, f, &tracker, &own, &edges);
    push_all(&mut findings, &loops);
    let set = find_borrows(prog, f, sigs, &edges);
    let borrows = borrow_findings(prog, f, &own, &set);
    push_all(&mut findings, &borrows);
    let arena = region_arena(prog, f, &tracker, &set);
    let regions = region_findings(prog, f, &set, &arena);
    push_all(&mut findings, &regions);
    let drops = drop_schedule(prog, f, &own);
    Ok(Analysis { findings, drops, passes: own.passes })
}

fn kind_message(kind: DiagKind) -> (r: String)
    ensures
        r@ == kind_text(kind),
{
    match kind {
        DiagKind::UseAfterMove => String::from_str("use of moved value"),
        DiagKind::UninitializedUse => String::from_str("use of uninitialized value"),
        DiagKind::DoubleMove => String::from_str("value moved more than once"),
        DiagKind::ConflictingBorrow => String::from_str("conflicting borrow"),
        DiagKind::BorrowOfInvalidValue => String::from_str("borrow of moved or uninitialized value"),
        DiagKind::DanglingReference => String::from_str(
            "reference outlives the storage it points into",
        ),
        DiagKind::LifetimeMismatch => String::from_str(
            "regions cannot satisfy the signature",
        ),
        DiagKind::PossiblyMovedInLoop => String::from_str(
            "value may be moved in an earlier iteration of the loop",
        ),
        DiagKind::StructuralError => String::from_str("malformed function"),
    }
}

/// The diagnostic for a finding in function `fidx`.
pub fn to_diagnostic(f: &Function, fidx: usize, x: Finding) -> (d: Diagnostic)
    ensures
        d@ == diagnostic_of(f, fidx, x),
{
    let mut message = kind_message(x.kind);
    message.append(": ");
    if x.place < f.bindings.len() {
        message.append(f.bindings[x.place].name.as_str());
    }
    let mut related: Vec<Location> = Vec::new();
    match x.related {
        Some(q) => {
            related.push(Location { function: fidx, point: q });
        },
        None => {},
    }
    let d = Diagnostic {
        kind: x.kind,
        location: Location { function: fidx, point: x.point },
        related,
        message,
    };
    assert(d@.message =~= diagnostic_of(f, fidx, x).message);
    assert(d@.related =~= diagnostic_of(f, fidx, x).related);
    d
}

/// The diagnostic for a malformed function.
pub fn to_structural_diagnostic(fidx: usize, e: StructuralError) -> (d: Diagnostic)
    ensures
        d@ == structural_diagnostic(fidx, e),
{
    let mut message = kind_message(DiagKind::StructuralError);
    message.append(": ");
    match e {
        StructuralError::Signature => message.append("signature"),
        StructuralError::Bindings => message.append("bindings"),
        StructuralError::Scopes => message.append("scopes"),
        StructuralError::Statements => message.append("statements"),
        StructuralError::Declarations => message.append("declarations"),
    }
    let d = Diagnostic {
        kind: DiagKind::StructuralError,
        location: Location { function: fidx, point: 0 },
        related: Vec::new(),
        message,
    };
    assert(d@.message =~= structural_diagnostic(fidx, e).message);
    assert(d@.related =~= structural_diagnostic(fidx, e).related);
    d
}

/// The diagnostics for function `fidx`, in the order of emission. Every
/// problem of a sound function is reported, not only the first; a malformed
/// function gets a single structural error and does not keep the other
/// functions from being analysed.
pub fn diagnose(prog: &Program, sigs: &Vec<Vec<bool>>, fidx: usize) -> (r: Vec<Diagnostic>)
    requires
        fidx < prog.functions@.len(),
        resolves(prog, sigs@),
    ensures
        views(r@) == function_diagnostics(prog, fidx),
{
    let mut out: Vec<Diagnostic> = Vec::new();
    match analyze(prog, sigs, fidx) {
        Err(e) => {
            out.push(to_structural_diagnostic(fidx, e));
            assert(views(out@) =~= function_diagnostics(prog, fidx));
        },
        Ok(a) => {
            let f = &prog.functions[fidx];
            let ghost want = function_diagnostics(prog, fidx);
            let mut k: usize = 0;
            while k < a.findings.len()
                invariant
                    k <= a.findings@.len(),
                    fidx < prog.functions@.len(),
                    *f == prog.functions@[fidx as int],
                    want == a.findings@.map_values(|x: Finding| diagnostic_of(f, fidx, x)),
                    views(out@) == want.subrange(0, k as int),
                decreases a.findings@.len() - k,
            {
                let ghost before = out@;
                let d = to_diagnostic(f, fidx, a.findings[k]);
                assert(want[k as int] == diagnostic_of(f, fidx, a.findings@[k as int]));
                out.push(d);
                assert(views(out@) =~= views(before).push(d@));
                assert(views(out@) =~= want.subrange(0, k + 1));
                k += 1;
            }
            assert(want.subrange(0, want.len() as int) =~= want);
        },
    }
    out
}

/// `r` is the report of the program: the report for the diagnostics of all
/// its functions, with its error flag. A program has one report.
pub open spec fn is_verdict(prog: &Program, r: &Report) -> bool {
    &&& views(r.diagnostics@) == report_of(program_diagnostics(prog, prog.functions@.len() as int))
    &&& is_report_of(program_diagnostics(prog, prog.functions@.len() as int), views(r.diagnostics@))
    &&& r.has_errors == any_error(views(r.diagnostics@))
}

/// Verifies a program: analyses every function and builds the report of
/// all diagnostics. The result depends on the program alone.
pub fn verify(prog: &Program) -> (r: Report)
    ensures
        is_verdict(prog, &r),
{
    let sigs = resolve_signatures(prog);
    let mut all: Vec<Diagnostic> = Vec::new();
    let mut fidx: usize = 0;
    assert(views(all@) =~= program_diagnostics(prog, 0));
    while fidx < prog.functions.len()
        invariant
            fidx <= prog.functions@.len(),
            resolves(prog, sigs@),
            views(all@) == program_diagnostics(prog, fidx as int),
        decreases prog.functions@.len() - fidx,
    {
        let ghost head = views(all@);
        let mut more = diagnose(prog, &sigs, fidx);
        let ghost tail = views(more@);
        all.append(&mut more);
        assert(views(all@) =~= head + tail);
        fidx += 1;
    }
    report(&all)
}

} // verus!
