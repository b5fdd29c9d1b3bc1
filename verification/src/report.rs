//! The diagnostic reporter: diagnostics, and their final order.

use crate::diag::{DiagKind, Severity};
use vstd::prelude::*;

verus! {

/// A source location: a program point of a function of the program.
#[derive(Debug, Clone, Copy, PartialEq, Eq, Structural)]
pub struct Location {
    pub function: usize,
    pub point: usize,
}

/// A diagnostic. Nothing changes one after it is emitted.
#[derive(Debug, Clone, PartialEq, Eq)]
pub struct Diagnostic {
    pub kind: DiagKind,
    /// Where the problem is.
    pub location: Location,
    /// Other locations that take part in it.
    pub related: Vec<Location>,
    pub message: String,
}

/// What a diagnostic says, as plain values.
pub struct DiagnosticView {
    pub kind: DiagKind,
    pub location: Location,
    pub related: Seq<Location>,
    pub message: Seq<char>,
}

impl View for Diagnostic {
    type V = DiagnosticView;

    open spec fn view(&self) -> DiagnosticView {
        DiagnosticView {
            kind: self.kind,
            location: self.location,
            related: self.related@,
            message: self.message@,
        }
    }
}

/// What each diagnostic of a list says.
pub open spec fn views(ds: Seq<Diagnostic>) -> Seq<DiagnosticView> {
    ds.map_values(|d: Diagnostic| d@)
}

/// Location `a` comes before location `b`: in an earlier function, or at an
/// earlier point of the same function.
pub open spec fn loc_lt(a: Location, b: Location) -> bool {
    a.function < b.function || (a.function == b.function && a.point < b.point)
}

/// Two diagnostics are duplicates of each other: same kind, same location.
pub open spec fn same_key(a: DiagnosticView, b: DiagnosticView) -> bool {
    a.kind == b.kind && a.location == b.location
}

/// Diagnostic `i` repeats an earlier one of the list.
pub open spec fn repeats(ds: Seq<DiagnosticView>, i: int) -> bool {
    exists|j: int| 0 <= j < i && #[trigger] same_key(ds[j], ds[i])
}

/// Diagnostic `i` goes before diagnostic `j` in the report: its location
/// comes first, or the locations are the same and it was emitted first.
pub open spec fn precedes(ds: Seq<DiagnosticView>, i: int, j: int) -> bool {
    loc_lt(ds[i].location, ds[j].location) || (ds[i].location == ds[j].location && i < j)
}

/// Entry `k` of the report goes before entry `l`.
pub open spec fn ordered(ds: Seq<DiagnosticView>, idx: Seq<int>, k: int, l: int) -> bool {
    precedes(ds, idx[k], idx[l])
}

/// `out` is the report for the first `n` emitted diagnostics of `ds`, and
/// `idx` tells which emitted diagnostic each entry of the report is: the
/// report holds exactly those of the first `n` diagnostics that do not
/// repeat an earlier one, ordered by location and, within a location, in the
/// order of emission.
pub open spec fn is_report_upto(
    ds: Seq<DiagnosticView>,
    n: int,
    idx: Seq<int>,
    out: Seq<DiagnosticView>,
) -> bool {
    &&& out.len() == idx.len()
    &&& forall|k: int|
        0 <= k < idx.len() ==> 0 <= (#[trigger] idx[k]) < n && !repeats(ds, idx[k]) && out[k]
            == ds[idx[k]]
    &&& forall|k: int, l: int| 0 <= k < l < idx.len() ==> #[trigger] ordered(ds, idx, k, l)
    &&& forall|i: int| 0 <= i < n && !#[trigger] repeats(ds, i) ==> idx.contains(i)
}

/// `out` is the report for the emitted diagnostics `ds`.
pub open spec fn is_report(ds: Seq<DiagnosticView>, idx: Seq<int>, out: Seq<DiagnosticView>) -> bool {
    is_report_upto(ds, ds.len() as int, idx, out)
}

/// `out` is the report for the emitted diagnostics `ds`: it holds exactly
/// the diagnostics that do not repeat an earlier one, ordered by location
/// and, within a location, in the order of emission.
pub open spec fn is_report_of(ds: Seq<DiagnosticView>, out: Seq<DiagnosticView>) -> bool {
    exists|idx: Seq<int>| #[trigger] is_report(ds, idx, out)
}

/// Putting diagnostic `n` into its slot of the report for the first `n`
/// diagnostics gives the report for the first `n + 1`.
proof fn lemma_report_step(
    ds: Seq<DiagnosticView>,
    n: int,
    idx: Seq<int>,
    out: Seq<DiagnosticView>,
    pos: int,
)
    requires
        0 <= n < ds.len(),
        !repeats(ds, n),
        is_report_upto(ds, n, idx, out),
        0 <= pos <= out.len(),
        pos > 0 ==> !loc_lt(ds[n].location, out[pos - 1].location),
        forall|k: int| pos <= k < out.len() ==> loc_lt(ds[n].location, (#[trigger] out[k]).location),
    ensures
        is_report_upto(ds, n + 1, idx.insert(pos, n), out.insert(pos, ds[n])),
{
    let nidx = idx.insert(pos, n);
    let nout = out.insert(pos, ds[n]);
    assert forall|k: int| 0 <= k < nidx.len() implies 0 <= (#[trigger] nidx[k]) < n + 1 && !repeats(
        ds,
        nidx[k],
    ) && nout[k] == ds[nidx[k]] by {
        if k < pos {
            assert(nidx[k] == idx[k]);
        } else if k > pos {
            assert(nidx[k] == idx[k - 1]);
        }
    }
    assert forall|k: int, l: int| 0 <= k < l < nidx.len() implies #[trigger] ordered(
        ds,
        nidx,
        k,
        l,
    ) by {
        if l == pos {
            assert(nidx[k] == idx[k]);
            assert(out[k] == ds[idx[k]]);
            assert(out[pos - 1] == ds[idx[pos - 1]]);
            if k < pos - 1 {
                assert(ordered(ds, idx, k, pos - 1));
            }
        } else if k == pos {
            assert(nidx[l] == idx[l - 1]);
            assert(out[l - 1] == ds[idx[l - 1]]);
        } else if k < pos && l > pos {
            assert(nidx[k] == idx[k] && nidx[l] == idx[l - 1]);
            assert(ordered(ds, idx, k, l - 1));
        } else if k < pos {
            assert(nidx[k] == idx[k] && nidx[l] == idx[l]);
            assert(ordered(ds, idx, k, l));
        } else {
            assert(nidx[k] == idx[k - 1] && nidx[l] == idx[l - 1]);
            assert(ordered(ds, idx, k - 1, l - 1));
        }
    }
    assert forall|i: int| 0 <= i < n + 1 && !#[trigger] repeats(ds, i) implies nidx.contains(i) by {
        if i < n {
            assert(idx.contains(i));
            let k = choose|k: int| 0 <= k < idx.len() && idx[k] == i;
            if k < pos {
                assert(nidx[k] == i);
            } else {
                assert(nidx[k + 1] == i);
            }
        } else {
            assert(nidx[pos] == i);
        }
    }
}

/// Where a diagnostic at `loc` goes into the sorted list `out`: behind the
/// last entry whose location does not come after `loc`.
pub open spec fn slot(out: Seq<DiagnosticView>, loc: Location) -> int
    decreases out.len(),
{
    if out.len() == 0 {
        0
    } else if loc_lt(loc, out.last().location) {
        slot(out.drop_last(), loc)
    } else {
        out.len() as int
    }
}

/// The report for the first `n` emitted diagnostics.
pub open spec fn report_upto(ds: Seq<DiagnosticView>, n: int) -> Seq<DiagnosticView>
    decreases n,
{
    if n <= 0 {
        Seq::empty()
    } else {
        let before = report_upto(ds, n - 1);
        if repeats(ds, n - 1) {
            before
        } else {
            before.insert(slot(before, ds[n - 1].location), ds[n - 1])
        }
    }
}

/// The report for the emitted diagnostics `ds`.
pub open spec fn report_of(ds: Seq<DiagnosticView>) -> Seq<DiagnosticView> {
    report_upto(ds, ds.len() as int)
}

/// Some diagnostic of the list is at least as serious as `min`.
pub open spec fn any_at_least(ds: Seq<DiagnosticView>, min: Severity) -> bool {
    exists|k: int|
        0 <= k < ds.len() && (#[trigger] ds[k]).kind.severity_spec().level() >= min.level()
}

/// Some diagnostic of the list is an error or worse.
pub open spec fn any_error(ds: Seq<DiagnosticView>) -> bool {
    any_at_least(ds, Severity::Error)
}

/// The exit code of a run that reports `ds` and is asked to fail on
/// diagnostics at or above `fail_on`: 2 if a function was malformed, else 1
/// if some diagnostic is at or above `fail_on`, else 0.
pub open spec fn exit_code_of(ds: Seq<DiagnosticView>, fail_on: Severity) -> u8 {
    if any_at_least(ds, Severity::Fatal) {
        2
    } else if any_at_least(ds, fail_on) {
        1
    } else {
        0
    }
}

/// The final diagnostics of a run.
#[derive(Debug, Clone, PartialEq, Eq)]
pub struct Report {
    /// The diagnostics, by location and then in the order of emission.
    pub diagnostics: Vec<Diagnostic>,
    /// Whether one of them is an error or worse.
    pub has_errors: bool,
}

/// Whether location `a` comes before location `b`.
pub fn comes_before(a: Location, b: Location) -> (r: bool)
    ensures
        r == loc_lt(a, b),
{
    a.function < b.function || (a.function == b.function && a.point < b.point)
}

/// A copy of a diagnostic.
pub fn duplicate(d: &Diagnostic) -> (r: Diagnostic)
    ensures
        r@ == d@,
{
    let mut related: Vec<Location> = Vec::new();
    let mut k: usize = 0;
    while k < d.related.len()
        invariant
            k <= d.related@.len(),
            related@ == d.related@.subrange(0, k as int),
        decreases d.related@.len() - k,
    {
        related.push(d.related[k]);
        assert(related@ =~= d.related@.subrange(0, k + 1));
        k += 1;
    }
    assert(related@ =~= d.related@);
    Diagnostic { kind: d.kind, location: d.location, related, message: d.message.clone() }
}

/// Whether diagnostic `i` repeats an earlier one of the list.
fn is_repeat(diags: &Vec<Diagnostic>, i: usize) -> (r: bool)
    requires
        i < diags@.len(),
    ensures
        r == repeats(views(diags@), i as int),
{
    let ghost ds = views(diags@);
    let mut j: usize = 0;
    while j < i
        invariant
            j <= i,
            i < diags@.len(),
            ds == views(diags@),
            forall|k: int| 0 <= k < j ==> !#[trigger] same_key(ds[k], ds[i as int]),
        decreases i - j,
    {
        if diags[j].kind == diags[i].kind && diags[j].location == diags[i].location {
            assert(same_key(ds[j as int], ds[i as int]));
            return true;
        }
        j += 1;
    }
    false
}

/// Whether some diagnostic of the list is at least as serious as `min`.
pub fn has_severity(diags: &Vec<Diagnostic>, min: Severity) -> (r: bool)
    ensures
        r == any_at_least(views(diags@), min),
{
    let ghost ds = views(diags@);
    let mut k: usize = 0;
    while k < diags.len()
        invariant
            k <= diags@.len(),
            ds == views(diags@),
            forall|j: int|
                0 <= j < k ==> (#[trigger] ds[j]).kind.severity_spec().level() < min.level(),
        decreases diags@.len() - k,
    {
        if diags[k].kind.severity().at_least(min) {
            assert(ds[k as int].kind == diags@[k as int].kind);
            return true;
        }
        assert(ds[k as int].kind == diags@[k as int].kind);
        k += 1;
    }
    false
}

/// The exit code of a run with this report that is asked to fail on
/// diagnostics at or above `fail_on`.
pub fn exit_code(report: &Report, fail_on: Severity) -> (code: u8)
    ensures
        code == exit_code_of(views(report.diagnostics@), fail_on),
{
    if has_severity(&report.diagnostics, Severity::Fatal) {
        2
    } else if has_severity(&report.diagnostics, fail_on) {
        1
    } else {
        0
    }
}

/// Builds the report for the emitted diagnostics: drops each diagnostic that
/// has the kind and the location of an earlier one, and orders the rest by
/// location, keeping the order of emission within a location.
pub fn report(diags: &Vec<Diagnostic>) -> (r: Report)
    ensures
        views(r.diagnostics@) == report_of(views(diags@)),
        is_report_of(views(diags@), views(r.diagnostics@)),
        r.has_errors == any_error(views(r.diagnostics@)),
{
    let ghost ds = views(diags@);
    let mut out: Vec<Diagnostic> = Vec::new();
    let ghost mut idx: Seq<int> = Seq::empty();
    let mut n: usize = 0;
    assert(views(out@) =~= report_upto(ds, 0));
    while n < diags.len()
        invariant
            n <= diags@.len(),
            ds == views(diags@),
            views(out@) == report_upto(ds, n as int),
            is_report_upto(ds, n as int, idx, views(out@)),
        decreases diags@.len() - n,
    {
        if !is_repeat(diags, n) {
            let loc = diags[n].location;
            let ghost outv = views(out@);
            let mut pos: usize = out.len();
            assert(outv.take(pos as int) =~= outv);
            while pos > 0 && comes_before(loc, out[pos - 1].location)
                invariant
                    pos <= out@.len(),
                    outv == views(out@),
                    slot(outv, loc) == slot(outv.take(pos as int), loc),
                    forall|k: int| pos <= k < outv.len() ==> loc_lt(loc, (#[trigger] outv[k]).location),
                decreases pos,
            {
                assert(outv.take(pos as int).drop_last() =~= outv.take(pos - 1));
                assert(outv.take(pos as int).last() == outv[pos - 1]);
                pos -= 1;
            }
            assert(slot(outv, loc) == pos) by {
                if pos > 0 {
                    assert(outv.take(pos as int).last() == outv[pos - 1]);
                }
            }
            out.insert(pos, duplicate(&diags[n]));
            proof {
                assert(ds[n as int].location == loc);
                lemma_report_step(ds, n as int, idx, outv, pos as int);
                idx = idx.insert(pos as int, n as int);
                assert(views(out@) =~= outv.insert(pos as int, ds[n as int]));
            }
        } else {
            proof {
                assert forall|i: int| 0 <= i < n + 1 && !#[trigger] repeats(ds, i) implies idx.contains(
                    i,
                ) by {}
            }
        }
        n += 1;
    }
    let has_errors = has_severity(&out, Severity::Error);
    assert(is_report(ds, idx, views(out@)));
    assert(is_report_of(ds, views(out@)));
    Report { diagnostics: out, has_errors }
}

/// Among the emitted diagnostics with the kind and the location of
/// diagnostic `j` there is a first one.
pub proof fn lemma_first_occurrence(ds: Seq<DiagnosticView>, j: int) -> (first: int)
    requires
        0 <= j < ds.len(),
    ensures
        0 <= first <= j,
        same_key(ds[first], ds[j]),
        !repeats(ds, first),
    decreases j,
{
    if repeats(ds, j) {
        let earlier = choose|e: int| 0 <= e < j && #[trigger] same_key(ds[e], ds[j]);
        lemma_first_occurrence(ds, earlier)
    } else {
        j
    }
}

/// Every emitted diagnostic is reported exactly once: the report has one
/// entry, and only one, with its kind and its location.
pub proof fn lemma_reported_once(ds: Seq<DiagnosticView>, out: Seq<DiagnosticView>, j: int)
    requires
        is_report_of(ds, out),
        0 <= j < ds.len(),
    ensures
        exists|k: int|
            0 <= k < out.len() && #[trigger] same_key(out[k], ds[j]) && forall|l: int|
                0 <= l < out.len() && #[trigger] same_key(out[l], ds[j]) ==> l == k,
{
    let idx = choose|idx: Seq<int>| #[trigger] is_report(ds, idx, out);
    let first = lemma_first_occurrence(ds, j);
    assert(idx.contains(first));
    let k = choose|k: int| 0 <= k < idx.len() && idx[k] == first;
    assert(out[k] == ds[idx[k]]);
    assert(same_key(out[k], ds[j]));
    assert forall|l: int| 0 <= l < out.len() && #[trigger] same_key(out[l], ds[j]) implies l == k by {
        let other = idx[l];
        assert(out[l] == ds[other]);
        assert(!repeats(ds, other));
        if other < first {
            assert(same_key(ds[other], ds[first]));
        } else if first < other {
            assert(same_key(ds[first], ds[other]));
        }
        assert(other == first);
        if l < k {
            assert(ordered(ds, idx, l, k));
        } else if k < l {
            assert(ordered(ds, idx, k, l));
        }
    }
}

/// The report holds nothing but emitted diagnostics.
pub proof fn lemma_report_only_emitted(ds: Seq<DiagnosticView>, out: Seq<DiagnosticView>, k: int)
    requires
        is_report_of(ds, out),
        0 <= k < out.len(),
    ensures
        ds.contains(out[k]),
{
    let idx = choose|idx: Seq<int>| #[trigger] is_report(ds, idx, out);
    assert(out[k] == ds[idx[k]]);
}

/// The report is sorted: no entry has a location that comes before the
/// location of an entry in front of it.
pub proof fn lemma_report_sorted(ds: Seq<DiagnosticView>, out: Seq<DiagnosticView>, k: int, l: int)
    requires
        is_report_of(ds, out),
        0 <= k <= l < out.len(),
    ensures
        !loc_lt(out[l].location, out[k].location),
{
    let idx = choose|idx: Seq<int>| #[trigger] is_report(ds, idx, out);
    assert(out[k] == ds[idx[k]]);
    assert(out[l] == ds[idx[l]]);
    if k < l {
        assert(ordered(ds, idx, k, l));
    }
}

/// The report has no duplicates: no two entries share kind and location.
pub proof fn lemma_report_has_no_duplicates(
    ds: Seq<DiagnosticView>,
    out: Seq<DiagnosticView>,
    k: int,
    l: int,
)
    requires
        is_report_of(ds, out),
        0 <= k < out.len(),
        0 <= l < out.len(),
        same_key(out[k], out[l]),
    ensures
        k == l,
{
    let idx = choose|idx: Seq<int>| #[trigger] is_report(ds, idx, out);
    assert(out[k] == ds[idx[k]]);
    let d = ds[idx[k]];
    lemma_reported_once(ds, out, idx[k]);
    let only = choose|w: int|
        0 <= w < out.len() && #[trigger] same_key(out[w], d) && forall|v: int|
            0 <= v < out.len() && #[trigger] same_key(out[v], d) ==> v == w;
    assert(same_key(out[k], d));
    assert(same_key(out[l], d));
    assert(k == only && l == only);
}

} // verus!
