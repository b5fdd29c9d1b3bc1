use borrow_verifier::diag::{DiagKind, Finding, Severity};
use borrow_verifier::engine::{
    analyze, diagnose, to_diagnostic, to_structural_diagnostic, verify,
};
use borrow_verifier::model::{
    Access, AccessMode, Binding, Function, Program, Scope, Stmt, StmtKind, ValueKind,
};
use borrow_verifier::report::{
    comes_before, duplicate, exit_code, has_severity, report, Diagnostic, Location, Report,
};
use borrow_verifier::scopes::StructuralError;
use borrow_verifier::signature::resolve_signatures;

fn diag(kind: DiagKind, function: usize, point: usize, message: &str) -> Diagnostic {
    Diagnostic {
        kind,
        location: Location { function, point },
        related: vec![],
        message: String::from(message),
    }
}

fn messages(r: &Report) -> Vec<&str> {
    r.diagnostics.iter().map(|d| d.message.as_str()).collect()
}

fn moves_then_reads(name: &str) -> Function {
    let b = |n: &str| Binding { name: String::from(n), kind: ValueKind::MoveOnly, field_of: None };
    let st = |kind: StmtKind, uses: Vec<Access>, assigns: Option<usize>, succs: Vec<usize>| Stmt {
        kind,
        uses,
        assigns,
        scope: 0,
        succs,
    };
    Function {
        name: String::from(name),
        regions: 0,
        params: vec![],
        ret: None,
        outlives: vec![],
        bindings: vec![b("s1"), b("s2")],
        scopes: vec![Scope { parent: None, entry: 0, exit: 3 }],
        stmts: vec![
            st(StmtKind::Declare(0), vec![], Some(0), vec![1]),
            st(StmtKind::Declare(1), vec![Access { mode: AccessMode::Use, place: 0 }], Some(1), vec![2]),
            st(
                StmtKind::Plain,
                vec![
                    Access { mode: AccessMode::Read, place: 0 },
                    Access { mode: AccessMode::Read, place: 0 },
                ],
                None,
                vec![],
            ),
        ],
    }
}

#[test]
fn report_orders_by_function_then_point() {
    let r = report(&vec![
        diag(DiagKind::UseAfterMove, 1, 0, "a"),
        diag(DiagKind::UseAfterMove, 0, 7, "b"),
        diag(DiagKind::UseAfterMove, 0, 2, "c"),
        diag(DiagKind::UseAfterMove, 1, 9, "d"),
        diag(DiagKind::UseAfterMove, 0, 5, "e"),
    ]);
    assert_eq!(messages(&r), vec!["c", "e", "b", "a", "d"]);
}

#[test]
fn report_keeps_emission_order_within_a_location() {
    let r = report(&vec![
        diag(DiagKind::ConflictingBorrow, 0, 3, "first"),
        diag(DiagKind::UseAfterMove, 0, 1, "early"),
        diag(DiagKind::DoubleMove, 0, 3, "second"),
        diag(DiagKind::DanglingReference, 0, 3, "third"),
    ]);
    assert_eq!(messages(&r), vec!["early", "first", "second", "third"]);
}

#[test]
fn report_drops_diagnostics_with_the_kind_and_location_of_an_earlier_one() {
    let r = report(&vec![
        diag(DiagKind::UseAfterMove, 0, 3, "kept"),
        diag(DiagKind::UseAfterMove, 0, 3, "dropped"),
        diag(DiagKind::DoubleMove, 0, 3, "other kind"),
        diag(DiagKind::UseAfterMove, 1, 3, "other function"),
        diag(DiagKind::UseAfterMove, 0, 4, "other point"),
        diag(DiagKind::UseAfterMove, 0, 3, "dropped too"),
    ]);
    assert_eq!(messages(&r), vec!["kept", "other kind", "other point", "other function"]);
}

#[test]
fn report_of_nothing_is_empty_and_clean() {
    let r = report(&vec![]);
    assert_eq!(r, Report { diagnostics: vec![], has_errors: false });
    assert_eq!(exit_code(&r, Severity::Warning), 0);
    assert_eq!(exit_code(&r, Severity::Error), 0);
}

#[test]
fn report_is_unchanged_by_reporting_again() {
    let once = report(&vec![
        diag(DiagKind::UseAfterMove, 1, 0, "a"),
        diag(DiagKind::UseAfterMove, 0, 7, "b"),
        diag(DiagKind::UseAfterMove, 0, 7, "c"),
    ]);
    let twice = report(&once.diagnostics);
    assert_eq!(once, twice);
}

#[test]
fn warnings_alone_are_no_errors() {
    let r = report(&vec![diag(DiagKind::PossiblyMovedInLoop, 0, 1, "w")]);
    assert!(!r.has_errors);
    assert_eq!(exit_code(&r, Severity::Error), 0);
    assert_eq!(exit_code(&r, Severity::Warning), 1);
    assert_eq!(exit_code(&r, Severity::Fatal), 0);
}

#[test]
fn errors_fail_at_both_thresholds() {
    let r = report(&vec![
        diag(DiagKind::PossiblyMovedInLoop, 0, 1, "w"),
        diag(DiagKind::ConflictingBorrow, 0, 2, "e"),
    ]);
    assert!(r.has_errors);
    assert_eq!(exit_code(&r, Severity::Error), 1);
    assert_eq!(exit_code(&r, Severity::Warning), 1);
}

#[test]
fn a_structural_error_gives_exit_code_two() {
    let r = report(&vec![
        diag(DiagKind::ConflictingBorrow, 0, 2, "e"),
        diag(DiagKind::StructuralError, 1, 0, "s"),
    ]);
    assert!(r.has_errors);
    assert_eq!(exit_code(&r, Severity::Error), 2);
    assert_eq!(exit_code(&r, Severity::Warning), 2);
}

#[test]
fn severities_of_the_kinds() {
    assert_eq!(DiagKind::PossiblyMovedInLoop.severity(), Severity::Warning);
    assert_eq!(DiagKind::StructuralError.severity(), Severity::Fatal);
    for kind in [
        DiagKind::UseAfterMove,
        DiagKind::UninitializedUse,
        DiagKind::DoubleMove,
        DiagKind::ConflictingBorrow,
        DiagKind::BorrowOfInvalidValue,
        DiagKind::DanglingReference,
        DiagKind::LifetimeMismatch,
    ] {
        assert_eq!(kind.severity(), Severity::Error);
    }
    assert!(Severity::Fatal.at_least(Severity::Error));
    assert!(Severity::Error.at_least(Severity::Error));
    assert!(!Severity::Warning.at_least(Severity::Error));
    assert!(Severity::Warning.at_least(Severity::Warning));
    assert!(!Severity::Error.at_least(Severity::Fatal));
}

#[test]
fn small_helpers_of_the_reporter() {
    let at = |function, point| Location { function, point };
    assert!(comes_before(at(0, 5), at(1, 0)));
    assert!(comes_before(at(1, 2), at(1, 3)));
    assert!(!comes_before(at(1, 3), at(1, 3)));
    assert!(!comes_before(at(2, 0), at(1, 9)));
    let d = Diagnostic {
        kind: DiagKind::ConflictingBorrow,
        location: at(0, 2),
        related: vec![at(0, 1), at(0, 0)],
        message: String::from("m"),
    };
    assert_eq!(duplicate(&d), d);
    assert!(has_severity(&vec![duplicate(&d)], Severity::Error));
    assert!(!has_severity(&vec![duplicate(&d)], Severity::Fatal));
    assert!(!has_severity(&vec![], Severity::Warning));
}

#[test]
fn message_names_the_kind_and_the_binding() {
    let f = moves_then_reads("main");
    let texts = [
        (DiagKind::UseAfterMove, "use of moved value: s2"),
        (DiagKind::UninitializedUse, "use of uninitialized value: s2"),
        (DiagKind::DoubleMove, "value moved more than once: s2"),
        (DiagKind::ConflictingBorrow, "conflicting borrow: s2"),
        (DiagKind::BorrowOfInvalidValue, "borrow of moved or uninitialized value: s2"),
        (DiagKind::DanglingReference, "reference outlives the storage it points into: s2"),
        (DiagKind::LifetimeMismatch, "regions cannot satisfy the signature: s2"),
        (
            DiagKind::PossiblyMovedInLoop,
            "value may be moved in an earlier iteration of the loop: s2",
        ),
    ];
    for (kind, text) in texts {
        let d = to_diagnostic(&f, 4, Finding { kind, point: 2, place: 1, related: Some(1) });
        assert_eq!(
            d,
            Diagnostic {
                kind,
                location: Location { function: 4, point: 2 },
                related: vec![Location { function: 4, point: 1 }],
                message: String::from(text),
            }
        );
    }
    let unnamed = to_diagnostic(
        &f,
        0,
        Finding { kind: DiagKind::UseAfterMove, point: 0, place: 9, related: None },
    );
    assert_eq!(unnamed.message, "use of moved value: ");
    assert_eq!(unnamed.related, vec![]);
}

#[test]
fn structural_message_names_the_faulty_part() {
    let texts = [
        (StructuralError::Signature, "malformed function: signature"),
        (StructuralError::Bindings, "malformed function: bindings"),
        (StructuralError::Scopes, "malformed function: scopes"),
        (StructuralError::Statements, "malformed function: statements"),
        (StructuralError::Declarations, "malformed function: declarations"),
    ];
    for (e, text) in texts {
        assert_eq!(to_structural_diagnostic(3, e), diag(DiagKind::StructuralError, 3, 0, text));
    }
}

#[test]
fn analyze_gives_findings_drops_and_pass_count() {
    let prog = Program { functions: vec![moves_then_reads("main")] };
    let sigs = resolve_signatures(&prog);
    let a = analyze(&prog, &sigs, 0).expect("a sound function");
    assert_eq!(
        a.findings,
        vec![
            Finding { kind: DiagKind::UseAfterMove, point: 2, place: 0, related: None },
            Finding { kind: DiagKind::UseAfterMove, point: 2, place: 0, related: None },
        ]
    );
    assert_eq!(a.drops.len(), 1);
    assert_eq!(a.drops[0].place, 1);
    assert!(a.passes >= 2 && a.passes <= 2 * (2 * 3 + 1));
}

#[test]
fn analyze_refuses_a_malformed_function() {
    let mut f = moves_then_reads("main");
    f.stmts[2].succs = vec![3];
    let prog = Program { functions: vec![f] };
    let sigs = resolve_signatures(&prog);
    assert_eq!(analyze(&prog, &sigs, 0), Err(StructuralError::Statements));
    assert_eq!(
        diagnose(&prog, &sigs, 0),
        vec![diag(DiagKind::StructuralError, 0, 0, "malformed function: statements")]
    );
}

#[test]
fn two_reads_of_a_moved_value_in_one_statement_are_reported_once() {
    let prog = Program { functions: vec![moves_then_reads("main")] };
    let sigs = resolve_signatures(&prog);
    assert_eq!(diagnose(&prog, &sigs, 0).len(), 2);
    assert_eq!(
        verify(&prog).diagnostics,
        vec![diag(DiagKind::UseAfterMove, 0, 2, "use of moved value: s1")]
    );
}

#[test]
fn verifying_twice_gives_the_same_report() {
    let prog = Program {
        functions: vec![moves_then_reads("a"), moves_then_reads("b"), moves_then_reads("c")],
    };
    let first = verify(&prog);
    let second = verify(&prog);
    assert_eq!(first, second);
    assert_eq!(first.diagnostics.len(), 3);
    assert_eq!(
        first.diagnostics.iter().map(|d| d.location.function).collect::<Vec<usize>>(),
        vec![0, 1, 2]
    );
}

#[test]
fn functions_analysed_apart_merge_into_the_report_of_the_program() {
    let prog = Program { functions: vec![moves_then_reads("a"), moves_then_reads("b")] };
    let sigs = resolve_signatures(&prog);
    // results that arrive in any order are merged by the reporter
    let mut all = diagnose(&prog, &sigs, 1);
    all.extend(diagnose(&prog, &sigs, 0));
    assert_eq!(report(&all), verify(&prog));
}

#[test]
fn an_empty_program_has_an_empty_report() {
    let r = verify(&Program { functions: vec![] });
    assert_eq!(r, Report { diagnostics: vec![], has_errors: false });
}
