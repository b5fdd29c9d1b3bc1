use borrow_verifier::diag::{DiagKind, Severity};
use borrow_verifier::engine::verify;
use borrow_verifier::model::{
    Access, AccessMode, Binding, BorrowKind, Function, Outlives, Param, Program, Scope, Stmt,
    StmtKind, ValueKind,
};
use borrow_verifier::report::{exit_code, Diagnostic, Location};

fn binding(name: &str, kind: ValueKind) -> Binding {
    Binding { name: String::from(name), kind, field_of: None }
}

fn read(place: usize) -> Access {
    Access { mode: AccessMode::Read, place }
}

fn take(place: usize) -> Access {
    Access { mode: AccessMode::Use, place }
}

fn write(place: usize) -> Access {
    Access { mode: AccessMode::Write, place }
}

fn shared(place: usize) -> Access {
    Access { mode: AccessMode::Borrow(BorrowKind::Shared), place }
}

fn exclusive(place: usize) -> Access {
    Access { mode: AccessMode::Borrow(BorrowKind::Exclusive), place }
}

fn declare(binding: usize, uses: Vec<Access>, next: Vec<usize>) -> Stmt {
    Stmt { kind: StmtKind::Declare(binding), uses, assigns: Some(binding), scope: 0, succs: next }
}

fn plain(uses: Vec<Access>, next: Vec<usize>) -> Stmt {
    Stmt { kind: StmtKind::Plain, uses, assigns: None, scope: 0, succs: next }
}

fn body(name: &str, bindings: Vec<Binding>, stmts: Vec<Stmt>) -> Function {
    let exit = stmts.len();
    Function {
        name: String::from(name),
        regions: 0,
        params: vec![],
        ret: None,
        outlives: vec![],
        bindings,
        scopes: vec![Scope { parent: None, entry: 0, exit }],
        stmts,
    }
}

fn single(f: Function) -> Program {
    Program { functions: vec![f] }
}

fn at(point: usize) -> Location {
    Location { function: 0, point }
}

fn summary(diags: &Vec<Diagnostic>) -> Vec<(DiagKind, usize)> {
    diags.iter().map(|d| (d.kind, d.location.point)).collect()
}

#[test]
fn read_after_move_is_reported_once_at_the_read() {
    // let s1 = <value>; let s2 = s1; read(s1);
    let f = body(
        "main",
        vec![binding("s1", ValueKind::MoveOnly), binding("s2", ValueKind::MoveOnly)],
        vec![
            declare(0, vec![], vec![1]),
            declare(1, vec![take(0)], vec![2]),
            plain(vec![read(0)], vec![]),
        ],
    );
    let report = verify(&single(f));
    assert_eq!(
        report.diagnostics,
        vec![Diagnostic {
            kind: DiagKind::UseAfterMove,
            location: at(2),
            related: vec![],
            message: String::from("use of moved value: s1"),
        }]
    );
    assert!(report.has_errors);
    assert_eq!(exit_code(&report, Severity::Error), 1);
}

#[test]
fn reading_the_new_owner_after_a_move_is_fine() {
    // let s1 = <value>; let s2 = s1; read(s2);
    let f = body(
        "main",
        vec![binding("s1", ValueKind::MoveOnly), binding("s2", ValueKind::MoveOnly)],
        vec![
            declare(0, vec![], vec![1]),
            declare(1, vec![take(0)], vec![2]),
            plain(vec![read(1)], vec![]),
        ],
    );
    let report = verify(&single(f));
    assert_eq!(report.diagnostics, vec![]);
    assert!(!report.has_errors);
    assert_eq!(exit_code(&report, Severity::Warning), 0);
}

#[test]
fn copyable_value_stays_usable_after_assignment() {
    // let x = 5; let y = x; read(x); read(y);
    let f = body(
        "main",
        vec![binding("x", ValueKind::Copyable), binding("y", ValueKind::Copyable)],
        vec![
            declare(0, vec![], vec![1]),
            declare(1, vec![take(0)], vec![2]),
            plain(vec![read(0), read(1)], vec![]),
        ],
    );
    assert_eq!(verify(&single(f)).diagnostics, vec![]);
}

#[test]
fn shared_borrows_then_exclusive_borrow_after_last_use() {
    // let mut v = <value>; let r1 = &v; let r2 = &v; read(r1); read(r2);
    // let r3 = &mut v; mutate(r3);
    let f = body(
        "main",
        vec![
            binding("v", ValueKind::MoveOnly),
            binding("r1", ValueKind::Copyable),
            binding("r2", ValueKind::Copyable),
            binding("r3", ValueKind::MoveOnly),
        ],
        vec![
            declare(0, vec![], vec![1]),
            declare(1, vec![shared(0)], vec![2]),
            declare(2, vec![shared(0)], vec![3]),
            plain(vec![read(1)], vec![4]),
            plain(vec![read(2)], vec![5]),
            declare(3, vec![exclusive(0)], vec![6]),
            plain(vec![write(3)], vec![]),
        ],
    );
    let report = verify(&single(f));
    assert_eq!(report.diagnostics, vec![]);
    assert!(!report.has_errors);
}

#[test]
fn exclusive_borrow_while_shared_borrow_is_live_conflicts() {
    // let v = <value>; let r1 = &v; let r3 = &mut v; read(r1);
    let f = body(
        "main",
        vec![
            binding("v", ValueKind::MoveOnly),
            binding("r1", ValueKind::Copyable),
            binding("r3", ValueKind::MoveOnly),
        ],
        vec![
            declare(0, vec![], vec![1]),
            declare(1, vec![shared(0)], vec![2]),
            declare(2, vec![exclusive(0)], vec![3]),
            plain(vec![read(1)], vec![]),
        ],
    );
    let report = verify(&single(f));
    assert_eq!(
        report.diagnostics,
        vec![Diagnostic {
            kind: DiagKind::ConflictingBorrow,
            location: at(2),
            related: vec![at(1)],
            message: String::from("conflicting borrow: v"),
        }]
    );
}

#[test]
fn returning_a_reference_to_a_local_dangles() {
    // fn dangle() -> &T { let s = <value>; return &s; }
    let mut f = body(
        "dangle",
        vec![binding("s", ValueKind::MoveOnly)],
        vec![
            declare(0, vec![], vec![1]),
            Stmt {
                kind: StmtKind::Return,
                uses: vec![shared(0)],
                assigns: None,
                scope: 0,
                succs: vec![],
            },
        ],
    );
    f.regions = 1;
    f.ret = Some(0);
    let report = verify(&single(f));
    assert_eq!(
        report.diagnostics,
        vec![Diagnostic {
            kind: DiagKind::DanglingReference,
            location: at(1),
            related: vec![at(1)],
            message: String::from("reference outlives the storage it points into: s"),
        }]
    );
}

#[test]
fn returning_a_held_reference_to_a_local_dangles() {
    // fn dangle() -> &T { let s = <value>; let r = &s; return r; }
    let mut f = body(
        "dangle",
        vec![binding("s", ValueKind::MoveOnly), binding("r", ValueKind::Copyable)],
        vec![
            declare(0, vec![], vec![1]),
            declare(1, vec![shared(0)], vec![2]),
            Stmt {
                kind: StmtKind::Return,
                uses: vec![take(1)],
                assigns: None,
                scope: 0,
                succs: vec![],
            },
        ],
    );
    f.regions = 1;
    f.ret = Some(0);
    let report = verify(&single(f));
    assert_eq!(summary(&report.diagnostics), vec![(DiagKind::DanglingReference, 2)]);
    assert_eq!(report.diagnostics[0].related, vec![at(1)]);
}

#[test]
fn returning_an_owned_value_is_fine() {
    // fn make() -> T { let s = <value>; return s; }
    let f = body(
        "make",
        vec![binding("s", ValueKind::MoveOnly)],
        vec![
            declare(0, vec![], vec![1]),
            Stmt {
                kind: StmtKind::Return,
                uses: vec![take(0)],
                assigns: None,
                scope: 0,
                succs: vec![],
            },
        ],
    );
    assert_eq!(verify(&single(f)).diagnostics, vec![]);
}

#[test]
fn move_in_loop_with_read_on_every_iteration() {
    // let x = <value>; loop { read(x); if .. { consume(x); } }
    let f = body(
        "main",
        vec![binding("x", ValueKind::MoveOnly)],
        vec![
            declare(0, vec![], vec![1]),
            plain(vec![read(0)], vec![2]),
            plain(vec![], vec![3, 4]),
            plain(vec![take(0)], vec![4]),
            plain(vec![], vec![1, 5]),
            plain(vec![], vec![]),
        ],
    );
    let report = verify(&single(f));
    assert_eq!(
        summary(&report.diagnostics),
        vec![
            (DiagKind::UseAfterMove, 1),
            (DiagKind::PossiblyMovedInLoop, 1),
            (DiagKind::DoubleMove, 3),
        ]
    );
    assert_eq!(report.diagnostics[1].message, "value may be moved in an earlier iteration of the loop: x");
    assert!(report.has_errors);
}

#[test]
fn result_of_call_must_not_outlive_either_argument() {
    // fn longest<'a>(x: &'a T, y: &'a T) -> &'a T
    // let string1; let result; { let string2; result = longest(&string1, &string2); }
    // read(result);
    let longest = Function {
        name: String::from("longest"),
        regions: 1,
        params: vec![
            Param { binding: 0, region: Some(0) },
            Param { binding: 1, region: Some(0) },
        ],
        ret: Some(0),
        outlives: vec![],
        bindings: vec![binding("x", ValueKind::Copyable), binding("y", ValueKind::Copyable)],
        scopes: vec![Scope { parent: None, entry: 0, exit: 1 }],
        stmts: vec![Stmt {
            kind: StmtKind::Return,
            uses: vec![take(1)],
            assigns: None,
            scope: 0,
            succs: vec![],
        }],
    };
    let inner = |kind: StmtKind, uses: Vec<Access>, assigns: Option<usize>, next: usize| Stmt {
        kind,
        uses,
        assigns,
        scope: 1,
        succs: vec![next],
    };
    let main = Function {
        name: String::from("main"),
        regions: 0,
        params: vec![],
        ret: None,
        outlives: vec![],
        bindings: vec![
            binding("string1", ValueKind::MoveOnly),
            binding("result", ValueKind::Copyable),
            binding("string2", ValueKind::MoveOnly),
        ],
        scopes: vec![
            Scope { parent: None, entry: 0, exit: 5 },
            Scope { parent: Some(0), entry: 2, exit: 4 },
        ],
        stmts: vec![
            declare(0, vec![], vec![1]),
            Stmt { kind: StmtKind::Declare(1), uses: vec![], assigns: None, scope: 0, succs: vec![2] },
            inner(StmtKind::Declare(2), vec![], Some(2), 3),
            inner(StmtKind::Call(0), vec![shared(0), shared(2)], Some(1), 4),
            plain(vec![read(1)], vec![]),
        ],
    };
    let report = verify(&Program { functions: vec![longest, main] });
    assert_eq!(
        report.diagnostics,
        vec![Diagnostic {
            kind: DiagKind::LifetimeMismatch,
            location: Location { function: 1, point: 3 },
            related: vec![],
            message: String::from("regions cannot satisfy the signature: string2"),
        }]
    );
}

#[test]
fn malformed_function_does_not_stop_its_siblings() {
    let broken = Function {
        name: String::from("broken"),
        regions: 0,
        params: vec![],
        ret: None,
        outlives: vec![Outlives { longer: 0, shorter: 1 }],
        bindings: vec![],
        scopes: vec![],
        stmts: vec![],
    };
    let moved = body(
        "main",
        vec![binding("s1", ValueKind::MoveOnly), binding("s2", ValueKind::MoveOnly)],
        vec![
            declare(0, vec![], vec![1]),
            declare(1, vec![take(0)], vec![2]),
            plain(vec![read(0)], vec![]),
        ],
    );
    let report = verify(&Program { functions: vec![broken, moved] });
    assert_eq!(
        report.diagnostics,
        vec![
            Diagnostic {
                kind: DiagKind::StructuralError,
                location: Location { function: 0, point: 0 },
                related: vec![],
                message: String::from("malformed function: signature"),
            },
            Diagnostic {
                kind: DiagKind::UseAfterMove,
                location: Location { function: 1, point: 2 },
                related: vec![],
                message: String::from("use of moved value: s1"),
            },
        ]
    );
    assert_eq!(exit_code(&report, Severity::Error), 2);
}
