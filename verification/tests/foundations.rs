use borrow_verifier::cfg::{edge_list, reversed};
use borrow_verifier::dataflow::{solve, Edge};
use borrow_verifier::graph::close;
use borrow_verifier::lattice::{Effect, PlaceState};
use borrow_verifier::model::{
    Access, AccessMode, Binding, Function, Outlives, Param, Program, Scope, Stmt, StmtKind,
    ValueKind,
};
use borrow_verifier::scopes::{
    bindings_declared_in, check_bindings, check_scopes, check_signature, check_stmt,
    enclosing_scopes, find_declaration, is_ancestor, is_param, scope_encloses, scope_of, track,
    StructuralError, Tracker,
};
use borrow_verifier::signature::{resolve_signature, resolve_signatures};

use PlaceState::{Live, Moved, Uninit};

fn edge(from: usize, to: usize) -> Edge {
    Edge { from, to }
}

fn local(name: &str) -> Binding {
    Binding { name: String::from(name), kind: ValueKind::MoveOnly, field_of: None }
}

fn stmt_in(scope: usize, kind: StmtKind, assigns: Option<usize>, succs: Vec<usize>) -> Stmt {
    Stmt { kind, uses: vec![], assigns, scope, succs }
}

/// fn f(a) { let x; { let y; { let z; } } let w; }
fn nested() -> Function {
    Function {
        name: String::from("nested"),
        regions: 0,
        params: vec![Param { binding: 0, region: None }],
        ret: None,
        outlives: vec![],
        bindings: vec![local("a"), local("x"), local("y"), local("z"), local("w")],
        scopes: vec![
            Scope { parent: None, entry: 0, exit: 4 },
            Scope { parent: Some(0), entry: 1, exit: 3 },
            Scope { parent: Some(1), entry: 2, exit: 3 },
        ],
        stmts: vec![
            stmt_in(0, StmtKind::Declare(1), Some(1), vec![1]),
            stmt_in(1, StmtKind::Declare(2), Some(2), vec![2]),
            stmt_in(2, StmtKind::Declare(3), Some(3), vec![3]),
            stmt_in(0, StmtKind::Declare(4), Some(4), vec![]),
        ],
    }
}

fn alone(f: Function) -> Program {
    Program { functions: vec![f] }
}

#[test]
fn meet_takes_the_less_permissive_state() {
    assert_eq!(Live.meet(Live), Live);
    assert_eq!(Live.meet(Uninit), Uninit);
    assert_eq!(Uninit.meet(Live), Uninit);
    assert_eq!(Live.meet(Moved), Moved);
    assert_eq!(Moved.meet(Live), Moved);
    assert_eq!(Uninit.meet(Moved), Moved);
    assert_eq!(Moved.meet(Uninit), Moved);
    assert_eq!(Uninit.meet(Uninit), Uninit);
    assert_eq!(Moved.meet(Moved), Moved);
}

#[test]
fn at_most_orders_the_chain() {
    assert!(Moved.at_most(Uninit));
    assert!(Uninit.at_most(Live));
    assert!(Moved.at_most(Live));
    assert!(Live.at_most(Live));
    assert!(!Live.at_most(Uninit));
    assert!(!Uninit.at_most(Moved));
    assert!(!Live.at_most(Moved));
}

#[test]
fn effect_keeps_or_replaces_the_state() {
    assert_eq!(Effect::Keep.apply(Uninit), Uninit);
    assert_eq!(Effect::Keep.apply(Moved), Moved);
    assert_eq!(Effect::Becomes(Live).apply(Moved), Live);
    assert_eq!(Effect::Becomes(Moved).apply(Live), Moved);
}

#[test]
fn solve_straight_line_follows_the_effects() {
    // 0: init, 1: move, 2: nothing
    let edges = vec![edge(0, 1), edge(1, 2)];
    let effects = vec![Effect::Becomes(Live), Effect::Becomes(Moved), Effect::Keep];
    let (states, passes) = solve(&edges, &effects, Uninit);
    assert_eq!(states, vec![Uninit, Live, Moved]);
    assert!(passes >= 1 && passes <= 2 * 3 + 1);
}

#[test]
fn solve_join_is_moved_if_moved_on_any_path() {
    // 0: init; 1: branch; 2: move; 3: nothing; 4: join
    let edges = vec![edge(0, 1), edge(1, 2), edge(1, 3), edge(2, 4), edge(3, 4)];
    let effects =
        vec![Effect::Becomes(Live), Effect::Keep, Effect::Becomes(Moved), Effect::Keep, Effect::Keep];
    let (states, _) = solve(&edges, &effects, Uninit);
    assert_eq!(states, vec![Uninit, Live, Live, Live, Moved]);
}

#[test]
fn solve_loop_reaches_the_fixpoint_over_the_back_edge() {
    // 0: init; 1: head; 2: move; 3: back to 1 or on to 4
    let edges = vec![edge(3, 1), edge(3, 4), edge(2, 3), edge(1, 2), edge(0, 1)];
    let effects =
        vec![Effect::Becomes(Live), Effect::Keep, Effect::Becomes(Moved), Effect::Keep, Effect::Keep];
    let (states, passes) = solve(&edges, &effects, Uninit);
    assert_eq!(states, vec![Uninit, Moved, Moved, Moved, Moved]);
    assert!(passes <= 2 * 5 + 1);
    assert!(passes >= 2);
}

#[test]
fn solve_leaves_unreachable_points_at_the_top() {
    let edges = vec![edge(0, 1)];
    let effects = vec![Effect::Keep, Effect::Keep, Effect::Keep];
    let (states, passes) = solve(&edges, &effects, Moved);
    assert_eq!(states, vec![Moved, Moved, Live]);
    assert!(passes <= 7);
}

#[test]
fn solve_single_point_without_edges_takes_one_pass() {
    let (states, passes) = solve(&vec![], &vec![Effect::Keep], Live);
    assert_eq!(states, vec![Live]);
    assert_eq!(passes, 1);
}

#[test]
fn close_follows_enabled_edges_only() {
    let edges = vec![edge(0, 1), edge(1, 2), edge(2, 3), edge(4, 0)];
    let enabled = vec![true, true, false, true];
    let closed = close(&edges, &enabled, vec![true, false, false, false, false]);
    assert_eq!(closed, vec![true, true, true, false, false]);
}

#[test]
fn close_of_empty_seed_is_empty() {
    let edges = vec![edge(0, 1), edge(1, 0)];
    let closed = close(&edges, &vec![true, true], vec![false, false]);
    assert_eq!(closed, vec![false, false]);
}

#[test]
fn close_goes_around_cycles() {
    let edges = vec![edge(2, 0), edge(1, 2), edge(0, 1)];
    let closed = close(&edges, &vec![true, true, true], vec![false, true, false, false]);
    assert_eq!(closed, vec![true, true, true, false]);
}

#[test]
fn edge_list_lists_successors_by_source() {
    let mut f = nested();
    f.stmts[1].succs = vec![2, 3];
    assert_eq!(edge_list(&f), vec![edge(0, 1), edge(1, 2), edge(1, 3), edge(2, 3)]);
    assert_eq!(
        reversed(&edge_list(&f)),
        vec![edge(1, 0), edge(2, 1), edge(3, 1), edge(3, 2)]
    );
}

#[test]
fn track_records_declaration_points_and_scopes() {
    let f = nested();
    let prog = alone(f.clone());
    assert_eq!(
        track(&prog, &f),
        Ok(Tracker { decl_point: vec![0, 0, 1, 2, 3], decl_scope: vec![0, 0, 1, 2, 0] })
    );
}

#[test]
fn track_gives_fields_the_declaration_of_their_binding() {
    let mut f = nested();
    f.bindings.push(Binding {
        name: String::from("y.f"),
        kind: ValueKind::MoveOnly,
        field_of: Some(2),
    });
    let prog = alone(f.clone());
    let tracker = track(&prog, &f).unwrap();
    assert_eq!(tracker.decl_point[5], 1);
    assert_eq!(tracker.decl_scope[5], 1);
}

#[test]
fn track_rejects_undeclared_region() {
    let mut f = nested();
    f.ret = Some(0);
    assert_eq!(track(&alone(f.clone()), &f), Err(StructuralError::Signature));
    let mut g = nested();
    g.regions = 1;
    g.outlives = vec![Outlives { longer: 0, shorter: 1 }];
    assert_eq!(track(&alone(g.clone()), &g), Err(StructuralError::Signature));
    let mut h = nested();
    h.params[0].region = Some(3);
    assert_eq!(track(&alone(h.clone()), &h), Err(StructuralError::Signature));
}

#[test]
fn track_rejects_field_of_field_and_bad_parameter() {
    let mut f = nested();
    f.bindings.push(Binding { name: String::from("x.f"), kind: ValueKind::MoveOnly, field_of: Some(1) });
    f.bindings.push(Binding { name: String::from("x.f.g"), kind: ValueKind::MoveOnly, field_of: Some(5) });
    assert_eq!(track(&alone(f.clone()), &f), Err(StructuralError::Bindings));
    let mut g = nested();
    g.bindings[2].field_of = Some(3);
    assert_eq!(track(&alone(g.clone()), &g), Err(StructuralError::Bindings));
    let mut h = nested();
    h.params[0].binding = 9;
    assert_eq!(track(&alone(h.clone()), &h), Err(StructuralError::Bindings));
}

#[test]
fn track_rejects_malformed_nesting() {
    // a scope that reaches beyond its parent
    let mut f = nested();
    f.scopes[2] = Scope { parent: Some(1), entry: 2, exit: 4 };
    assert_eq!(track(&alone(f.clone()), &f), Err(StructuralError::Scopes));
    // a body that the root scope does not span
    let mut g = nested();
    g.scopes[0].exit = 3;
    assert_eq!(track(&alone(g.clone()), &g), Err(StructuralError::Scopes));
    // a scope without a parent that is not the root
    let mut h = nested();
    h.scopes[1].parent = None;
    assert_eq!(track(&alone(h.clone()), &h), Err(StructuralError::Scopes));
    // an empty body
    let mut e = nested();
    e.stmts = vec![];
    e.scopes = vec![Scope { parent: None, entry: 0, exit: 0 }];
    assert_eq!(track(&alone(e.clone()), &e), Err(StructuralError::Scopes));
}

#[test]
fn track_rejects_statement_outside_its_innermost_scope() {
    // point 2 lies in scope 2 but claims scope 1
    let mut f = nested();
    f.stmts[2].scope = 1;
    assert_eq!(track(&alone(f.clone()), &f), Err(StructuralError::Statements));
    // two sibling scopes that overlap
    let mut g = nested();
    g.scopes[2] = Scope { parent: Some(0), entry: 2, exit: 3 };
    assert_eq!(track(&alone(g.clone()), &g), Err(StructuralError::Statements));
}

#[test]
fn track_rejects_dangling_references_of_statements() {
    let mut f = nested();
    f.stmts[3].succs = vec![4];
    assert_eq!(track(&alone(f.clone()), &f), Err(StructuralError::Statements));
    let mut g = nested();
    g.stmts[3].uses = vec![Access { mode: AccessMode::Read, place: 5 }];
    assert_eq!(track(&alone(g.clone()), &g), Err(StructuralError::Statements));
    let mut h = nested();
    h.stmts[3].assigns = Some(7);
    assert_eq!(track(&alone(h.clone()), &h), Err(StructuralError::Statements));
    // declaring a parameter
    let mut d = nested();
    d.stmts[3].kind = StmtKind::Declare(0);
    assert_eq!(track(&alone(d.clone()), &d), Err(StructuralError::Statements));
    // calling a function that does not exist
    let mut c = nested();
    c.stmts[3] = stmt_in(0, StmtKind::Call(1), None, vec![]);
    c.bindings.truncate(4);
    assert_eq!(track(&alone(c.clone()), &c), Err(StructuralError::Statements));
}

#[test]
fn track_rejects_call_with_wrong_number_of_arguments() {
    let mut f = nested();
    f.bindings.truncate(4);
    f.stmts[3] = stmt_in(0, StmtKind::Call(0), None, vec![]);
    // `nested` takes one parameter and the call passes none
    assert_eq!(track(&alone(f.clone()), &f), Err(StructuralError::Statements));
    f.stmts[3].uses = vec![Access { mode: AccessMode::Read, place: 0 }];
    assert!(track(&alone(f.clone()), &f).is_ok());
}

#[test]
fn track_rejects_missing_and_double_declarations() {
    let mut f = nested();
    f.stmts[3].kind = StmtKind::Plain;
    assert_eq!(track(&alone(f.clone()), &f), Err(StructuralError::Declarations));
    let mut g = nested();
    g.stmts[3].kind = StmtKind::Declare(1);
    assert_eq!(track(&alone(g.clone()), &g), Err(StructuralError::Declarations));
}

#[test]
fn track_reports_the_first_fault_in_order() {
    let mut f = nested();
    f.ret = Some(0);
    f.scopes[1].parent = None;
    f.stmts[3].kind = StmtKind::Plain;
    assert_eq!(track(&alone(f.clone()), &f), Err(StructuralError::Signature));
    f.ret = None;
    assert_eq!(track(&alone(f.clone()), &f), Err(StructuralError::Scopes));
}

#[test]
fn scope_queries_follow_the_tree() {
    let f = nested();
    assert_eq!(scope_of(&f, 0), 0);
    assert_eq!(scope_of(&f, 1), 1);
    assert_eq!(scope_of(&f, 2), 2);
    assert_eq!(scope_of(&f, 3), 0);
    assert!(is_ancestor(&f, 0, 2));
    assert!(is_ancestor(&f, 1, 2));
    assert!(is_ancestor(&f, 0, 1));
    assert!(!is_ancestor(&f, 2, 1));
    assert!(!is_ancestor(&f, 2, 2));
    assert!(!is_ancestor(&f, 5, 2));
    assert!(scope_encloses(&f, 2, 2));
    assert!(scope_encloses(&f, 0, 2));
    assert!(!scope_encloses(&f, 2, 0));
}

#[test]
fn enclosing_scopes_lists_the_chain_from_the_inside_out() {
    let f = nested();
    assert_eq!(enclosing_scopes(&f, 0), vec![0]);
    assert_eq!(enclosing_scopes(&f, 1), vec![1, 0]);
    assert_eq!(enclosing_scopes(&f, 2), vec![2, 1, 0]);
    assert_eq!(enclosing_scopes(&f, 3), vec![0]);
}

#[test]
fn the_single_checks_agree_with_track() {
    let f = nested();
    assert!(check_signature(&f));
    assert!(check_bindings(&f));
    assert!(check_scopes(&f));
    let mut g = nested();
    g.ret = Some(0);
    g.bindings[2].field_of = Some(3);
    g.scopes[1].parent = None;
    assert!(!check_signature(&g));
    assert!(!check_bindings(&g));
    assert!(!check_scopes(&g));
}

#[test]
fn bindings_declared_in_lists_by_declaration() {
    let f = nested();
    assert_eq!(bindings_declared_in(&f, 0), vec![0, 1, 4]);
    assert_eq!(bindings_declared_in(&f, 1), vec![2]);
    assert_eq!(bindings_declared_in(&f, 2), vec![3]);
    assert_eq!(bindings_declared_in(&f, 7), Vec::<usize>::new());
}

#[test]
fn bindings_declared_in_follows_statement_order_not_table_order() {
    let mut f = nested();
    f.stmts[0].kind = StmtKind::Declare(4);
    f.stmts[0].assigns = Some(4);
    f.stmts[3].kind = StmtKind::Declare(1);
    f.stmts[3].assigns = Some(1);
    assert_eq!(bindings_declared_in(&f, 0), vec![0, 4, 1]);
}

#[test]
fn parameter_and_declaration_lookups() {
    let f = nested();
    assert!(is_param(&f, 0));
    assert!(!is_param(&f, 1));
    assert_eq!(find_declaration(&f, 2), Some(1));
    assert_eq!(find_declaration(&f, 0), None);
    assert!(check_stmt(&alone(f.clone()), &f, 2));
}

#[test]
fn signature_lets_arguments_through_by_declared_constraints() {
    // fn g<'a, 'b: 'a, 'c>(x: &'a T, y: &'b T, z: &'c T, n: U) -> &'a T
    let mut g = nested();
    g.regions = 3;
    g.ret = Some(0);
    g.outlives = vec![Outlives { longer: 1, shorter: 0 }];
    g.params = vec![
        Param { binding: 0, region: Some(0) },
        Param { binding: 1, region: Some(1) },
        Param { binding: 2, region: Some(2) },
        Param { binding: 3, region: None },
    ];
    assert_eq!(resolve_signature(&g), vec![true, true, false, false]);
}

#[test]
fn signature_constraints_are_followed_transitively_and_one_way() {
    // 'c: 'b, 'b: 'a, returns 'b
    let mut g = nested();
    g.regions = 3;
    g.ret = Some(1);
    g.outlives =
        vec![Outlives { longer: 2, shorter: 1 }, Outlives { longer: 1, shorter: 0 }];
    g.params = vec![
        Param { binding: 0, region: Some(0) },
        Param { binding: 1, region: Some(1) },
        Param { binding: 2, region: Some(2) },
    ];
    assert_eq!(resolve_signature(&g), vec![false, true, true]);
    // without a returned reference nothing passes through
    g.ret = None;
    assert_eq!(resolve_signature(&g), vec![false, false, false]);
}

#[test]
fn signatures_of_malformed_functions_resolve_to_nothing() {
    let mut bad = nested();
    bad.ret = Some(4);
    let mut good = nested();
    good.regions = 1;
    good.ret = Some(0);
    good.params[0].region = Some(0);
    let prog = Program { functions: vec![bad, good] };
    assert_eq!(resolve_signatures(&prog), vec![vec![], vec![true]]);
}
