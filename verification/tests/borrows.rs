use borrow_verifier::borrows::{
    borrow_findings, collect_borrows, find_borrows, flow_list, holders, overlaps, receiver,
    region, touched, Borrow, BorrowSet,
};
use borrow_verifier::cfg::{edge_list, reversed};
use borrow_verifier::dataflow::Edge;
use borrow_verifier::diag::{DiagKind, Finding};
use borrow_verifier::engine::verify;
use borrow_verifier::model::{
    Access, AccessMode, Binding, BorrowKind, Function, Outlives, Param, Program, Scope, Stmt,
    StmtKind, ValueKind,
};
use borrow_verifier::ownership::{analyze, Ownership};
use borrow_verifier::regions::{region_arena, region_findings, RegionArena};
use borrow_verifier::scopes::{track, Tracker};
use borrow_verifier::signature::resolve_signatures;

fn value(name: &str) -> Binding {
    Binding { name: String::from(name), kind: ValueKind::MoveOnly, field_of: None }
}

fn reference(name: &str) -> Binding {
    Binding { name: String::from(name), kind: ValueKind::Copyable, field_of: None }
}

fn member(name: &str, of: usize) -> Binding {
    Binding { name: String::from(name), kind: ValueKind::MoveOnly, field_of: Some(of) }
}

fn rd(place: usize) -> Access {
    Access { mode: AccessMode::Read, place }
}

fn by_value(place: usize) -> Access {
    Access { mode: AccessMode::Use, place }
}

fn wr(place: usize) -> Access {
    Access { mode: AccessMode::Write, place }
}

fn shr(place: usize) -> Access {
    Access { mode: AccessMode::Borrow(BorrowKind::Shared), place }
}

fn excl(place: usize) -> Access {
    Access { mode: AccessMode::Borrow(BorrowKind::Exclusive), place }
}

fn bind(binding: usize, uses: Vec<Access>, succs: Vec<usize>) -> Stmt {
    Stmt { kind: StmtKind::Declare(binding), uses, assigns: Some(binding), scope: 0, succs }
}

fn bare(binding: usize, succs: Vec<usize>) -> Stmt {
    Stmt { kind: StmtKind::Declare(binding), uses: vec![], assigns: None, scope: 0, succs }
}

fn eval(uses: Vec<Access>, succs: Vec<usize>) -> Stmt {
    Stmt { kind: StmtKind::Plain, uses, assigns: None, scope: 0, succs }
}

fn store(place: usize, uses: Vec<Access>, succs: Vec<usize>) -> Stmt {
    Stmt { kind: StmtKind::Plain, uses, assigns: Some(place), scope: 0, succs }
}

fn call(callee: usize, uses: Vec<Access>, assigns: Option<usize>, succs: Vec<usize>) -> Stmt {
    Stmt { kind: StmtKind::Call(callee), uses, assigns, scope: 0, succs }
}

fn give_back(uses: Vec<Access>) -> Stmt {
    Stmt { kind: StmtKind::Return, uses, assigns: None, scope: 0, succs: vec![] }
}

fn in_scope(scope: usize, mut s: Stmt) -> Stmt {
    s.scope = scope;
    s
}

fn routine(bindings: Vec<Binding>, stmts: Vec<Stmt>) -> Function {
    let exit = stmts.len();
    Function {
        name: String::from("f"),
        regions: 0,
        params: vec![],
        ret: None,
        outlives: vec![],
        bindings,
        scopes: vec![Scope { parent: None, entry: 0, exit }],
        stmts,
    }
}

/// A callee with the given region of each parameter and of its result; its
/// body reads its parameters and returns nothing of them.
fn callee(regions: usize, params: Vec<Option<usize>>, ret: Option<usize>) -> Function {
    let bindings: Vec<Binding> = (0..params.len()).map(|_| reference("p")).collect();
    let uses: Vec<Access> = (0..params.len()).map(rd).collect();
    Function {
        name: String::from("callee"),
        regions,
        params: params
            .into_iter()
            .enumerate()
            .map(|(binding, region)| Param { binding, region })
            .collect(),
        ret,
        outlives: vec![],
        bindings,
        scopes: vec![Scope { parent: None, entry: 0, exit: 1 }],
        stmts: vec![eval(uses, vec![])],
    }
}

struct Checked {
    prog: Program,
    fidx: usize,
    sigs: Vec<Vec<bool>>,
    tracker: Tracker,
    edges: Vec<Edge>,
    own: Ownership,
    set: BorrowSet,
}

fn check_fn(prog: Program, fidx: usize) -> Checked {
    let sigs = resolve_signatures(&prog);
    let tracker = track(&prog, &prog.functions[fidx]).expect("a sound function");
    let edges = edge_list(&prog.functions[fidx]);
    let own = analyze(&prog, &prog.functions[fidx], &edges);
    let set = find_borrows(&prog, &prog.functions[fidx], &sigs, &edges);
    Checked { prog, fidx, sigs, tracker, edges, own, set }
}

fn check(f: Function) -> Checked {
    check_fn(Program { functions: vec![f] }, 0)
}

fn borrow_results(c: &Checked) -> Vec<Finding> {
    borrow_findings(&c.prog, &c.prog.functions[c.fidx], &c.own, &c.set)
}

fn region_results(c: &Checked) -> Vec<Finding> {
    let f = &c.prog.functions[c.fidx];
    let arena = region_arena(&c.prog, f, &c.tracker, &c.set);
    region_findings(&c.prog, f, &c.set, &arena)
}

fn conflict(point: usize, place: usize, with: usize) -> Finding {
    Finding { kind: DiagKind::ConflictingBorrow, point, place, related: Some(with) }
}

fn marks(n: usize, set: &[usize]) -> Vec<bool> {
    (0..n).map(|q| set.contains(&q)).collect()
}

#[test]
fn a_copied_reference_keeps_the_borrow_alive() {
    // let v; let r1 = &v; let r2 = r1; let w = &mut v; read(r2);
    let c = check(routine(
        vec![value("v"), reference("r1"), reference("r2"), value("w")],
        vec![
            bind(0, vec![], vec![1]),
            bind(1, vec![shr(0)], vec![2]),
            bind(2, vec![by_value(1)], vec![3]),
            bind(3, vec![excl(0)], vec![4]),
            eval(vec![rd(2)], vec![]),
        ],
    ));
    assert_eq!(
        c.set.borrows,
        vec![
            Borrow { kind: BorrowKind::Shared, target: 0, point: 1, operand: 0, receiver: Some(1) },
            Borrow { kind: BorrowKind::Exclusive, target: 0, point: 3, operand: 0, receiver: Some(3) },
        ]
    );
    assert_eq!(c.set.holders, vec![marks(4, &[1, 2]), marks(4, &[3])]);
    assert_eq!(c.set.regions, vec![marks(5, &[1, 2, 3, 4]), marks(5, &[3])]);
    assert_eq!(borrow_results(&c), vec![conflict(3, 0, 1)]);
    assert_eq!(region_results(&c), vec![]);
}

#[test]
fn a_borrow_ends_with_the_last_use_of_its_holders() {
    // let v; let r1 = &v; let r2 = r1; let w = &mut v;
    let c = check(routine(
        vec![value("v"), reference("r1"), reference("r2"), value("w")],
        vec![
            bind(0, vec![], vec![1]),
            bind(1, vec![shr(0)], vec![2]),
            bind(2, vec![by_value(1)], vec![3]),
            bind(3, vec![excl(0)], vec![]),
        ],
    ));
    assert_eq!(c.set.regions, vec![marks(4, &[1, 2]), marks(4, &[3])]);
    assert_eq!(borrow_results(&c), vec![]);
}

#[test]
fn helpers_of_the_borrow_checker() {
    let f = routine(
        vec![value("v"), reference("r1"), reference("r2"), value("w"), member("v.f", 0)],
        vec![
            bind(0, vec![], vec![1]),
            bind(1, vec![shr(0)], vec![2]),
            bind(2, vec![by_value(1)], vec![3]),
            bind(3, vec![excl(0)], vec![4]),
            eval(vec![rd(2)], vec![]),
        ],
    );
    let prog = Program { functions: vec![f.clone()] };
    let sigs = resolve_signatures(&prog);
    assert_eq!(receiver(&prog, &f, &sigs, 1, 0), Some(1));
    assert_eq!(collect_borrows(&prog, &f, &sigs).len(), 2);
    let flows = flow_list(&prog, &f, &sigs);
    assert_eq!(flows, vec![Edge { from: 1, to: 2 }]);
    assert_eq!(holders(&prog, &f, &flows, Some(1)), marks(5, &[1, 2]));
    assert_eq!(holders(&prog, &f, &flows, Some(2)), marks(5, &[2]));
    assert_eq!(holders(&prog, &f, &flows, None), marks(5, &[]));
    assert!(overlaps(&f, 0, 4));
    assert!(overlaps(&f, 4, 0));
    assert!(overlaps(&f, 4, 4));
    assert!(!overlaps(&f, 4, 1));
    assert!(touched(&f, &marks(5, &[4]), 0));
    assert!(!touched(&f, &marks(5, &[4]), 1));
    let edges = edge_list(&f);
    let rev = reversed(&edges);
    assert_eq!(region(&prog, &f, &edges, &rev, 1, &marks(5, &[1, 2])), marks(5, &[1, 2, 3, 4]));
    assert_eq!(region(&prog, &f, &edges, &rev, 1, &marks(5, &[1])), marks(5, &[1, 2]));
    assert_eq!(region(&prog, &f, &edges, &rev, 1, &marks(5, &[])), marks(5, &[1]));
}

#[test]
fn two_exclusive_borrows_conflict() {
    // let v; let a = &mut v; let b = &mut v; mutate(a);
    let c = check(routine(
        vec![value("v"), value("a"), value("b")],
        vec![
            bind(0, vec![], vec![1]),
            bind(1, vec![excl(0)], vec![2]),
            bind(2, vec![excl(0)], vec![3]),
            eval(vec![wr(1)], vec![]),
        ],
    ));
    assert_eq!(borrow_results(&c), vec![conflict(2, 0, 1)]);
}

#[test]
fn shared_borrows_with_overlapping_regions_agree() {
    // let v; let r1 = &v; let r2 = &v; read(r1); read(r2);
    let c = check(routine(
        vec![value("v"), reference("r1"), reference("r2")],
        vec![
            bind(0, vec![], vec![1]),
            bind(1, vec![shr(0)], vec![2]),
            bind(2, vec![shr(0)], vec![3]),
            eval(vec![rd(1), rd(2)], vec![]),
        ],
    ));
    assert_eq!(c.set.regions, vec![marks(4, &[1, 2, 3]), marks(4, &[2, 3])]);
    assert_eq!(borrow_results(&c), vec![]);
}

#[test]
fn a_shared_borrow_while_an_exclusive_one_is_live_conflicts() {
    // let v; let a = &mut v; let r = &v; mutate(a);
    let c = check(routine(
        vec![value("v"), value("a"), reference("r")],
        vec![
            bind(0, vec![], vec![1]),
            bind(1, vec![excl(0)], vec![2]),
            bind(2, vec![shr(0)], vec![3]),
            eval(vec![wr(1)], vec![]),
        ],
    ));
    assert_eq!(borrow_results(&c), vec![conflict(2, 0, 1)]);
}

#[test]
fn borrows_of_different_bindings_do_not_meet() {
    let c = check(routine(
        vec![value("v"), value("u"), value("a"), value("b")],
        vec![
            bind(0, vec![], vec![1]),
            bind(1, vec![], vec![2]),
            bind(2, vec![excl(0)], vec![3]),
            bind(3, vec![excl(1)], vec![4]),
            eval(vec![wr(2), wr(3)], vec![]),
        ],
    ));
    assert_eq!(borrow_results(&c), vec![]);
}

#[test]
fn borrows_of_two_fields_agree_and_of_field_and_whole_conflict() {
    // let s; let a = &mut s.f; let b = &mut s.g; let c = &s; use(a, b);
    let c = check(routine(
        vec![value("s"), member("s.f", 0), member("s.g", 0), value("a"), value("b"), reference("c")],
        vec![
            bind(0, vec![], vec![1]),
            bind(3, vec![excl(1)], vec![2]),
            bind(4, vec![excl(2)], vec![3]),
            bind(5, vec![shr(0)], vec![4]),
            eval(vec![wr(3), wr(4)], vec![]),
        ],
    ));
    assert_eq!(borrow_results(&c), vec![conflict(3, 0, 1), conflict(3, 0, 2)]);
}

#[test]
fn arguments_borrowed_for_a_call_end_with_the_call() {
    // let s; change(&mut s); let n; n = calculate_length(&s); read(s, n);
    let main = routine(
        vec![value("s"), reference("n")],
        vec![
            bind(0, vec![], vec![1]),
            call(1, vec![excl(0)], None, vec![2]),
            bare(1, vec![3]),
            call(1, vec![shr(0)], Some(1), vec![4]),
            eval(vec![rd(0), rd(1)], vec![]),
        ],
    );
    let c = check_fn(Program { functions: vec![main, callee(0, vec![None], None)] }, 0);
    assert_eq!(c.set.regions, vec![marks(5, &[1]), marks(5, &[3])]);
    assert_eq!(c.set.borrows[0].receiver, None);
    assert_eq!(c.set.borrows[1].receiver, None);
    assert_eq!(borrow_results(&c), vec![]);
    assert_eq!(region_results(&c), vec![]);
}

#[test]
fn an_exclusive_and_a_shared_argument_of_one_call_conflict() {
    // let v; g(&mut v, &v);
    let main = routine(
        vec![value("v")],
        vec![bind(0, vec![], vec![1]), call(1, vec![excl(0), shr(0)], None, vec![])],
    );
    let c = check_fn(Program { functions: vec![main, callee(0, vec![None, None], None)] }, 0);
    assert_eq!(borrow_results(&c), vec![conflict(1, 0, 1)]);
}

#[test]
fn changing_a_binding_while_it_is_borrowed_conflicts() {
    // let s; let r = &s; s.push(..); read(r); s.push(..);
    let c = check(routine(
        vec![value("s"), reference("r")],
        vec![
            bind(0, vec![], vec![1]),
            bind(1, vec![shr(0)], vec![2]),
            eval(vec![wr(0)], vec![3]),
            eval(vec![rd(1)], vec![4]),
            eval(vec![wr(0)], vec![]),
        ],
    ));
    assert_eq!(borrow_results(&c), vec![conflict(2, 0, 1)]);
}

#[test]
fn assigning_to_a_binding_while_it_is_borrowed_conflicts() {
    // let s; let r = &s; s = w; read(r);
    let c = check(routine(
        vec![value("s"), reference("r")],
        vec![
            bind(0, vec![], vec![1]),
            bind(1, vec![shr(0)], vec![2]),
            store(0, vec![], vec![3]),
            eval(vec![rd(1)], vec![]),
        ],
    ));
    assert_eq!(borrow_results(&c), vec![conflict(2, 0, 1)]);
}

#[test]
fn assigning_the_result_of_a_call_on_a_borrow_of_the_target_is_fine() {
    // let s; s = g(&s);
    let main = routine(
        vec![value("s")],
        vec![bind(0, vec![], vec![1]), call(1, vec![shr(0)], Some(0), vec![])],
    );
    let c = check_fn(Program { functions: vec![main, callee(0, vec![None], None)] }, 0);
    assert_eq!(borrow_results(&c), vec![]);
}

#[test]
fn borrowing_a_moved_or_uninitialized_binding_is_invalid() {
    // let s; let t = s; let r = &s; let u; let q = &mut u;
    let c = check(routine(
        vec![value("s"), value("t"), reference("r"), value("u"), value("q")],
        vec![
            bind(0, vec![], vec![1]),
            bind(1, vec![by_value(0)], vec![2]),
            bind(2, vec![shr(0)], vec![3]),
            bare(3, vec![4]),
            bind(4, vec![excl(3)], vec![]),
        ],
    ));
    assert_eq!(
        borrow_results(&c),
        vec![
            Finding { kind: DiagKind::BorrowOfInvalidValue, point: 2, place: 0, related: None },
            Finding { kind: DiagKind::BorrowOfInvalidValue, point: 4, place: 3, related: None },
        ]
    );
}

#[test]
fn borrowing_a_partially_moved_binding_is_invalid_but_its_other_field_is_not() {
    // let s; let t = s.f; let r = &s; let q = &s.g;
    let c = check(routine(
        vec![value("s"), member("s.f", 0), member("s.g", 0), value("t"), reference("r"), reference("q")],
        vec![
            bind(0, vec![], vec![1]),
            bind(3, vec![by_value(1)], vec![2]),
            bind(4, vec![shr(0)], vec![3]),
            bind(5, vec![shr(2)], vec![]),
        ],
    ));
    assert_eq!(
        borrow_results(&c),
        vec![Finding { kind: DiagKind::BorrowOfInvalidValue, point: 2, place: 0, related: None }]
    );
}

#[test]
fn reassigning_the_holder_ends_the_old_borrow() {
    // let a; let b; let r = &a; read(r); r = &b; let w = &mut a; read(r);
    let c = check(routine(
        vec![value("a"), value("b"), reference("r"), value("w")],
        vec![
            bind(0, vec![], vec![1]),
            bind(1, vec![], vec![2]),
            bind(2, vec![shr(0)], vec![3]),
            eval(vec![rd(2)], vec![4]),
            store(2, vec![shr(1)], vec![5]),
            bind(3, vec![excl(0)], vec![6]),
            eval(vec![rd(2)], vec![]),
        ],
    ));
    assert_eq!(
        c.set.regions,
        vec![marks(7, &[2, 3]), marks(7, &[4, 5, 6]), marks(7, &[5])]
    );
    assert_eq!(borrow_results(&c), vec![]);
}

#[test]
fn a_borrow_of_a_loop_local_does_not_leak_into_the_next_iteration() {
    // loop { let x = v; let r = &x; read(r); }
    let mut f = routine(
        vec![value("x"), reference("r")],
        vec![
            eval(vec![], vec![1]),
            in_scope(1, bind(0, vec![], vec![2])),
            in_scope(1, bind(1, vec![shr(0)], vec![3])),
            in_scope(1, eval(vec![rd(1)], vec![0, 4])),
            eval(vec![], vec![]),
        ],
    );
    f.scopes.push(Scope { parent: Some(0), entry: 1, exit: 4 });
    let c = check(f.clone());
    assert_eq!(c.set.regions, vec![marks(5, &[2, 3])]);
    assert_eq!(borrow_results(&c), vec![]);
    assert_eq!(region_results(&c), vec![]);
    assert_eq!(verify(&Program { functions: vec![f] }).diagnostics, vec![]);
}

#[test]
fn a_reference_must_not_outlive_the_scope_of_its_target() {
    // let r; { let x = v; r = &x; } read(r);
    let mut f = routine(
        vec![reference("r"), value("x")],
        vec![
            bare(0, vec![1]),
            in_scope(1, bind(1, vec![], vec![2])),
            in_scope(1, store(0, vec![shr(1)], vec![3])),
            eval(vec![rd(0)], vec![]),
        ],
    );
    f.scopes.push(Scope { parent: Some(0), entry: 1, exit: 3 });
    let c = check(f);
    assert_eq!(c.set.regions, vec![marks(4, &[2, 3])]);
    assert_eq!(
        region_results(&c),
        vec![Finding { kind: DiagKind::DanglingReference, point: 2, place: 1, related: None }]
    );
    assert_eq!(borrow_results(&c), vec![]);
}

#[test]
fn the_arena_holds_a_region_and_a_storage_region_per_borrow() {
    let mut f = routine(
        vec![reference("r"), value("x"), value("y"), reference("q")],
        vec![
            bare(0, vec![1]),
            in_scope(1, bind(1, vec![], vec![2])),
            in_scope(1, store(0, vec![shr(1)], vec![3])),
            bind(2, vec![], vec![4]),
            bind(3, vec![shr(2)], vec![5]),
            eval(vec![rd(0), rd(3)], vec![]),
        ],
    );
    f.scopes.push(Scope { parent: Some(0), entry: 1, exit: 3 });
    let c = check(f);
    let arena = region_arena(&c.prog, &c.prog.functions[0], &c.tracker, &c.set);
    assert_eq!(
        arena,
        RegionArena {
            regions: vec![
                marks(6, &[2, 3, 4, 5]),
                marks(6, &[1, 2]),
                marks(6, &[4, 5]),
                marks(6, &[3, 4, 5]),
            ],
            outlives: vec![
                Outlives { longer: 1, shorter: 0 },
                Outlives { longer: 3, shorter: 2 },
            ],
        }
    );
    assert!(!arena.holds_at(0));
    assert!(arena.holds_at(1));
}

/// fn longest<'a>(x: &'a T, y: &'a T) -> &'a T
fn longest() -> Function {
    callee(1, vec![Some(0), Some(0)], Some(0))
}

#[test]
fn the_result_of_a_call_holds_the_borrows_that_pass_through() {
    // let s1; let s2; let res = longest(&s1, &s2); read(res);
    let main = routine(
        vec![value("s1"), value("s2"), reference("res")],
        vec![
            bind(0, vec![], vec![1]),
            bind(1, vec![], vec![2]),
            Stmt {
                kind: StmtKind::Declare(2),
                uses: vec![],
                assigns: None,
                scope: 0,
                succs: vec![3],
            },
            call(1, vec![shr(0), shr(1)], Some(2), vec![4]),
            eval(vec![rd(2)], vec![]),
        ],
    );
    let c = check_fn(Program { functions: vec![main, longest()] }, 0);
    assert_eq!(c.sigs, vec![vec![], vec![true, true]]);
    assert_eq!(c.set.borrows[0].receiver, Some(2));
    assert_eq!(c.set.borrows[1].receiver, Some(2));
    assert_eq!(c.set.regions, vec![marks(5, &[3, 4]), marks(5, &[3, 4])]);
    assert_eq!(borrow_results(&c), vec![]);
    assert_eq!(region_results(&c), vec![]);
}

#[test]
fn references_passed_on_to_a_call_flow_into_its_result() {
    // let s1; let r1 = &s1; let res = longest(r1, r1); let w = &mut s1; read(res);
    let main = routine(
        vec![value("s1"), reference("r1"), reference("res"), value("w")],
        vec![
            bind(0, vec![], vec![1]),
            bind(1, vec![shr(0)], vec![2]),
            bare(2, vec![3]),
            call(1, vec![by_value(1), by_value(1)], Some(2), vec![4]),
            bind(3, vec![excl(0)], vec![5]),
            eval(vec![rd(2)], vec![]),
        ],
    );
    let c = check_fn(Program { functions: vec![main, longest()] }, 0);
    assert_eq!(c.set.holders[0], marks(4, &[1, 2]));
    assert_eq!(borrow_results(&c), vec![conflict(4, 0, 1)]);
}

#[test]
fn returning_a_reference_parameter_is_fine() {
    // fn first<'a>(x: &'a T) -> &'a T { return x; }
    let mut f = routine(vec![reference("x")], vec![give_back(vec![by_value(0)])]);
    f.regions = 1;
    f.ret = Some(0);
    f.params = vec![Param { binding: 0, region: Some(0) }];
    let c = check(f);
    assert_eq!(region_results(&c), vec![]);
}

#[test]
fn returning_a_borrow_of_a_parameter_is_fine_and_of_a_local_field_is_not() {
    // fn f(p) { let s; return (&p, &s.f); }
    let mut f = routine(
        vec![value("p"), value("s"), member("s.f", 1)],
        vec![bind(1, vec![], vec![1]), give_back(vec![shr(0), shr(2)])],
    );
    f.params = vec![Param { binding: 0, region: None }];
    let c = check(f);
    assert_eq!(
        region_results(&c),
        vec![Finding { kind: DiagKind::DanglingReference, point: 1, place: 2, related: Some(1) }]
    );
}

/// fn pick<'a, 'b>(x: &'a T, y: &'b T) -> &'a T with the given body
fn pick(bindings: Vec<Binding>, stmts: Vec<Stmt>) -> Function {
    let mut f = routine(bindings, stmts);
    f.regions = 2;
    f.ret = Some(0);
    f.params =
        vec![Param { binding: 0, region: Some(0) }, Param { binding: 1, region: Some(1) }];
    f
}

#[test]
fn returning_a_parameter_against_the_signature_is_a_mismatch() {
    // { return y; }
    let c = check(pick(
        vec![reference("x"), reference("y")],
        vec![give_back(vec![by_value(1)])],
    ));
    assert_eq!(
        region_results(&c),
        vec![Finding { kind: DiagKind::LifetimeMismatch, point: 0, place: 1, related: None }]
    );
    // { return x; }
    let c = check(pick(
        vec![reference("x"), reference("y")],
        vec![give_back(vec![by_value(0)])],
    ));
    assert_eq!(region_results(&c), vec![]);
}

#[test]
fn a_declared_constraint_lets_the_other_parameter_through() {
    // fn pick<'a, 'b: 'a>(..) { return y; }
    let mut f = pick(vec![reference("x"), reference("y")], vec![give_back(vec![by_value(1)])]);
    f.outlives = vec![Outlives { longer: 1, shorter: 0 }];
    let c = check(f);
    assert_eq!(region_results(&c), vec![]);
    // the constraint the other way round does not help
    let mut g = pick(vec![reference("x"), reference("y")], vec![give_back(vec![by_value(1)])]);
    g.outlives = vec![Outlives { longer: 0, shorter: 1 }];
    let c = check(g);
    assert_eq!(
        region_results(&c),
        vec![Finding { kind: DiagKind::LifetimeMismatch, point: 0, place: 1, related: None }]
    );
}

#[test]
fn a_copy_of_a_parameter_is_held_to_the_signature_too() {
    // { let z = y; read(x); return z; }
    let c = check(pick(
        vec![reference("x"), reference("y"), reference("z")],
        vec![
            bind(2, vec![by_value(1)], vec![1]),
            eval(vec![rd(0)], vec![2]),
            give_back(vec![by_value(2)]),
        ],
    ));
    assert_eq!(
        region_results(&c),
        vec![Finding { kind: DiagKind::LifetimeMismatch, point: 2, place: 1, related: None }]
    );
    let report = verify(&Program { functions: vec![c.prog.functions[0].clone()] });
    assert_eq!(report.diagnostics.len(), 1);
    assert_eq!(
        report.diagnostics[0].message,
        "regions cannot satisfy the signature: y"
    );
}

#[test]
fn a_parameter_passed_by_value_may_be_returned() {
    // fn id(v: T) -> T { return v; }
    let mut f = routine(vec![value("v")], vec![give_back(vec![by_value(0)])]);
    f.params = vec![Param { binding: 0, region: None }];
    let c = check(f);
    assert_eq!(region_results(&c), vec![]);
    assert_eq!(borrow_results(&c), vec![]);
}
