//! The scope and binding tracker: checks that a function of the program
//! model is structurally sound, and answers where each binding is declared
//! and how scopes nest.

use crate::model::{Function, Param, Program, Scope, StmtKind};
use vstd::prelude::*;

verus! {

/// Scope `a` is scope `b` or one of its ancestors.
pub open spec fn encloses(scopes: Seq<Scope>, a: int, b: int) -> bool
    decreases b,
{
    a == b || (0 <= b < scopes.len() && match scopes[b].parent {
        Some(j) => j < b && encloses(scopes, a, j as int),
        None => false,
    })
}

impl Function {
    /// Every region parameter that the signature names is one it declares.
    pub open spec fn signature_wf(&self) -> bool {
        &&& forall|i: int|
            0 <= i < self.params@.len() ==> match (#[trigger] self.params@[i]).region {
                Some(r) => r < self.regions,
                None => true,
            }
        &&& match self.ret {
            Some(r) => r < self.regions,
            None => true,
        }
        &&& forall|k: int|
            0 <= k < self.outlives@.len() ==> (#[trigger] self.outlives@[k]).longer < self.regions
                && self.outlives@[k].shorter < self.regions
    }

    /// A field entry names an earlier entry that is not itself a field.
    pub open spec fn binding_wf(&self, e: int) -> bool {
        match self.bindings@[e].field_of {
            Some(o) => o < e && self.bindings@[o as int].field_of is None,
            None => true,
        }
    }

    /// A parameter is held by a binding of the table that is not a field.
    pub open spec fn param_wf(&self, i: int) -> bool {
        &&& self.params@[i].binding < self.places()
        &&& self.bindings@[self.params@[i].binding as int].field_of is None
    }

    /// Every field and every parameter names a proper binding.
    pub open spec fn bindings_wf(&self) -> bool {
        &&& forall|e: int| 0 <= e < self.places() ==> #[trigger] self.binding_wf(e)
        &&& forall|i: int| 0 <= i < self.params@.len() ==> #[trigger] self.param_wf(i)
    }

    /// Scope 0 spans the whole body and has no parent; any other scope has an
    /// earlier scope as its parent and lies within the parent's range.
    pub open spec fn scope_wf(&self, s: int) -> bool {
        let sc = self.scopes@[s];
        if s == 0 {
            sc.parent is None && sc.entry == 0 && sc.exit == self.points()
        } else {
            match sc.parent {
                Some(j) => {
                    let pa = self.scopes@[j as int];
                    j < s && pa.entry <= sc.entry && sc.entry <= sc.exit && sc.exit <= pa.exit
                },
                None => false,
            }
        }
    }

    /// The body is not empty and its scopes form a tree of nested ranges.
    pub open spec fn scopes_wf(&self) -> bool {
        &&& self.points() >= 1
        &&& self.scopes@.len() >= 1
        &&& forall|s: int| 0 <= s < self.scopes@.len() ==> #[trigger] self.scope_wf(s)
    }

    /// The scope that the statement at `p` names is the innermost one around
    /// it: it contains `p`, and every scope that contains `p` encloses it.
    pub open spec fn scope_fits(&self, p: int) -> bool {
        let s = self.stmts@[p].scope as int;
        &&& s < self.scopes@.len()
        &&& self.in_span(s, p)
        &&& forall|t: int|
            0 <= t < self.scopes@.len() && #[trigger] self.in_span(t, p) ==> encloses(
                self.scopes@,
                t,
                s,
            )
    }

    /// What the statement at `p` names exists: its successors are points, its
    /// operands and target are entries of the binding table, a declaration
    /// names a binding that is neither a field nor a parameter, and a call
    /// names a function with a sound signature and passes it as many
    /// arguments as it has parameters.
    pub open spec fn refs_fit(&self, prog: &Program, p: int) -> bool {
        let st = self.stmts@[p];
        &&& forall|j: int| 0 <= j < st.succs@.len() ==> (#[trigger] st.succs@[j]) < self.points()
        &&& forall|i: int| 0 <= i < st.uses@.len() ==> (#[trigger] st.uses@[i]).place < self.places()
        &&& match st.assigns {
            Some(t) => t < self.places(),
            None => true,
        }
        &&& match st.kind {
            StmtKind::Declare(b) => b < self.places() && self.bindings@[b as int].field_of is None
                && !self.is_param(b as int),
            StmtKind::Call(c) => c < prog.functions@.len() && prog.functions@[c as int].signature_wf()
                && st.uses@.len() == prog.functions@[c as int].params@.len(),
            _ => true,
        }
    }

    /// The statement at `p` fits the function and the program around it.
    pub open spec fn stmt_wf(&self, prog: &Program, p: int) -> bool {
        self.scope_fits(p) && self.refs_fit(prog, p)
    }

    /// Every statement fits.
    pub open spec fn stmts_wf(&self, prog: &Program) -> bool {
        forall|p: int| 0 <= p < self.points() ==> #[trigger] self.stmt_wf(prog, p)
    }

    /// Exactly one statement declares binding `b`, and it is the one at `p`.
    pub open spec fn declared_at(&self, b: int, p: int) -> bool {
        &&& 0 <= p < self.points()
        &&& self.declares(p, b)
        &&& forall|q: int| 0 <= q < self.points() && #[trigger] self.declares(q, b) ==> q == p
    }

    /// Binding `b` is one that the body has to declare: it is neither a field
    /// nor a parameter.
    pub open spec fn is_local(&self, b: int) -> bool {
        self.bindings@[b].field_of is None && !self.is_param(b)
    }

    /// Exactly one statement declares binding `b`.
    pub open spec fn declared_once(&self, b: int) -> bool {
        exists|p: int| #[trigger] self.declared_at(b, p)
    }

    /// Every binding that the body has to declare is declared exactly once.
    pub open spec fn decls_wf(&self) -> bool {
        forall|b: int| 0 <= b < self.places() && #[trigger] self.is_local(b) ==> self.declared_once(b)
    }

    /// The function is structurally sound.
    pub open spec fn well_formed(&self, prog: &Program) -> bool {
        &&& self.signature_wf()
        &&& self.bindings_wf()
        &&& self.scopes_wf()
        &&& self.stmts_wf(prog)
        &&& self.decls_wf()
    }

    /// The point at which the binding of entry `e` is declared; 0 for a
    /// parameter.
    pub open spec fn decl_point(&self, e: int) -> int {
        let r = self.root(e);
        if self.is_param(r) {
            0
        } else {
            choose|p: int| #[trigger] self.declared_at(r, p)
        }
    }

    /// The scope in which the binding of entry `e` is declared; 0 for a
    /// parameter.
    pub open spec fn decl_scope(&self, e: int) -> int {
        if self.is_param(self.root(e)) {
            0
        } else {
            self.stmts@[self.decl_point(e)].scope as int
        }
    }

    /// The storage of entry `e` exists at point `p`: always for a parameter,
    /// whose storage the caller owns, and else from the declaration of the
    /// binding to the end of the scope that declares it.
    pub open spec fn storage_at(&self, e: int, p: int) -> bool {
        self.is_param(self.root(e)) || (self.decl_point(e) <= p && p < self.scopes@[self.decl_scope(
            e,
        )].exit)
    }
}

/// What is wrong with the structure of a function.
#[derive(Debug, Clone, Copy, PartialEq, Eq, Structural)]
pub enum StructuralError {
    /// The signature names a region parameter that it does not declare.
    Signature,
    /// A field or a parameter names a binding that does not exist or is
    /// itself a field.
    Bindings,
    /// The body is empty, or a scope does not nest in its parent.
    Scopes,
    /// A statement names a scope, point, binding or function that does not
    /// exist or does not fit.
    Statements,
    /// A local binding is never declared, or declared more than once.
    Declarations,
}

/// The first structural fault of `f`, in the order in which the variants of
/// [`StructuralError`] are listed, or `None` for a sound function.
pub open spec fn structural_error(prog: &Program, f: &Function) -> Option<StructuralError> {
    if !f.signature_wf() {
        Some(StructuralError::Signature)
    } else if !f.bindings_wf() {
        Some(StructuralError::Bindings)
    } else if !f.scopes_wf() {
        Some(StructuralError::Scopes)
    } else if !f.stmts_wf(prog) {
        Some(StructuralError::Statements)
    } else if !f.decls_wf() {
        Some(StructuralError::Declarations)
    } else {
        None
    }
}

/// Where each entry of the binding table is declared.
#[derive(Debug, Clone, PartialEq, Eq)]
pub struct Tracker {
    /// For each entry, the point at which its binding is declared.
    pub decl_point: Vec<usize>,
    /// For each entry, the scope in which its binding is declared.
    pub decl_scope: Vec<usize>,
}

impl Tracker {
    /// The tracker holds the declaration point and scope of every entry of
    /// the binding table of `f`.
    pub open spec fn tracks(&self, f: &Function) -> bool {
        &&& self.decl_point@.len() == f.places()
        &&& self.decl_scope@.len() == f.places()
        &&& forall|e: int|
            0 <= e < f.places() ==> (#[trigger] self.decl_point@[e]) == f.decl_point(e)
                && self.decl_scope@[e] == f.decl_scope(e)
    }
}

/// Whether every region parameter that the signature names is declared.
pub fn check_signature(f: &Function) -> (ok: bool)
    ensures
        ok == f.signature_wf(),
{
    let mut i: usize = 0;
    while i < f.params.len()
        invariant
            i <= f.params@.len(),
            forall|j: int|
                0 <= j < i ==> match (#[trigger] f.params@[j]).region {
                    Some(r) => r < f.regions,
                    None => true,
                },
        decreases f.params@.len() - i,
    {
        match f.params[i].region {
            Some(r) => {
                if r >= f.regions {
                    return false;
                }
            },
            None => {},
        }
        i += 1;
    }
    match f.ret {
        Some(r) => {
            if r >= f.regions {
                return false;
            }
        },
        None => {},
    }
    let mut k: usize = 0;
    while k < f.outlives.len()
        invariant
            k <= f.outlives@.len(),
            forall|j: int|
                0 <= j < k ==> (#[trigger] f.outlives@[j]).longer < f.regions
                    && f.outlives@[j].shorter < f.regions,
        decreases f.outlives@.len() - k,
    {
        if f.outlives[k].longer >= f.regions || f.outlives[k].shorter >= f.regions {
            return false;
        }
        k += 1;
    }
    true
}

/// Whether every field and every parameter names a proper binding.
pub fn check_bindings(f: &Function) -> (ok: bool)
    ensures
        ok == f.bindings_wf(),
{
    let mut e: usize = 0;
    while e < f.bindings.len()
        invariant
            e <= f.bindings@.len(),
            forall|j: int| 0 <= j < e ==> #[trigger] f.binding_wf(j),
        decreases f.bindings@.len() - e,
    {
        match f.bindings[e].field_of {
            Some(o) => {
                if o >= e || f.bindings[o].field_of.is_some() {
                    assert(!f.binding_wf(e as int));
                    return false;
                }
            },
            None => {},
        }
        e += 1;
    }
    let mut i: usize = 0;
    while i < f.params.len()
        invariant
            i <= f.params@.len(),
            forall|j: int| 0 <= j < f.places() ==> #[trigger] f.binding_wf(j),
            forall|j: int| 0 <= j < i ==> #[trigger] f.param_wf(j),
        decreases f.params@.len() - i,
    {
        let b = f.params[i].binding;
        if b >= f.bindings.len() || f.bindings[b].field_of.is_some() {
            assert(!f.param_wf(i as int));
            return false;
        }
        i += 1;
    }
    true
}

/// Whether the body is not empty and its scopes nest.
pub fn check_scopes(f: &Function) -> (ok: bool)
    ensures
        ok == f.scopes_wf(),
{
    if f.stmts.len() < 1 || f.scopes.len() < 1 {
        return false;
    }
    let root = f.scopes[0];
    if root.parent.is_some() || root.entry != 0 || root.exit != f.stmts.len() {
        assert(!f.scope_wf(0));
        return false;
    }
    let mut s: usize = 1;
    while s < f.scopes.len()
        invariant
            1 <= s <= f.scopes@.len(),
            forall|j: int| 0 <= j < s ==> #[trigger] f.scope_wf(j),
        decreases f.scopes@.len() - s,
    {
        let sc = f.scopes[s];
        match sc.parent {
            Some(j) => {
                if j >= s {
                    assert(!f.scope_wf(s as int));
                    return false;
                }
                let pa = f.scopes[j];
                if !(pa.entry <= sc.entry && sc.entry <= sc.exit && sc.exit <= pa.exit) {
                    assert(!f.scope_wf(s as int));
                    return false;
                }
            },
            None => {
                assert(!f.scope_wf(s as int));
                return false;
            },
        }
        s += 1;
    }
    true
}

/// Whether binding `b` holds a parameter of `f`.
pub fn is_param(f: &Function, b: usize) -> (r: bool)
    ensures
        r == f.is_param(b as int),
{
    let mut i: usize = 0;
    while i < f.params.len()
        invariant
            i <= f.params@.len(),
            forall|j: int| 0 <= j < i ==> (#[trigger] f.params@[j]).binding != b,
        decreases f.params@.len() - i,
    {
        if f.params[i].binding == b {
            return true;
        }
        i += 1;
    }
    false
}

/// Whether scope `a` is scope `b` or one of its ancestors.
pub fn scope_encloses(f: &Function, a: usize, b: usize) -> (r: bool)
    requires
        b < f.scopes@.len(),
    ensures
        r == encloses(f.scopes@, a as int, b as int),
{
    let mut cur = b;
    loop
        invariant
            cur < f.scopes@.len(),
            encloses(f.scopes@, a as int, b as int) == encloses(f.scopes@, a as int, cur as int),
        decreases cur,
    {
        if cur == a {
            return true;
        }
        match f.scopes[cur].parent {
            Some(j) => {
                if j < cur {
                    cur = j;
                } else {
                    return false;
                }
            },
            None => {
                return false;
            },
        }
    }
}

/// Whether scope `a` is a proper ancestor of scope `b`.
pub fn is_ancestor(f: &Function, a: usize, b: usize) -> (r: bool)
    requires
        b < f.scopes@.len(),
    ensures
        r == (a != b && encloses(f.scopes@, a as int, b as int)),
{
    a != b && scope_encloses(f, a, b)
}

/// The chain of scopes around scope `s`, from `s` outwards to the body of
/// the function.
pub open spec fn scope_chain(scopes: Seq<Scope>, s: int) -> Seq<usize>
    decreases s,
{
    if 0 <= s < scopes.len() {
        match scopes[s].parent {
            Some(j) => if j < s {
                seq![s as usize] + scope_chain(scopes, j as int)
            } else {
                seq![s as usize]
            },
            None => seq![s as usize],
        }
    } else {
        Seq::empty()
    }
}

/// The scopes around point `p`, innermost first.
pub fn enclosing_scopes(f: &Function, p: usize) -> (chain: Vec<usize>)
    requires
        p < f.points(),
    ensures
        chain@ == scope_chain(f.scopes@, f.stmts@[p as int].scope as int),
{
    let mut chain: Vec<usize> = Vec::new();
    let inner = f.stmts[p].scope;
    if inner >= f.scopes.len() {
        return chain;
    }
    let mut cur = inner;
    let mut done = false;
    while !done
        invariant
            cur < f.scopes@.len(),
            !done ==> scope_chain(f.scopes@, inner as int) == chain@ + scope_chain(
                f.scopes@,
                cur as int,
            ),
            done ==> chain@ == scope_chain(f.scopes@, inner as int),
        decreases cur + if done { 0int } else { 1int },
    {
        let ghost before = chain@;
        chain.push(cur);
        match f.scopes[cur].parent {
            Some(j) => {
                if j < cur {
                    assert(chain@ + scope_chain(f.scopes@, j as int) =~= before + scope_chain(
                        f.scopes@,
                        cur as int,
                    ));
                    cur = j;
                } else {
                    assert(chain@ =~= before + scope_chain(f.scopes@, cur as int));
                    done = true;
                }
            },
            None => {
                assert(chain@ =~= before + scope_chain(f.scopes@, cur as int));
                done = true;
            },
        }
    }
    chain
}

/// The innermost scope around point `p`.
pub fn scope_of(f: &Function, p: usize) -> (s: usize)
    requires
        p < f.points(),
        f.scope_fits(p as int),
    ensures
        s == f.stmts@[p as int].scope,
        s < f.scopes@.len(),
        f.in_span(s as int, p as int),
        forall|t: int|
            0 <= t < f.scopes@.len() && #[trigger] f.in_span(t, p as int) ==> encloses(
                f.scopes@,
                t,
                s as int,
            ),
{
    f.stmts[p].scope
}

fn check_scope_fits(f: &Function, p: usize) -> (ok: bool)
    requires
        p < f.points(),
    ensures
        ok == f.scope_fits(p as int),
{
    let s = f.stmts[p].scope;
    if s >= f.scopes.len() {
        return false;
    }
    let sc = f.scopes[s];
    if !(sc.entry <= p && p < sc.exit) {
        return false;
    }
    let mut t: usize = 0;
    while t < f.scopes.len()
        invariant
            t <= f.scopes@.len(),
            p < f.points(),
            s == f.stmts@[p as int].scope,
            s < f.scopes@.len(),
            forall|u: int|
                0 <= u < t && #[trigger] f.in_span(u, p as int) ==> encloses(
                    f.scopes@,
                    u,
                    s as int,
                ),
        decreases f.scopes@.len() - t,
    {
        let tc = f.scopes[t];
        if tc.entry <= p && p < tc.exit {
            if !scope_encloses(f, t, s) {
                assert(f.in_span(t as int, p as int));
                return false;
            }
        }
        t += 1;
    }
    true
}

fn check_refs(prog: &Program, f: &Function, p: usize) -> (ok: bool)
    requires
        p < f.points(),
    ensures
        ok == f.refs_fit(prog, p as int),
{
    let st = &f.stmts[p];
    let mut j: usize = 0;
    while j < st.succs.len()
        invariant
            j <= st.succs@.len(),
            p < f.points(),
            *st == f.stmts@[p as int],
            forall|i: int| 0 <= i < j ==> (#[trigger] st.succs@[i]) < f.points(),
        decreases st.succs@.len() - j,
    {
        if st.succs[j] >= f.stmts.len() {
            assert(f.stmts@[p as int].succs@[j as int] >= f.points());
            return false;
        }
        j += 1;
    }
    let mut i: usize = 0;
    while i < st.uses.len()
        invariant
            i <= st.uses@.len(),
            p < f.points(),
            *st == f.stmts@[p as int],
            forall|k: int| 0 <= k < i ==> (#[trigger] st.uses@[k]).place < f.places(),
        decreases st.uses@.len() - i,
    {
        if st.uses[i].place >= f.bindings.len() {
            assert(f.stmts@[p as int].uses@[i as int].place >= f.places());
            return false;
        }
        i += 1;
    }
    match st.assigns {
        Some(t) => {
            if t >= f.bindings.len() {
                return false;
            }
        },
        None => {},
    }
    match st.kind {
        StmtKind::Declare(b) => {
            if b >= f.bindings.len() {
                return false;
            }
            if f.bindings[b].field_of.is_some() {
                return false;
            }
            !is_param(f, b)
        },
        StmtKind::Call(c) => {
            if c >= prog.functions.len() {
                return false;
            }
            check_signature(&prog.functions[c]) && st.uses.len() == prog.functions[c].params.len()
        },
        _ => true,
    }
}

/// Whether the statement at `p` fits the function and the program around it.
pub fn check_stmt(prog: &Program, f: &Function, p: usize) -> (ok: bool)
    requires
        p < f.points(),
    ensures
        ok == f.stmt_wf(prog, p as int),
{
    check_scope_fits(f, p) && check_refs(prog, f, p)
}

/// The point of the one statement that declares binding `b`, or `None` when
/// no statement or more than one declares it.
pub fn find_declaration(f: &Function, b: usize) -> (r: Option<usize>)
    ensures
        match r {
            Some(p) => f.declared_at(b as int, p as int),
            None => !f.declared_once(b as int),
        },
{
    let mut first: Option<usize> = None;
    let mut q: usize = 0;
    while q < f.stmts.len()
        invariant
            q <= f.points(),
            match first {
                Some(p) => p < q && f.declares(p as int, b as int) && forall|u: int|
                    0 <= u < q && #[trigger] f.declares(u, b as int) ==> u == p,
                None => forall|u: int| 0 <= u < q ==> !#[trigger] f.declares(u, b as int),
            },
        decreases f.points() - q,
    {
        let declares = match f.stmts[q].kind {
            StmtKind::Declare(d) => d == b,
            _ => false,
        };
        assert(declares == f.declares(q as int, b as int));
        if declares {
            match first {
                Some(p) => {
                    assert forall|w: int| !#[trigger] f.declared_at(b as int, w) by {
                        if f.declared_at(b as int, w) {
                            assert(f.declares(p as int, b as int));
                            assert(f.declares(q as int, b as int));
                        }
                    }
                    return None;
                },
                None => {
                    first = Some(q);
                },
            }
        }
        q += 1;
    }
    if first.is_none() {
        assert forall|w: int| !#[trigger] f.declared_at(b as int, w) by {
            if f.declared_at(b as int, w) {
                assert(f.declares(w, b as int));
            }
        }
    }
    first
}

/// Checks the structure of `f` and records where its bindings are declared.
///
/// Fails with the first structural fault, in the order in which the variants
/// of [`StructuralError`] are listed, and succeeds for a sound function.
pub fn track(prog: &Program, f: &Function) -> (r: Result<Tracker, StructuralError>)
    ensures
        match r {
            Ok(t) => structural_error(prog, f) is None && f.well_formed(prog) && t.tracks(f),
            Err(e) => structural_error(prog, f) == Some(e) && !f.well_formed(prog),
        },
{
    if !check_signature(f) {
        return Err(StructuralError::Signature);
    }
    if !check_bindings(f) {
        return Err(StructuralError::Bindings);
    }
    if !check_scopes(f) {
        return Err(StructuralError::Scopes);
    }
    let mut p: usize = 0;
    while p < f.stmts.len()
        invariant
            p <= f.points(),
            f.signature_wf(),
            f.bindings_wf(),
            f.scopes_wf(),
            forall|q: int| 0 <= q < p ==> #[trigger] f.stmt_wf(prog, q),
        decreases f.points() - p,
    {
        if !check_stmt(prog, f, p) {
            assert(!f.stmt_wf(prog, p as int));
            return Err(StructuralError::Statements);
        }
        p += 1;
    }
    let mut decl_point: Vec<usize> = Vec::new();
    let mut decl_scope: Vec<usize> = Vec::new();
    let mut e: usize = 0;
    while e < f.bindings.len()
        invariant
            e <= f.places(),
            f.signature_wf(),
            f.bindings_wf(),
            f.scopes_wf(),
            f.stmts_wf(prog),
            decl_point@.len() == e,
            decl_scope@.len() == e,
            forall|c: int|
                0 <= c < e ==> (#[trigger] decl_point@[c]) == f.decl_point(c) && decl_scope@[c]
                    == f.decl_scope(c),
            forall|c: int| 0 <= c < e && #[trigger] f.is_local(c) ==> f.declared_once(c),
        decreases f.places() - e,
    {
        assert(f.binding_wf(e as int));
        match f.bindings[e].field_of {
            Some(o) => {
                assert(f.root(e as int) == o);
                assert(f.root(o as int) == o);
                let dp = decl_point[o];
                let ds = decl_scope[o];
                decl_point.push(dp);
                decl_scope.push(ds);
            },
            None => {
                if is_param(f, e) {
                    assert(f.root(e as int) == e);
                    decl_point.push(0);
                    decl_scope.push(0);
                } else {
                    match find_declaration(f, e) {
                        Some(q) => {
                            proof {
                                assert(f.root(e as int) == e);
                                assert(f.declared_at(f.root(e as int), q as int));
                                let w = f.decl_point(e as int);
                                assert(f.declared_at(e as int, w));
                                assert(f.declares(q as int, e as int));
                                assert(w == q);
                            }
                            decl_point.push(q);
                            decl_scope.push(f.stmts[q].scope);
                        },
                        None => {
                            assert(f.is_local(e as int));
                            assert(!f.declared_once(e as int));
                            assert(!f.decls_wf());
                            return Err(StructuralError::Declarations);
                        },
                    }
                }
            },
        }
        e += 1;
    }
    Ok(Tracker { decl_point, decl_scope })
}

/// The parameters' bindings, in the order of the parameter list.
pub open spec fn param_bindings(f: &Function) -> Seq<usize> {
    f.params@.map_values(|p: Param| p.binding)
}

/// The bindings that statements before point `upto` declare directly in
/// scope `s`, in the order of their declarations.
pub open spec fn locals_declared(f: &Function, s: int, upto: int) -> Seq<usize>
    decreases upto,
{
    if upto <= 0 {
        Seq::empty()
    } else {
        let before = locals_declared(f, s, upto - 1);
        match f.stmts@[upto - 1].kind {
            StmtKind::Declare(b) => if f.stmts@[upto - 1].scope == s {
                before.push(b)
            } else {
                before
            },
            _ => before,
        }
    }
}

/// The bindings declared directly in scope `s`, in declaration order. The
/// parameters count as declared in scope 0 before anything else.
pub open spec fn declared_in(f: &Function, s: int) -> Seq<usize> {
    if s == 0 {
        param_bindings(f) + locals_declared(f, s, f.points())
    } else {
        locals_declared(f, s, f.points())
    }
}

/// The bindings declared directly in scope `s`, in declaration order.
pub fn bindings_declared_in(f: &Function, s: usize) -> (r: Vec<usize>)
    ensures
        r@ == declared_in(f, s as int),
{
    let mut r: Vec<usize> = Vec::new();
    if s == 0 {
        let mut i: usize = 0;
        while i < f.params.len()
            invariant
                i <= f.params@.len(),
                r@ == param_bindings(f).subrange(0, i as int),
            decreases f.params@.len() - i,
        {
            r.push(f.params[i].binding);
            assert(r@ =~= param_bindings(f).subrange(0, i + 1));
            i += 1;
        }
        assert(r@ =~= param_bindings(f));
    }
    let ghost head = r@;
    let mut p: usize = 0;
    while p < f.stmts.len()
        invariant
            p <= f.points(),
            r@ == head + locals_declared(f, s as int, p as int),
        decreases f.points() - p,
    {
        match f.stmts[p].kind {
            StmtKind::Declare(b) => {
                if f.stmts[p].scope == s {
                    r.push(b);
                }
            },
            _ => {},
        }
        assert(r@ =~= head + locals_declared(f, s as int, p + 1));
        p += 1;
    }
    assert(r@ =~= head + locals_declared(f, s as int, f.points()));
    r
}

/// In a sound function what is declared in a scope is a binding of the
/// table.
pub proof fn lemma_declared_are_bindings(prog: &Program, f: &Function, s: int)
    requires
        f.well_formed(prog),
    ensures
        forall|k: int|
            0 <= k < declared_in(f, s).len() ==> (#[trigger] declared_in(f, s)[k]) < f.places(),
{
    lemma_locals_are_bindings(prog, f, s, f.points());
    assert forall|k: int| 0 <= k < declared_in(f, s).len() implies (#[trigger] declared_in(
        f,
        s,
    )[k]) < f.places() by {
        if s == 0 {
            let np = param_bindings(f).len() as int;
            if k < np {
                assert(f.param_wf(k));
            } else {
                assert(declared_in(f, s)[k] == locals_declared(f, s, f.points())[k - np]);
            }
        }
    }
}

proof fn lemma_locals_are_bindings(prog: &Program, f: &Function, s: int, upto: int)
    requires
        f.well_formed(prog),
        upto <= f.points(),
    ensures
        forall|k: int|
            0 <= k < locals_declared(f, s, upto).len() ==> (#[trigger] locals_declared(
                f,
                s,
                upto,
            )[k]) < f.places(),
    decreases upto,
{
    if upto > 0 {
        lemma_locals_are_bindings(prog, f, s, upto - 1);
        assert(f.stmt_wf(prog, upto - 1));
        let prev = locals_declared(f, s, upto - 1);
        let cur = locals_declared(f, s, upto);
        assert forall|k: int| 0 <= k < cur.len() implies (#[trigger] cur[k]) < f.places() by {
            if k < prev.len() {
                assert(cur[k] == prev[k]);
            }
        }
    }
}

/// The chain of scopes around a scope holds exactly the scopes that enclose
/// it.
pub proof fn lemma_chain_holds_enclosing(scopes: Seq<Scope>, t: int, s: int)
    requires
        scopes.len() <= usize::MAX,
        0 <= s < scopes.len(),
        0 <= t < scopes.len(),
    ensures
        scope_chain(scopes, s).contains(t as usize) == encloses(scopes, t, s),
    decreases s,
{
    let chain = scope_chain(scopes, s);
    assert(chain[0] == s as usize);
    match scopes[s].parent {
        Some(j) => {
            if j < s {
                lemma_chain_holds_enclosing(scopes, t, j as int);
                let rest = scope_chain(scopes, j as int);
                if rest.contains(t as usize) {
                    let k = choose|k: int| 0 <= k < rest.len() && rest[k] == t as usize;
                    assert(chain[k + 1] == t as usize);
                }
                if chain.contains(t as usize) && t != s {
                    let k = choose|k: int| 0 <= k < chain.len() && chain[k] == t as usize;
                    assert(rest[k - 1] == t as usize);
                }
            } else {
                if chain.contains(t as usize) {
                    let k = choose|k: int| 0 <= k < chain.len() && chain[k] == t as usize;
                }
            }
        },
        None => {
            if chain.contains(t as usize) {
                let k = choose|k: int| 0 <= k < chain.len() && chain[k] == t as usize;
            }
        },
    }
}

/// In a function with sound scopes, a scope contains every point that a
/// scope inside it contains.
pub proof fn lemma_enclosing_scope_contains(f: &Function, t: int, s: int, p: int)
    requires
        f.scopes_wf(),
        0 <= s < f.scopes@.len(),
        encloses(f.scopes@, t, s),
        f.in_span(s, p),
    ensures
        f.in_span(t, p),
    decreases s,
{
    if t != s {
        assert(f.scope_wf(s));
        match f.scopes@[s].parent {
            Some(j) => {
                lemma_enclosing_scope_contains(f, t, j as int, p);
            },
            None => {},
        }
    }
}

/// The enclosing-scope chain of a point: in a sound function, the chain of
/// scopes around the scope of the statement at `p` holds exactly the scopes
/// whose range contains `p`.
pub proof fn lemma_chain_is_enclosing(prog: &Program, f: &Function, p: int, t: int)
    requires
        f.well_formed(prog),
        0 <= p < f.points(),
        0 <= t < f.scopes@.len(),
    ensures
        scope_chain(f.scopes@, f.stmts@[p].scope as int).contains(t as usize) == f.in_span(t, p),
{
    assert(f.stmt_wf(prog, p));
    let s = f.stmts@[p].scope as int;
    assert(f.scopes@.len() == f.scopes.len());
    lemma_chain_holds_enclosing(f.scopes@, t, s);
    if encloses(f.scopes@, t, s) {
        lemma_enclosing_scope_contains(f, t, s, p);
    }
}

} // verus!
