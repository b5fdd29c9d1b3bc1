//! The drop scheduler: which values are released where control leaves a
//! scope, and in which order.

use crate::lattice::PlaceState;
use crate::model::{Function, Program, StmtKind};
use crate::ownership::{state_after, Ownership};
use crate::scopes::{bindings_declared_in, declared_in};
use vstd::prelude::*;

verus! {

/// A release effect: when control leaves `scope` after the statement at
/// `point`, the value in `place` is released.
#[derive(Debug, Clone, Copy, PartialEq, Eq, Structural)]
pub struct Release {
    pub point: usize,
    pub scope: usize,
    pub place: usize,
}

impl Function {
    /// Successor `j` of the statement at `p` lies outside scope `s`.
    pub open spec fn leaves(&self, p: int, j: int, s: int) -> bool {
        !self.in_span(s, self.stmts@[p].succs@[j] as int)
    }

    /// Control can leave scope `s` right after the statement at `p`: the
    /// statement lies in the scope and returns, has no successor, or has a
    /// successor outside the scope.
    pub open spec fn exits(&self, p: int, s: int) -> bool {
        &&& self.in_span(s, p)
        &&& (self.stmts@[p].kind is Return || self.stmts@[p].succs@.len() == 0 || exists|j: int|
            0 <= j < self.stmts@[p].succs@.len() && #[trigger] self.leaves(p, j, s))
    }

    /// Entry `c` is a field of binding `b` that does not hold its value
    /// after the statement at `p`.
    pub open spec fn field_gone(&self, p: int, b: int, c: int) -> bool {
        self.bindings@[c].field_of == Some(b as usize) && self.state_after(c, p) != PlaceState::Live
    }

    /// After the statement at `p`, every field of binding `b` holds its
    /// value.
    pub open spec fn intact(&self, p: int, b: int) -> bool {
        forall|c: int| 0 <= c < self.places() ==> !#[trigger] self.field_gone(p, b, c)
    }

    /// The releases of the fields below `upto` of binding `b` that hold
    /// their values after the statement at `p`, in the order of the binding
    /// table.
    pub open spec fn field_releases(&self, p: int, s: int, b: int, upto: int) -> Seq<Release>
        decreases upto,
    {
        if upto <= 0 {
            Seq::empty()
        } else if self.bindings@[upto - 1].field_of == Some(b as usize) && self.state_after(
            upto - 1,
            p,
        ) == PlaceState::Live {
            self.field_releases(p, s, b, upto - 1).push(
                Release { point: p as usize, scope: s as usize, place: (upto - 1) as usize },
            )
        } else {
            self.field_releases(p, s, b, upto - 1)
        }
    }

    /// What is released of binding `b` when control leaves scope `s` after
    /// the statement at `p`: nothing if the binding is moved or
    /// uninitialized, the binding as a whole if it and all its fields hold
    /// their values, and else the fields that still do.
    pub open spec fn binding_releases(&self, p: int, s: int, b: int) -> Seq<Release> {
        if self.state_after(b, p) != PlaceState::Live {
            Seq::empty()
        } else if self.intact(p, b) {
            seq![Release { point: p as usize, scope: s as usize, place: b as usize }]
        } else {
            self.field_releases(p, s, b, self.places())
        }
    }

    /// The releases of the last `count` bindings of `decls`, the last one
    /// first.
    pub open spec fn scope_releases(&self, p: int, s: int, decls: Seq<usize>, count: int) -> Seq<
        Release,
    >
        decreases count,
    {
        if count <= 0 {
            Seq::empty()
        } else {
            self.scope_releases(p, s, decls, count - 1) + self.binding_releases(
                p,
                s,
                decls[decls.len() - count] as int,
            )
        }
    }

    /// The releases when control leaves scope `s`, and with it perhaps
    /// scopes around it, after the statement at `p`: those of `s`, in
    /// reverse order of declaration, then those of its parent, and so on
    /// outwards for as long as control leaves the scope.
    pub open spec fn exit_releases(&self, p: int, s: int) -> Seq<Release>
        decreases s,
    {
        if 0 <= s < self.scopes@.len() && self.exits(p, s) {
            let here = self.scope_releases(
                p,
                s,
                declared_in(self, s),
                declared_in(self, s).len() as int,
            );
            match self.scopes@[s].parent {
                Some(j) => if j < s {
                    here + self.exit_releases(p, j as int)
                } else {
                    here
                },
                None => here,
            }
        } else {
            Seq::empty()
        }
    }

    /// The releases at the points before `upto`, by point.
    pub open spec fn drop_schedule(&self, upto: int) -> Seq<Release>
        decreases upto,
    {
        if upto <= 0 {
            Seq::empty()
        } else {
            self.drop_schedule(upto - 1) + self.exit_releases(
                upto - 1,
                self.stmts@[upto - 1].scope as int,
            )
        }
    }
}

/// Whether control can leave scope `s` right after the statement at `p`.
pub fn exits(prog: &Program, f: &Function, p: usize, s: usize) -> (r: bool)
    requires
        f.well_formed(prog),
        p < f.points(),
        s < f.scopes@.len(),
    ensures
        r == f.exits(p as int, s as int),
{
    let sc = f.scopes[s];
    if !(sc.entry <= p && p < sc.exit) {
        return false;
    }
    let st = &f.stmts[p];
    let is_return = match st.kind {
        StmtKind::Return => true,
        _ => false,
    };
    if is_return || st.succs.len() == 0 {
        return true;
    }
    let mut j: usize = 0;
    while j < st.succs.len()
        invariant
            j <= st.succs@.len(),
            p < f.points(),
            s < f.scopes@.len(),
            sc == f.scopes@[s as int],
            *st == f.stmts@[p as int],
            f.in_span(s as int, p as int),
            !(st.kind is Return),
            st.succs@.len() != 0,
            forall|i: int| 0 <= i < j ==> !#[trigger] f.leaves(p as int, i, s as int),
        decreases st.succs@.len() - j,
    {
        let q = st.succs[j];
        if !(sc.entry <= q && q < sc.exit) {
            assert(f.leaves(p as int, j as int, s as int));
            return true;
        }
        j += 1;
    }
    false
}

/// Appends to `out` what is released of binding `b` when control leaves
/// scope `s` after the statement at `p`.
fn push_binding_releases(
    prog: &Program,
    f: &Function,
    own: &Ownership,
    p: usize,
    s: usize,
    b: usize,
    out: &mut Vec<Release>,
)
    requires
        f.well_formed(prog),
        own.describes(f),
        p < f.points(),
        b < f.places(),
    ensures
        final(out)@ == old(out)@ + f.binding_releases(p as int, s as int, b as int),
{
    let ghost head = out@;
    match state_after(prog, f, own, b, p) {
        PlaceState::Live => {},
        _ => {
            assert(out@ =~= head + f.binding_releases(p as int, s as int, b as int));
            return ;
        },
    }
    let mut fields: Vec<Release> = Vec::new();
    let mut intact = true;
    let mut c: usize = 0;
    while c < f.bindings.len()
        invariant
            c <= f.places(),
            f.well_formed(prog),
            own.describes(f),
            p < f.points(),
            b < f.places(),
            fields@ == f.field_releases(p as int, s as int, b as int, c as int),
            intact == (forall|d: int| 0 <= d < c ==> !#[trigger] f.field_gone(p as int, b as int, d)),
        decreases f.places() - c,
    {
        let is_field = match f.bindings[c].field_of {
            Some(o) => o == b,
            None => false,
        };
        if is_field {
            match state_after(prog, f, own, c, p) {
                PlaceState::Live => {
                    fields.push(Release { point: p, scope: s, place: c });
                },
                _ => {
                    assert(f.field_gone(p as int, b as int, c as int));
                    intact = false;
                },
            }
        }
        c += 1;
    }
    if intact {
        out.push(Release { point: p, scope: s, place: b });
        assert(out@ =~= head + f.binding_releases(p as int, s as int, b as int));
    } else {
        let mut k: usize = 0;
        while k < fields.len()
            invariant
                k <= fields@.len(),
                out@ == head + fields@.subrange(0, k as int),
            decreases fields@.len() - k,
        {
            out.push(fields[k]);
            assert(out@ =~= head + fields@.subrange(0, k + 1));
            k += 1;
        }
        assert(fields@.subrange(0, fields@.len() as int) =~= fields@);
    }
}

/// Appends to `out` the releases when control leaves scope `s` after the
/// statement at `p`: the bindings declared directly in `s`, last declared
/// first.
fn push_scope_releases(
    prog: &Program,
    f: &Function,
    own: &Ownership,
    p: usize,
    s: usize,
    out: &mut Vec<Release>,
)
    requires
        f.well_formed(prog),
        own.describes(f),
        p < f.points(),
        s < f.scopes@.len(),
    ensures
        final(out)@ == old(out)@ + f.scope_releases(
            p as int,
            s as int,
            declared_in(f, s as int),
            declared_in(f, s as int).len() as int,
        ),
{
    let ghost head = out@;
    let decls = bindings_declared_in(f, s);
    proof {
        crate::scopes::lemma_declared_are_bindings(prog, f, s as int);
    }
    let mut count: usize = 0;
    while count < decls.len()
        invariant
            count <= decls@.len(),
            f.well_formed(prog),
            own.describes(f),
            p < f.points(),
            decls@ == declared_in(f, s as int),
            forall|k: int| 0 <= k < decls@.len() ==> (#[trigger] decls@[k]) < f.places(),
            out@ == head + f.scope_releases(p as int, s as int, decls@, count as int),
        decreases decls@.len() - count,
    {
        let b = decls[decls.len() - 1 - count];
        push_binding_releases(prog, f, own, p, s, b, out);
        assert(out@ =~= head + f.scope_releases(p as int, s as int, decls@, count + 1));
        count += 1;
    }
}

/// The drop schedule of `f`: point by point, for each scope that control
/// can leave right after the statement, innermost scope first, the release
/// of each binding declared directly in the scope that still owns a value,
/// last declared first. A binding that is moved or uninitialized is skipped;
/// of a binding with moved fields only the remaining fields are released.
pub fn drop_schedule(prog: &Program, f: &Function, own: &Ownership) -> (r: Vec<Release>)
    requires
        f.well_formed(prog),
        own.describes(f),
    ensures
        r@ == f.drop_schedule(f.points()),
{
    let mut r: Vec<Release> = Vec::new();
    let mut p: usize = 0;
    while p < f.stmts.len()
        invariant
            p <= f.points(),
            f.well_formed(prog),
            own.describes(f),
            r@ == f.drop_schedule(p as int),
        decreases f.points() - p,
    {
        let ghost head = r@;
        assert(f.stmt_wf(prog, p as int));
        let inner = f.stmts[p].scope;
        let mut cur = inner;
        let mut done = false;
        while !done
            invariant
                p < f.points(),
                cur < f.scopes@.len(),
                f.well_formed(prog),
                own.describes(f),
                !done ==> head + f.exit_releases(p as int, inner as int) == r@ + f.exit_releases(
                    p as int,
                    cur as int,
                ),
                done ==> r@ == head + f.exit_releases(p as int, inner as int),
            decreases cur + if done { 0int } else { 1int },
        {
            if exits(prog, f, p, cur) {
                let ghost before = r@;
                push_scope_releases(prog, f, own, p, cur, &mut r);
                assert(f.scope_wf(cur as int));
                match f.scopes[cur].parent {
                    Some(j) => {
                        if j < cur {
                            assert(r@ + f.exit_releases(p as int, j as int) =~= before
                                + f.exit_releases(p as int, cur as int));
                            cur = j;
                        } else {
                            assert(r@ =~= before + f.exit_releases(p as int, cur as int));
                            done = true;
                        }
                    },
                    None => {
                        assert(r@ =~= before + f.exit_releases(p as int, cur as int));
                        done = true;
                    },
                }
            } else {
                assert(r@ + f.exit_releases(p as int, cur as int) =~= r@);
                done = true;
            }
        }
        p += 1;
    }
    r
}

/// Release order: where none of the bindings declared in a scope has been
/// moved, in whole or in part, they are released in the reverse order of
/// their declarations.
pub proof fn lemma_release_order(f: &Function, p: int, s: int, decls: Seq<usize>, count: int)
    requires
        0 <= count <= decls.len(),
        forall|k: int|
            0 <= k < decls.len() ==> f.state_after((#[trigger] decls[k]) as int, p)
                == PlaceState::Live && f.intact(p, decls[k] as int),
    ensures
        f.scope_releases(p, s, decls, count) == Seq::new(
            count as nat,
            |k: int| Release { point: p as usize, scope: s as usize, place: decls[decls.len() - 1 - k] },
        ),
    decreases count,
{
    if count > 0 {
        lemma_release_order(f, p, s, decls, count - 1);
        let b = decls[decls.len() - count];
        assert(f.binding_releases(p, s, b as int) == seq![
            Release { point: p as usize, scope: s as usize, place: b },
        ]);
        assert(f.scope_releases(p, s, decls, count) =~= Seq::new(
            count as nat,
            |k: int| Release { point: p as usize, scope: s as usize, place: decls[decls.len() - 1 - k] },
        ));
    } else {
        assert(f.scope_releases(p, s, decls, count) =~= Seq::new(
            count as nat,
            |k: int| Release { point: p as usize, scope: s as usize, place: decls[decls.len() - 1 - k] },
        ));
    }
}

} // verus!
