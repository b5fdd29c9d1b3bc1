//! The program model: what the verifier is given to analyse.
//!
//! A program is a table of functions. A function is a table of bindings, a
//! scope tree, and a control-flow graph whose nodes are statements; a program
//! point is the index of a statement, and points are numbered in source
//! order. Point 0 is the entry of the function.

use vstd::prelude::*;

verus! {

/// Whether using a value by value duplicates it or transfers ownership.
#[derive(Debug, Clone, Copy, PartialEq, Eq, Structural)]
pub enum ValueKind {
    Copyable,
    MoveOnly,
}

/// Whether a borrow permits other borrows of the same target beside it.
#[derive(Debug, Clone, Copy, PartialEq, Eq, Structural)]
pub enum BorrowKind {
    Shared,
    Exclusive,
}

/// How a statement touches a place.
#[derive(Debug, Clone, Copy, PartialEq, Eq, Structural)]
pub enum AccessMode {
    /// Looks at the value and leaves it where it is.
    Read,
    /// Takes the value: a copy of a `Copyable` place, a move out of a
    /// `MoveOnly` one. The value goes to the place the statement assigns, to
    /// the callee, or to the caller of the function.
    Use,
    /// Changes the value of the place, or what a reference held in the place
    /// points to.
    Write,
    /// Creates a reference to the place.
    Borrow(BorrowKind),
}

/// One operand of a statement.
#[derive(Debug, Clone, Copy, PartialEq, Eq, Structural)]
pub struct Access {
    pub mode: AccessMode,
    /// Index into the binding table of the function.
    pub place: usize,
}

/// What kind of statement a program point holds.
#[derive(Debug, Clone, Copy, PartialEq, Eq, Structural)]
pub enum StmtKind {
    /// An expression statement, an assignment, or a branch or loop header.
    Plain,
    /// Introduces the given binding, uninitialized until the statement
    /// assigns it.
    Declare(usize),
    /// Calls the function with the given index; the operands are the
    /// arguments, in order.
    Call(usize),
    /// Leaves the function; the operands are what is returned.
    Return,
}

/// A statement: a node of the control-flow graph.
///
/// Its operands are evaluated from first to last, then the place it assigns,
/// if any, receives a value.
#[derive(Debug, Clone, PartialEq, Eq)]
pub struct Stmt {
    pub kind: StmtKind,
    pub uses: Vec<Access>,
    pub assigns: Option<usize>,
    /// Innermost scope that contains the statement.
    pub scope: usize,
    /// Points that control may go to next.
    pub succs: Vec<usize>,
}

/// An entry of the binding table: a binding, or one field of a binding.
///
/// Ownership is tracked per entry, so a field that can be moved out of its
/// aggregate on its own has an entry of its own, which names the aggregate
/// in `field_of`. Fields of fields are not tracked.
#[derive(Debug, Clone, PartialEq, Eq)]
pub struct Binding {
    pub name: String,
    pub kind: ValueKind,
    pub field_of: Option<usize>,
}

/// A scope: a contiguous range of program points, `entry` included and
/// `exit` excluded, nested in its parent.
#[derive(Debug, Clone, Copy, PartialEq, Eq, Structural)]
pub struct Scope {
    pub parent: Option<usize>,
    pub entry: usize,
    pub exit: usize,
}

/// A parameter of a function.
#[derive(Debug, Clone, Copy, PartialEq, Eq, Structural)]
pub struct Param {
    /// The binding that holds the argument inside the body.
    pub binding: usize,
    /// For a reference parameter, the region parameter it is declared with.
    pub region: Option<usize>,
}

/// A declared constraint between two region parameters: every point of
/// `shorter` is a point of `longer`.
#[derive(Debug, Clone, Copy, PartialEq, Eq, Structural)]
pub struct Outlives {
    pub longer: usize,
    pub shorter: usize,
}

/// A function: its signature and its body.
#[derive(Debug, Clone, PartialEq, Eq)]
pub struct Function {
    pub name: String,
    /// Number of region parameters the signature declares.
    pub regions: usize,
    pub params: Vec<Param>,
    /// For a function that returns a reference, the region parameter of the
    /// returned reference.
    pub ret: Option<usize>,
    pub outlives: Vec<Outlives>,
    pub bindings: Vec<Binding>,
    /// The scope tree; scope 0 is the body of the function.
    pub scopes: Vec<Scope>,
    pub stmts: Vec<Stmt>,
}

/// A program.
#[derive(Debug, Clone, PartialEq, Eq)]
pub struct Program {
    pub functions: Vec<Function>,
}

impl Function {
    /// Number of program points.
    pub open spec fn points(&self) -> int {
        self.stmts@.len() as int
    }

    /// Number of entries in the binding table.
    pub open spec fn places(&self) -> int {
        self.bindings@.len() as int
    }

    /// The binding that entry `e` is or belongs to.
    pub open spec fn root(&self, e: int) -> int {
        match self.bindings@[e].field_of {
            Some(o) => o as int,
            None => e,
        }
    }

    /// Giving place `t` a value gives entry `e` a value: `e` is `t` or a
    /// field of `t`.
    pub open spec fn covers(&self, t: int, e: int) -> bool {
        e == t || self.bindings@[e].field_of == Some(t as usize)
    }

    /// Places `a` and `b` share storage: they are the same entry, or one is
    /// a field of the other.
    pub open spec fn overlaps(&self, a: int, b: int) -> bool {
        self.covers(a, b) || self.covers(b, a)
    }

    /// Binding `b` holds a parameter.
    pub open spec fn is_param(&self, b: int) -> bool {
        exists|i: int| 0 <= i < self.params@.len() && (#[trigger] self.params@[i]).binding == b
    }

    /// Point `p` lies in the range of scope `s`.
    pub open spec fn in_span(&self, s: int, p: int) -> bool {
        self.scopes@[s].entry <= p < self.scopes@[s].exit
    }

    /// The statement at point `p` declares binding `b`.
    pub open spec fn declares(&self, p: int, b: int) -> bool {
        self.stmts@[p].kind == StmtKind::Declare(b as usize)
    }
}

} // verus!
