//! Diagnostic kinds, severities, and the findings that the passes emit.

use vstd::prelude::*;

verus! {

/// What a diagnostic reports.
#[derive(Debug, Clone, Copy, PartialEq, Eq, Structural)]
pub enum DiagKind {
    /// A place is read after its value was moved away.
    UseAfterMove,
    /// A place is used before it was given a value.
    UninitializedUse,
    /// A value is moved out of a place that it has already left.
    DoubleMove,
    /// Two borrows of overlapping storage are live at once and one of them
    /// is exclusive, or storage is changed directly while a borrow of it is
    /// live.
    ConflictingBorrow,
    /// A reference is taken to a place that does not hold a value.
    BorrowOfInvalidValue,
    /// A reference is live where the storage it points into is not.
    DanglingReference,
    /// The regions at a call cannot meet the constraints that the callee
    /// declares, or a function returns a reference that its own signature
    /// keeps back.
    LifetimeMismatch,
    /// A loop may enter an iteration with a binding moved away by an earlier
    /// one.
    PossiblyMovedInLoop,
    /// The function is malformed and was not analysed.
    StructuralError,
}

/// How serious a diagnostic is, from least to most.
#[derive(Debug, Clone, Copy, PartialEq, Eq, Structural)]
pub enum Severity {
    Warning,
    Error,
    Fatal,
}

impl Severity {
    /// Rank of the severity: 0 for a warning, 1 for an error, 2 for fatal.
    pub open spec fn level(self) -> int {
        match self {
            Severity::Warning => 0,
            Severity::Error => 1,
            Severity::Fatal => 2,
        }
    }

    /// Whether `self` is at least as serious as `other`.
    pub fn at_least(self, other: Severity) -> (r: bool)
        ensures
            r == (self.level() >= other.level()),
    {
        match other {
            Severity::Warning => true,
            Severity::Error => !(self == Severity::Warning),
            Severity::Fatal => self == Severity::Fatal,
        }
    }
}

impl DiagKind {
    /// The severity of diagnostics of this kind: loop warnings are warnings,
    /// structural errors are fatal, everything else is an error.
    pub open spec fn severity_spec(self) -> Severity {
        match self {
            DiagKind::PossiblyMovedInLoop => Severity::Warning,
            DiagKind::StructuralError => Severity::Fatal,
            _ => Severity::Error,
        }
    }

    /// The severity of diagnostics of this kind.
    pub fn severity(self) -> (s: Severity)
        ensures
            s == self.severity_spec(),
    {
        match self {
            DiagKind::PossiblyMovedInLoop => Severity::Warning,
            DiagKind::StructuralError => Severity::Fatal,
            _ => Severity::Error,
        }
    }
}

/// What a pass found at a program point of the function it analysed.
#[derive(Debug, Clone, Copy, PartialEq, Eq, Structural)]
pub struct Finding {
    pub kind: DiagKind,
    /// The point the finding is about.
    pub point: usize,
    /// The entry of the binding table the finding is about.
    pub place: usize,
    /// Another point that takes part, such as the creation of the borrow
    /// that a new borrow conflicts with.
    pub related: Option<usize>,
}

} // verus!
