//! The ownership lattice of a single place, and the effect a statement has
//! on it.

use vstd::prelude::*;

verus! {

/// Ownership state of one place at one program point.
///
/// The states form a chain, `Moved` below `Uninit` below `Live`: the lower a
/// state, the less a program may do with the place.
#[derive(Debug, Clone, Copy, PartialEq, Eq, Structural)]
pub enum PlaceState {
    Moved,
    Uninit,
    Live,
}

impl PlaceState {
    /// Height in the chain: 0 for `Moved`, 1 for `Uninit`, 2 for `Live`.
    pub open spec fn rank(self) -> int {
        match self {
            PlaceState::Moved => 0,
            PlaceState::Uninit => 1,
            PlaceState::Live => 2,
        }
    }

    /// `self` is at most as permissive as `other`.
    pub open spec fn leq(self, other: PlaceState) -> bool {
        self.rank() <= other.rank()
    }

    /// Greatest lower bound: the less permissive of the two.
    pub open spec fn meet_spec(self, other: PlaceState) -> PlaceState {
        if self.rank() <= other.rank() {
            self
        } else {
            other
        }
    }

    /// Whether `self` is at most as permissive as `other`.
    pub fn at_most(self, other: PlaceState) -> (b: bool)
        ensures
            b == self.leq(other),
    {
        match self {
            PlaceState::Moved => true,
            PlaceState::Uninit => !(other == PlaceState::Moved),
            PlaceState::Live => other == PlaceState::Live,
        }
    }

    /// The state after control flow joins two paths: a place is only as
    /// usable as on the worse of them.
    pub fn meet(self, other: PlaceState) -> (m: PlaceState)
        ensures
            m == self.meet_spec(other),
    {
        if self.at_most(other) {
            self
        } else {
            other
        }
    }
}

/// What executing one statement does to one place.
#[derive(Debug, Clone, Copy, PartialEq, Eq, Structural)]
pub enum Effect {
    /// The statement leaves the place as it was.
    Keep,
    /// The statement puts the place into the given state.
    Becomes(PlaceState),
}

impl Effect {
    /// State of the place after the statement, given its state before.
    pub open spec fn apply_spec(self, before: PlaceState) -> PlaceState {
        match self {
            Effect::Keep => before,
            Effect::Becomes(s) => s,
        }
    }

    /// State of the place after the statement, given its state before.
    pub fn apply(self, before: PlaceState) -> (after: PlaceState)
        ensures
            after == self.apply_spec(before),
    {
        match self {
            Effect::Keep => before,
            Effect::Becomes(s) => s,
        }
    }
}

/// The meet is the greatest lower bound of its arguments.
pub proof fn lemma_meet_is_glb(a: PlaceState, b: PlaceState, c: PlaceState)
    ensures
        a.meet_spec(b).leq(a),
        a.meet_spec(b).leq(b),
        c.leq(a) && c.leq(b) ==> c.leq(a.meet_spec(b)),
        a.meet_spec(b) == b.meet_spec(a),
        a.meet_spec(a) == a,
        a.meet_spec(b).meet_spec(c) == a.meet_spec(b.meet_spec(c)),
{
}

/// Once a place is `Moved` on one incoming path it is `Moved` after the join.
pub proof fn lemma_moved_absorbs(a: PlaceState)
    ensures
        a.meet_spec(PlaceState::Moved) == PlaceState::Moved,
        PlaceState::Moved.meet_spec(a) == PlaceState::Moved,
        a.meet_spec(PlaceState::Live) == a,
{
}

/// Effects are monotone: a more permissive state before gives a state at
/// least as permissive after.
pub proof fn lemma_effect_monotone(e: Effect, a: PlaceState, b: PlaceState)
    requires
        a.leq(b),
    ensures
        e.apply_spec(a).leq(e.apply_spec(b)),
{
}

} // verus!
