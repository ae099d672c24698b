//! Three-valued logic. `Unknown` means "the lookup failed, so we cannot tell".
//!
//! Collapsing to `bool` would hide the failure policy inside the guard node.
//! Keeping three values puts the policy on [`super::Edge::unknown`], where the
//! diagram shows it.

use vstd::prelude::*;
use vstd::std_specs::convert::FromSpecImpl;

verus! {

/// The result of evaluating a guard.
#[derive(Copy, Clone, PartialEq, Eq, Debug, Structural)]
pub enum Cond {
    True,
    False,
    /// Undecidable, e.g. because a lookup failed.
    Unknown,
}

/// The `Cond` a plain boolean stands for.
pub open spec fn cond_of(b: bool) -> Cond {
    if b {
        Cond::True
    } else {
        Cond::False
    }
}

/// Kleene conjunction: `False` wins over everything, `True` needs both sides.
pub open spec fn kleene_and(a: Cond, b: Cond) -> Cond {
    if a == Cond::False || b == Cond::False {
        Cond::False
    } else if a == Cond::True && b == Cond::True {
        Cond::True
    } else {
        Cond::Unknown
    }
}

/// Kleene disjunction: `True` wins over everything, `False` needs both sides.
pub open spec fn kleene_or(a: Cond, b: Cond) -> Cond {
    if a == Cond::True || b == Cond::True {
        Cond::True
    } else if a == Cond::False && b == Cond::False {
        Cond::False
    } else {
        Cond::Unknown
    }
}

/// Kleene negation: swaps `True` and `False`, keeps `Unknown`.
pub open spec fn kleene_not(a: Cond) -> Cond {
    match a {
        Cond::True => Cond::False,
        Cond::False => Cond::True,
        Cond::Unknown => Cond::Unknown,
    }
}

impl From<bool> for Cond {
    fn from(b: bool) -> (r: Self) {
        if b {
            Cond::True
        } else {
            Cond::False
        }
    }
}

impl FromSpecImpl<bool> for Cond {
    open spec fn obeys_from_spec() -> bool {
        true
    }

    open spec fn from_spec(b: bool) -> Cond {
        cond_of(b)
    }
}

impl Cond {
    /// Kleene AND. A single `False` makes the whole result `False`, which is
    /// what makes combinations fail-safe.
    pub fn and(self, other: Self) -> (r: Self)
        ensures
            r == kleene_and(self, other),
    {
        match (self, other) {
            (Cond::False, _) | (_, Cond::False) => Cond::False,
            (Cond::True, Cond::True) => Cond::True,
            _ => Cond::Unknown,
        }
    }

    /// Kleene OR.
    pub fn or(self, other: Self) -> (r: Self)
        ensures
            r == kleene_or(self, other),
    {
        match (self, other) {
            (Cond::True, _) | (_, Cond::True) => Cond::True,
            (Cond::False, Cond::False) => Cond::False,
            _ => Cond::Unknown,
        }
    }

    /// Kleene NOT. The negation of `Unknown` is `Unknown`.
    pub fn not(self) -> (r: Self)
        ensures
            r == kleene_not(self),
    {
        match self {
            Cond::True => Cond::False,
            Cond::False => Cond::True,
            Cond::Unknown => Cond::Unknown,
        }
    }
}

/// On definite values the Kleene connectives agree with boolean logic.
pub proof fn lemma_kleene_extends_bool(a: bool, b: bool)
    ensures
        kleene_and(cond_of(a), cond_of(b)) == cond_of(a && b),
        kleene_or(cond_of(a), cond_of(b)) == cond_of(a || b),
        kleene_not(cond_of(a)) == cond_of(!a),
{
}

/// `False` absorbs conjunction and `True` absorbs disjunction, from either side.
pub proof fn lemma_kleene_dominance(a: Cond)
    ensures
        kleene_and(Cond::False, a) == Cond::False,
        kleene_and(a, Cond::False) == Cond::False,
        kleene_or(Cond::True, a) == Cond::True,
        kleene_or(a, Cond::True) == Cond::True,
        kleene_and(Cond::True, a) == a,
        kleene_or(Cond::False, a) == a,
{
}

/// Conjunction and disjunction are commutative and associative.
pub proof fn lemma_kleene_algebra(a: Cond, b: Cond, c: Cond)
    ensures
        kleene_and(a, b) == kleene_and(b, a),
        kleene_or(a, b) == kleene_or(b, a),
        kleene_and(kleene_and(a, b), c) == kleene_and(a, kleene_and(b, c)),
        kleene_or(kleene_or(a, b), c) == kleene_or(a, kleene_or(b, c)),
{
}

/// Negation is an involution, and De Morgan's laws hold.
pub proof fn lemma_kleene_de_morgan(a: Cond, b: Cond)
    ensures
        kleene_not(kleene_not(a)) == a,
        kleene_not(kleene_and(a, b)) == kleene_or(kleene_not(a), kleene_not(b)),
        kleene_not(kleene_or(a, b)) == kleene_and(kleene_not(a), kleene_not(b)),
{
}

} // verus!
