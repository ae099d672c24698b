//! One row of the transition table.

use vstd::prelude::*;

use crate::{slice_contains, ActionOf, KindOf, MachineSpec};

use super::node::Expr;

verus! {

/// The set of states an edge departs from: a state list, not a guard
/// condition.
#[verifier::reject_recursive_types(M)]
pub enum Source<M: MachineSpec> {
    These(&'static [M::Tag]),
    /// Every state except the listed ones.
    AnyExcept(&'static [M::Tag]),
    Any,
}

impl<M: MachineSpec> Source<M> {
    /// Whether `tag` is in this source's state set.
    pub open spec fn spec_matches(&self, tag: M::Tag) -> bool {
        match self {
            Source::These(list) => list@.contains(tag),
            Source::AnyExcept(list) => !list@.contains(tag),
            Source::Any => true,
        }
    }

    /// The concrete states of this source, in [`MachineSpec::all_tags`] order.
    pub open spec fn spec_expand(&self) -> Seq<M::Tag> {
        M::CHECKED_TAGS@.filter(|t: M::Tag| self.spec_matches(t))
    }

    /// Reports whether `tag` is in this source's state set.
    pub fn matches(&self, tag: M::Tag) -> (r: bool)
        ensures
            r == self.spec_matches(tag),
    {
        match self {
            Source::These(list) => slice_contains(list, &tag),
            Source::AnyExcept(list) => !slice_contains(list, &tag),
            Source::Any => true,
        }
    }

    /// Expands this source into its concrete list of states, for diagrams and
    /// coverage checking.
    pub fn expand(&self) -> (r: Vec<M::Tag>)
        ensures
            r@ == self.spec_expand(),
    {
        let all = M::all_tags();
        let ghost pred = |t: M::Tag| self.spec_matches(t);
        let mut out: Vec<M::Tag> = Vec::new();
        let mut i: usize = 0;
        while i < all.len()
            invariant
                all@ == M::CHECKED_TAGS@,
                pred == (|t: M::Tag| self.spec_matches(t)),
                i <= all@.len(),
                out@ == all@.take(i as int).filter(pred),
            decreases all@.len() - i,
        {
            if self.matches(all[i]) {
                out.push(all[i]);
            }
            proof {
                reveal_with_fuel(Seq::filter, 1);
                assert(all@.take(i + 1).drop_last() =~= all@.take(i as int));
                assert(pred(all@[i as int]) == self.spec_matches(all@[i as int]));
                assert(all@.take(i + 1).last() == all@[i as int]);
                assert(out@ == all@.take(i + 1).filter(pred));
            }
            i += 1;
        }
        proof {
            assert(all@.take(all@.len() as int) =~= all@);
        }
        out
    }
}

/// A tag is in the expansion of a source exactly when
/// [`MachineSpec::all_tags`] lists it and the source matches it; `AnyExcept`
/// matches exactly what `These` with the same list does not, and `Any`
/// matches everything.
pub proof fn lemma_source_sets<M: MachineSpec>(s: Source<M>, list: &'static [M::Tag], t: M::Tag)
    ensures
        s.spec_expand().contains(t) <==> (M::CHECKED_TAGS@.contains(t) && s.spec_matches(t)),
        Source::<M>::AnyExcept(list).spec_matches(t) == !Source::<M>::These(list).spec_matches(t),
        Source::<M>::Any.spec_matches(t),
{
    let pred = |x: M::Tag| s.spec_matches(x);
    if s.spec_expand().contains(t) {
        M::CHECKED_TAGS@.lemma_filter_contains_rev(pred, t);
        let k = choose|k: int| 0 <= k < s.spec_expand().len() && s.spec_expand()[k] == t;
        M::CHECKED_TAGS@.lemma_filter_pred(pred, k);
    }
    if M::CHECKED_TAGS@.contains(t) && s.spec_matches(t) {
        let idx = M::CHECKED_TAGS@.index_of(t);
        M::CHECKED_TAGS@.lemma_filter_contains(pred, idx);
    }
}

/// The target of a transition.
#[verifier::reject_recursive_types(M)]
pub enum Goto<M: MachineSpec> {
    To(M::Tag),
    /// Stay in the current state. Exit and entry actions do **not** run.
    Internal,
}

/// What to do when a guard evaluates to [`super::Cond::Unknown`].
#[derive(Copy, Clone, PartialEq, Eq, Debug, Structural)]
pub enum OnUnknown {
    /// Do not transition when undecidable (fail-closed).
    Deny,
    /// Transition when undecidable.
    Allow,
}

/// A single transition.
///
/// When several edges match the same `(state, event kind)`, **declaration
/// order is priority**.
#[verifier::reject_recursive_types(M)]
pub struct Edge<M: MachineSpec> {
    /// Stable identifier, for requirement tracing and golden diffs. It must
    /// survive reordering of the table.
    pub id: &'static str,
    pub from: Source<M>,
    pub when: KindOf<M>,
    pub check: &'static Expr<M::Domain>,
    pub unknown: OnUnknown,
    /// Actions run only by this transition, in declaration order.
    pub run: &'static [ActionOf<M>],
    pub goto: Goto<M>,
}

/// A `(state, event kind)` combination that is deliberately not handled.
///
/// Declaring these lets coverage checking tell a gap apart from an
/// intentional omission, so `why` is required.
#[verifier::reject_recursive_types(M)]
pub struct Ignore<M: MachineSpec> {
    pub from: Source<M>,
    pub when: &'static [KindOf<M>],
    /// Why this combination is intentionally unhandled.
    pub why: &'static str,
}

impl<M: MachineSpec> Ignore<M> {
    /// Whether this `Ignore` covers `(tag, kind)`.
    pub open spec fn spec_matches(&self, tag: M::Tag, kind: KindOf<M>) -> bool {
        self.from.spec_matches(tag) && self.when@.contains(kind)
    }

    /// Reports whether this `Ignore` covers `(tag, kind)`.
    pub fn matches(&self, tag: M::Tag, kind: KindOf<M>) -> (r: bool)
        ensures
            r == self.spec_matches(tag, kind),
    {
        self.from.matches(tag) && slice_contains(self.when, &kind)
    }
}

} // verus!
