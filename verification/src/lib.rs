//! A declarative controller framework.
//!
//! A controller declares what it reacts to and what it does about it as static
//! data. Execution, diagram generation and exhaustive gap checking are all
//! derived from that one declaration, so it is the only place the logic lives.
//!
//! | Module | For |
//! |---|---|
//! | [`feature`] | Controllers with no states: what each feature reacts to and emits |
//! | [`machine`] | Controllers with states: a transition table and its executor |
//! | [`render`] | Diagrams and gap reports derived from either declaration |
//!
//! [`Domain`] bundles the types a controller works with and is shared by both
//! layers, so a feature that grows states keeps the same declaration.

use vstd::prelude::*;

pub mod feature;
pub mod machine;
pub mod render;

verus! {

/// A type whose values can be enumerated, compared and named.
///
/// [`render::coverage`] walks `(state × event kind)` exhaustively, which needs
/// the full value list of both axes, and the diagrams need a name for each
/// value. Nothing verifies that `ALL` is complete; declare it right next to
/// the enum, with `NAMES` in the same order.
pub trait Enumerable: Copy + Sized + 'static {
    /// Every value of this type.
    const ALL: &'static [Self];

    /// `NAMES[i]` is the name drawn for `ALL[i]` (for a derived `Debug` enum,
    /// the variant name).
    const NAMES: &'static [&'static str];

    /// Whether `self` and `other` are the same value.
    fn same(&self, other: &Self) -> (r: bool)
        ensures
            r == (*self == *other);
}

/// The name of `x`: the entry of `names` at the first position of `x` in
/// `all`; empty when `x` has no position with a name.
pub open spec fn name_in<T>(all: Seq<T>, names: Seq<&'static str>, x: T) -> Seq<char>
    decreases all.len(),
{
    if all.len() == 0 || names.len() == 0 {
        Seq::empty()
    } else if all[0] == x {
        names[0]@
    } else {
        name_in(all.drop_first(), names.drop_first(), x)
    }
}

/// The name drawn for `x`.
pub open spec fn name_of<T: Enumerable>(x: T) -> Seq<char> {
    name_in(T::ALL@, T::NAMES@, x)
}

/// Returns the name drawn for `x`.
pub fn label<T: Enumerable>(x: &T) -> (r: String)
    ensures
        r@ == name_of(*x),
{
    let all = T::ALL;
    let names = T::NAMES;
    let mut i: usize = 0;
    proof {
        assert(all@.skip(0) =~= all@);
        assert(names@.skip(0) =~= names@);
    }
    while i < all.len() && i < names.len()
        invariant
            all@ == T::ALL@,
            names@ == T::NAMES@,
            i <= all@.len(),
            i <= names@.len(),
            name_of(*x) == name_in(all@.skip(i as int), names@.skip(i as int), *x),
        decreases all@.len() - i,
    {
        proof {
            assert(all@.skip(i as int)[0] == all@[i as int]);
            assert(names@.skip(i as int)[0] == names@[i as int]);
            assert(all@.skip(i as int).drop_first() =~= all@.skip(i + 1));
            assert(names@.skip(i as int).drop_first() =~= names@.skip(i + 1));
        }
        if all[i].same(x) {
            return names[i].to_owned();
        }
        i += 1;
    }
    String::new()
}

/// A type that can report its payload-free kind tag.
///
/// [`Domain::Event`] requires this, so the event-to-kind mapping exists in
/// exactly one place. Several event variants may share one kind.
pub trait HasKind {
    /// The payload-free kind tag that edges match on.
    type Kind: Enumerable;

    /// This event's kind, as a mathematical value.
    spec fn spec_kind(&self) -> Self::Kind;

    /// Reports this event's kind.
    fn kind(&self) -> (r: Self::Kind)
        ensures
            r == self.spec_kind();
}

/// The set of types one controller works with: events, actions, and the
/// outside world. Every other item in this crate is generic over it.
pub trait Domain: Sized + 'static {
    /// Event body, including payload.
    type Event: HasKind<Kind = Self::EventKind>;

    /// Payload-free event tag that edges match on.
    type EventKind: Enumerable;

    /// An effect a controller can produce. Enumerable so that diagrams can
    /// name it.
    type Action: Enumerable;

    /// The outside world this controller reads and changes.
    type Env: ?Sized;

    /// The event kinds that [`render::coverage`] checks: every kind unless
    /// overridden to check only a subset.
    const CHECKED_KINDS: &'static [Self::EventKind] = Self::EventKind::ALL;

    /// Whether carrying out `action` for `ev` turns the world `before` into
    /// `after`.
    spec fn perform_effect(
        action: Self::Action,
        ev: &Self::Event,
        before: &Self::Env,
        after: &Self::Env,
    ) -> bool;

    /// Carries out one action. The only place `Env` may be mutated: guards
    /// only ever see `&Env`.
    fn perform(action: Self::Action, ev: &Self::Event, world: &mut Self::Env)
        ensures
            Self::perform_effect(action, ev, &*old(world), &*final(world)),
    ;

    /// Every checked event kind, for [`render::coverage`].
    fn all_kinds() -> (r: &'static [Self::EventKind])
        ensures
            r@ == Self::CHECKED_KINDS@,
    {
        Self::CHECKED_KINDS
    }
}

/// One state machine's shape: which [`Domain`] it belongs to and what its
/// states are. Kept separate from `Domain` so a controller can declare
/// several machines sharing one domain, or none at all.
pub trait MachineSpec: Sized + 'static {
    /// The vocabulary this machine works in.
    type Domain: Domain;

    /// State identifier.
    type Tag: Enumerable;

    /// The states that [`render::coverage`] checks: every state unless
    /// overridden to check only a subset.
    const CHECKED_TAGS: &'static [Self::Tag] = Self::Tag::ALL;

    /// Every checked state, for [`render::coverage`].
    fn all_tags() -> (r: &'static [Self::Tag])
        ensures
            r@ == Self::CHECKED_TAGS@,
    {
        Self::CHECKED_TAGS
    }
}

/// The event type of `M`'s domain.
pub type EventOf<M> = <<M as MachineSpec>::Domain as Domain>::Event;

/// The event kind type of `M`'s domain.
pub type KindOf<M> = <<M as MachineSpec>::Domain as Domain>::EventKind;

/// The action type of `M`'s domain.
pub type ActionOf<M> = <<M as MachineSpec>::Domain as Domain>::Action;

/// The world type of `M`'s domain.
pub type EnvOf<M> = <<M as MachineSpec>::Domain as Domain>::Env;

/// Calls `<str as PartialEq>::eq`, which compares the two strings' contents;
/// the contract claims exactly that.
#[verifier::external_body]
pub(crate) fn str_eq(a: &str, b: &str) -> (r: bool)
    ensures
        r == (a@ == b@),
{
    a == b
}

/// Calls `<str as PartialOrd>::lt`, which orders strings byte by byte; for
/// UTF-8 that is the order of their characters, which `render::char_lt`
/// states.
#[verifier::external_body]
pub(crate) fn str_lt(a: &str, b: &str) -> (r: bool)
    ensures
        r == render::char_lt(a@, b@),
{
    a < b
}

/// Whether `x` occurs in `list`, compared with [`Enumerable::same`].
pub(crate) fn slice_contains<T: Enumerable>(list: &[T], x: &T) -> (r: bool)
    ensures
        r == list@.contains(*x),
{
    let mut i: usize = 0;
    while i < list.len()
        invariant
            i <= list@.len(),
            forall|j: int| 0 <= j < i ==> list@[j] != *x,
        decreases list@.len() - i,
    {
        if list[i].same(x) {
            return true;
        }
        i += 1;
    }
    false
}

/// Whether `x` occurs in `list`, compared with [`Enumerable::same`].
pub(crate) fn vec_contains<T: Enumerable>(list: &Vec<T>, x: &T) -> (r: bool)
    ensures
        r == list@.contains(*x),
{
    slice_contains(list.as_slice(), x)
}

} // verus!
