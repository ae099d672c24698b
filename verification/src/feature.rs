//! The stateless layer: one feature of a controller, declaring what it reacts
//! to and what it does about it.
//!
//! A controller whose behaviour does not depend on history needs no transition
//! table, but it still benefits from having its inputs and effects written
//! down as data. [`Feature::INFO`] is that declaration.
//!
//! The declaration is load-bearing rather than descriptive: [`dispatch`] only
//! calls a feature for the kinds it lists, so a handler that reacts to
//! something it did not declare never runs at all.

use vstd::prelude::*;

use crate::{slice_contains, Domain, Enumerable, HasKind};

verus! {

/// What a feature reacts to and what it emits.
///
/// Held as a value rather than as separate associated constants so that
/// features can be listed together.
#[verifier::reject_recursive_types(D)]
pub struct FeatureInfo<D: Domain> {
    pub name: &'static str,
    pub handles: &'static [D::EventKind],
    pub emits: &'static [D::Action],
}

/// One feature of a controller.
pub trait Feature<D: Domain> {
    /// What this feature reacts to and emits.
    const INFO: FeatureInfo<D>;

    /// Whether [`Feature::handle`], called on the feature `before` with `ev`,
    /// `world` and the actions `out_before`, leaves the feature as `after` and
    /// the actions as `out_after`.
    spec fn handle_effect(
        before: &Self,
        ev: &D::Event,
        world: &D::Env,
        out_before: &Vec<D::Action>,
        after: &Self,
        out_after: &Vec<D::Action>,
    ) -> bool;

    /// Reacts to `ev`, pushing effects onto `out` rather than carrying them
    /// out, and only effects that [`Feature::INFO`] declares.
    ///
    /// Deferring the effects keeps [`Domain::perform`] the single place the
    /// world is touched.
    fn handle(&mut self, ev: &D::Event, world: &D::Env, out: &mut Vec<D::Action>)
        ensures
            Self::handle_effect(old(self), ev, world, old(out), final(self), final(out)),
            old(out)@.len() <= final(out)@.len(),
            final(out)@.take(old(out)@.len() as int) == old(out)@,
            forall|k: int|
                old(out)@.len() <= k < final(out)@.len() ==> Self::INFO.emits@.contains(
                    #[trigger] final(out)@[k],
                ),
    ;
}

/// Runs `f` if it declared this event's kind.
///
/// Filtering here is what keeps [`FeatureInfo::handles`] honest: a kind left
/// out of the declaration never reaches the handler, so the omission shows up
/// as missing behaviour rather than as stale documentation. For an undeclared
/// kind `f` and `out` are left as they were; for a declared one they are as
/// [`Feature::handle`] leaves them, and whatever it appends is among
/// [`FeatureInfo::emits`].
pub fn dispatch<D: Domain, F: Feature<D>>(
    f: &mut F,
    ev: &D::Event,
    world: &D::Env,
    out: &mut Vec<D::Action>,
)
    ensures
        !F::INFO.handles@.contains(ev.spec_kind()) ==> final(out)@ == old(out)@ && *final(f)
            == *old(f),
        F::INFO.handles@.contains(ev.spec_kind()) ==> F::handle_effect(
            old(f),
            ev,
            world,
            old(out),
            final(f),
            final(out),
        ),
        old(out)@.len() <= final(out)@.len(),
        final(out)@.take(old(out)@.len() as int) == old(out)@,
        forall|k: int|
            old(out)@.len() <= k < final(out)@.len() ==> F::INFO.emits@.contains(
                #[trigger] final(out)@[k],
            ),
{
    let info = F::INFO;
    if !slice_contains(info.handles, &ev.kind()) {
        proof {
            assert(out@.take(out@.len() as int) =~= out@);
        }
        return;
    }
    f.handle(ev, world, out);
}

/// Whether some feature in `features` lists `kind`.
pub open spec fn handled_by<D: Domain>(features: Seq<FeatureInfo<D>>, kind: D::EventKind) -> bool {
    exists|i: int| 0 <= i < features.len() && (#[trigger] features[i]).handles@.contains(kind)
}

/// Whether some feature in `features` emits `action`.
pub open spec fn emitted_by<D: Domain>(features: Seq<FeatureInfo<D>>, action: D::Action) -> bool {
    exists|i: int| 0 <= i < features.len() && (#[trigger] features[i]).emits@.contains(action)
}

/// Event kinds no feature handles: the coverage holes of this layer, in
/// [`Domain::all_kinds`] order.
pub fn unhandled_kinds<D: Domain>(features: &[FeatureInfo<D>]) -> (r: Vec<D::EventKind>)
    ensures
        r@ == D::CHECKED_KINDS@.filter(|k: D::EventKind| !handled_by(features@, k)),
{
    let all = D::all_kinds();
    let ghost pred = |k: D::EventKind| !handled_by(features@, k);
    let mut out: Vec<D::EventKind> = Vec::new();
    let mut i: usize = 0;
    while i < all.len()
        invariant
            all@ == D::CHECKED_KINDS@,
            pred == (|k: D::EventKind| !handled_by(features@, k)),
            i <= all@.len(),
            out@ == all@.take(i as int).filter(pred),
        decreases all@.len() - i,
    {
        let k = all[i];
        let mut handled = false;
        let mut j: usize = 0;
        while j < features.len()
            invariant
                j <= features@.len(),
                handled == exists|x: int| 0 <= x < j && (#[trigger] features@[x]).handles@.contains(k),
            decreases features@.len() - j,
        {
            if slice_contains(features[j].handles, &k) {
                handled = true;
            }
            j += 1;
        }
        if !handled {
            out.push(k);
        }
        proof {
            reveal_with_fuel(Seq::filter, 1);
            assert(all@.take(i + 1).drop_last() =~= all@.take(i as int));
            assert(all@.take(i + 1).last() == k);
            assert(pred(k) == !handled);
            assert(out@ == all@.take(i + 1).filter(pred));
        }
        i += 1;
    }
    proof {
        assert(all@.take(all@.len() as int) =~= all@);
    }
    out
}

/// Actions no feature emits, which are dead unless the machine layer runs
/// them, in `ALL` order.
pub fn unemitted_actions<D: Domain>(features: &[FeatureInfo<D>]) -> (r: Vec<D::Action>) where
    D::Action: Enumerable,

    ensures
        r@ == <D::Action as Enumerable>::ALL@.filter(|a: D::Action| !emitted_by(features@, a)),
{
    let all = <D::Action as Enumerable>::ALL;
    let ghost pred = |a: D::Action| !emitted_by(features@, a);
    let mut out: Vec<D::Action> = Vec::new();
    let mut i: usize = 0;
    while i < all.len()
        invariant
            all@ == <D::Action as Enumerable>::ALL@,
            pred == (|a: D::Action| !emitted_by(features@, a)),
            i <= all@.len(),
            out@ == all@.take(i as int).filter(pred),
        decreases all@.len() - i,
    {
        let a = all[i];
        let mut emitted = false;
        let mut j: usize = 0;
        while j < features.len()
            invariant
                j <= features@.len(),
                emitted == exists|x: int| 0 <= x < j && (#[trigger] features@[x]).emits@.contains(a),
            decreases features@.len() - j,
        {
            if slice_contains(features[j].emits, &a) {
                emitted = true;
            }
            j += 1;
        }
        if !emitted {
            out.push(a);
        }
        proof {
            reveal_with_fuel(Seq::filter, 1);
            assert(all@.take(i + 1).drop_last() =~= all@.take(i as int));
            assert(all@.take(i + 1).last() == a);
            assert(pred(a) == !emitted);
            assert(out@ == all@.take(i + 1).filter(pred));
        }
        i += 1;
    }
    proof {
        assert(all@.take(all@.len() as int) =~= all@);
    }
    out
}

} // verus!
