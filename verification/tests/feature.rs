//! The stateless layer: mirror heating and dimming.

use fsm::feature::{self, Feature, FeatureInfo};
use fsm::{Domain, Enumerable, HasKind};

#[derive(Clone, Debug)]
enum Event {
    DefogChanged(bool),
    PowerChanged(bool),
    GearChanged(bool),
    UserChanged,
}

#[derive(Copy, Clone, PartialEq, Eq, Debug)]
enum Kind {
    DefogChanged,
    PowerChanged,
    GearChanged,
    UserChanged,
}

impl Enumerable for Kind {
    const ALL: &'static [Self] = &[
        Kind::DefogChanged,
        Kind::PowerChanged,
        Kind::GearChanged,
        Kind::UserChanged,
    ];
    const NAMES: &'static [&'static str] = &["DefogChanged", "PowerChanged", "GearChanged", "UserChanged"];

    fn same(&self, other: &Self) -> bool {
        self == other
    }
}

impl HasKind for Event {
    type Kind = Kind;
    fn kind(&self) -> Kind {
        match self {
            Event::DefogChanged(_) => Kind::DefogChanged,
            Event::PowerChanged(_) => Kind::PowerChanged,
            Event::GearChanged(_) => Kind::GearChanged,
            Event::UserChanged => Kind::UserChanged,
        }
    }

    fn spec_kind(&self) -> Kind {
        self.kind()
    }
}

#[derive(Copy, Clone, PartialEq, Eq, Debug)]
enum Action {
    HeatingOn,
    HeatingOff,
    DimmingOn,
    DimmingOff,
    Fold,
}

impl Enumerable for Action {
    const ALL: &'static [Self] = &[
        Action::HeatingOn,
        Action::HeatingOff,
        Action::DimmingOn,
        Action::DimmingOff,
        Action::Fold,
    ];
    const NAMES: &'static [&'static str] = &["HeatingOn", "HeatingOff", "DimmingOn", "DimmingOff", "Fold"];

    fn same(&self, other: &Self) -> bool {
        self == other
    }
}

#[derive(Default)]
struct World {
    power_on: bool,
    gear_reverse: bool,
}

struct Mirrors;

impl Domain for Mirrors {
    type Event = Event;
    type EventKind = Kind;
    type Action = Action;
    type Env = World;

    fn perform_effect(_action: Action, _ev: &Event, before: &World, after: &World) -> bool {
        before.power_on == after.power_on && before.gear_reverse == after.gear_reverse
    }

    fn perform(_action: Action, _ev: &Event, _world: &mut World) {}
}

#[derive(Default)]
struct Heating {
    calls: u32,
}

impl Feature<Mirrors> for Heating {
    const INFO: FeatureInfo<Mirrors> = FeatureInfo {
        name: "Heating",
        handles: &[Kind::DefogChanged],
        emits: &[Action::HeatingOn, Action::HeatingOff],
    };

    fn handle_effect(
        before: &Self,
        ev: &Event,
        _world: &World,
        out_before: &Vec<Action>,
        after: &Self,
        out_after: &Vec<Action>,
    ) -> bool {
        let mut expected = out_before.clone();
        if let Event::DefogChanged(on) = ev {
            expected.push(if *on {
                Action::HeatingOn
            } else {
                Action::HeatingOff
            });
        }
        after.calls == before.calls + 1 && *out_after == expected
    }

    fn handle(&mut self, ev: &Event, _world: &World, out: &mut Vec<Action>) {
        self.calls += 1;
        if let Event::DefogChanged(on) = ev {
            out.push(if *on {
                Action::HeatingOn
            } else {
                Action::HeatingOff
            });
        }
    }
}

#[derive(Default)]
struct Dimming;

impl Feature<Mirrors> for Dimming {
    const INFO: FeatureInfo<Mirrors> = FeatureInfo {
        name: "Dimming",
        handles: &[Kind::PowerChanged, Kind::GearChanged],
        emits: &[Action::DimmingOn, Action::DimmingOff],
    };

    fn handle_effect(
        _before: &Self,
        ev: &Event,
        world: &World,
        out_before: &Vec<Action>,
        _after: &Self,
        out_after: &Vec<Action>,
    ) -> bool {
        let mut expected = out_before.clone();
        let reading = match ev {
            Event::PowerChanged(on) => Some((*on, world.gear_reverse)),
            Event::GearChanged(rev) => Some((world.power_on, *rev)),
            _ => None,
        };
        if let Some((power, gear)) = reading {
            expected.push(if power && !gear {
                Action::DimmingOn
            } else {
                Action::DimmingOff
            });
        }
        *out_after == expected
    }

    fn handle(&mut self, ev: &Event, world: &World, out: &mut Vec<Action>) {
        let (power, gear) = match ev {
            Event::PowerChanged(on) => (*on, world.gear_reverse),
            Event::GearChanged(rev) => (world.power_on, *rev),
            _ => return,
        };
        out.push(if power && !gear {
            Action::DimmingOn
        } else {
            Action::DimmingOff
        });
    }
}

#[test]
fn dispatch_runs_a_feature_only_for_declared_kinds() {
    let mut heating = Heating::default();
    let world = World::default();
    let mut out = vec![Action::Fold];

    feature::dispatch(&mut heating, &Event::PowerChanged(true), &world, &mut out);
    assert_eq!(heating.calls, 0);
    assert_eq!(out, vec![Action::Fold]);

    feature::dispatch(&mut heating, &Event::DefogChanged(true), &world, &mut out);
    assert_eq!(heating.calls, 1);
    assert_eq!(out, vec![Action::Fold, Action::HeatingOn]);
}

#[test]
fn dispatch_reads_the_world() {
    let mut dimming = Dimming;
    let world = World {
        power_on: true,
        gear_reverse: false,
    };
    let mut out = Vec::new();

    feature::dispatch(&mut dimming, &Event::GearChanged(false), &world, &mut out);
    feature::dispatch(&mut dimming, &Event::PowerChanged(false), &world, &mut out);
    feature::dispatch(&mut dimming, &Event::UserChanged, &world, &mut out);

    assert_eq!(out, vec![Action::DimmingOn, Action::DimmingOff]);
}

const FEATURES: &[FeatureInfo<Mirrors>] = &[Heating::INFO, Dimming::INFO];

#[test]
fn unhandled_kinds_lists_what_no_feature_handles() {
    assert_eq!(feature::unhandled_kinds::<Mirrors>(FEATURES), vec![Kind::UserChanged]);
    assert_eq!(feature::unhandled_kinds::<Mirrors>(&[]), Kind::ALL.to_vec());
}

#[test]
fn unemitted_actions_lists_what_no_feature_emits() {
    assert_eq!(feature::unemitted_actions::<Mirrors>(FEATURES), vec![Action::Fold]);
    assert_eq!(
        feature::unemitted_actions::<Mirrors>(&[Heating::INFO]),
        vec![Action::DimmingOn, Action::DimmingOff, Action::Fold]
    );
}

#[test]
fn dispatch_of_a_declared_kind_has_the_handler_effect() {
    let before = Heating { calls: 2 };
    let mut heating = Heating { calls: 2 };
    let world = World::default();
    let out_before = vec![Action::Fold];
    let mut out = out_before.clone();
    let ev = Event::DefogChanged(false);

    feature::dispatch(&mut heating, &ev, &world, &mut out);
    assert!(Heating::handle_effect(&before, &ev, &world, &out_before, &heating, &out));
    assert_eq!(out, vec![Action::Fold, Action::HeatingOff]);

    let mut dimming = Dimming;
    let world = World {
        power_on: true,
        gear_reverse: true,
    };
    let out_before = Vec::new();
    let mut out = Vec::new();
    let ev = Event::PowerChanged(true);
    feature::dispatch(&mut dimming, &ev, &world, &mut out);
    assert!(Dimming::handle_effect(&Dimming, &ev, &world, &out_before, &dimming, &out));
    assert_eq!(out, vec![Action::DimmingOff]);
}
