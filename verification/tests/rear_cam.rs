//! A reverse-camera controller that exercises every part of the machine layer.

use std::any::TypeId;
use std::collections::VecDeque;

use fsm::machine::{Cond, CondNode, Cx, Edge, Expr, Goto, Ignore, Machine, OnUnknown, Source, State};
use fsm::{render, Domain, Enumerable, HasKind, MachineSpec};

// ─────────────────────────────────────────── domain

#[derive(Copy, Clone, PartialEq, Eq, Debug)]
enum Tag {
    Off,
    Showing,
}

impl Enumerable for Tag {
    const ALL: &'static [Self] = &[Tag::Off, Tag::Showing];
    const NAMES: &'static [&'static str] = &["Off", "Showing"];

    fn same(&self, other: &Self) -> bool {
        self == other
    }
}

#[derive(Clone, Debug)]
enum Event {
    GearChanged(Gear),
    SpeedChanged,
    PowerChanged,
}

#[derive(Copy, Clone, PartialEq, Eq, Debug)]
enum Kind {
    GearChanged,
    SpeedChanged,
    PowerChanged,
}

impl Enumerable for Kind {
    const ALL: &'static [Self] = &[Kind::GearChanged, Kind::SpeedChanged, Kind::PowerChanged];
    const NAMES: &'static [&'static str] = &["GearChanged", "SpeedChanged", "PowerChanged"];

    fn same(&self, other: &Self) -> bool {
        self == other
    }
}

impl HasKind for Event {
    type Kind = Kind;

    fn kind(&self) -> Kind {
        match self {
            Event::GearChanged(_) => Kind::GearChanged,
            Event::SpeedChanged => Kind::SpeedChanged,
            Event::PowerChanged => Kind::PowerChanged,
        }
    }

    fn spec_kind(&self) -> Kind {
        self.kind()
    }
}

#[derive(Copy, Clone, PartialEq, Eq, Debug)]
enum Gear {
    Reverse,
    Drive,
}

#[derive(Copy, Clone, PartialEq, Eq, Debug)]
enum Action {
    ShowCamera,
    HideCamera,
    UpdateOverlay,
}

impl Enumerable for Action {
    const ALL: &'static [Self] = &[Action::ShowCamera, Action::HideCamera, Action::UpdateOverlay];
    const NAMES: &'static [&'static str] = &["ShowCamera", "HideCamera", "UpdateOverlay"];

    fn same(&self, other: &Self) -> bool {
        self == other
    }
}

#[derive(Default)]
struct Env {
    /// `None` models a failed lookup, which yields `Cond::Unknown`.
    speed: Option<f32>,
    camera_visible: bool,
    performed: Vec<Action>,
    /// The event kind each action was performed for.
    performed_for: Vec<Kind>,
}

struct RearCam;

impl Domain for RearCam {
    type Event = Event;
    type EventKind = Kind;
    type Action = Action;
    type Env = Env;

    fn perform_effect(action: Action, ev: &Event, before: &Env, after: &Env) -> bool {
        let mut performed = before.performed.clone();
        performed.push(action);
        let mut performed_for = before.performed_for.clone();
        performed_for.push(ev.kind());
        let camera_visible = match action {
            Action::ShowCamera => true,
            Action::HideCamera => false,
            Action::UpdateOverlay => before.camera_visible,
        };
        after.speed == before.speed
            && after.camera_visible == camera_visible
            && after.performed == performed
            && after.performed_for == performed_for
    }

    fn perform(action: Action, ev: &Event, world: &mut Env) {
        world.performed.push(action);
        world.performed_for.push(ev.kind());
        match action {
            Action::ShowCamera => world.camera_visible = true,
            Action::HideCamera => world.camera_visible = false,
            Action::UpdateOverlay => {}
        }
    }
}

impl MachineSpec for RearCam {
    type Domain = RearCam;
    type Tag = Tag;
}

// ─────────────────────────────────────────── guards

/// A payload guard: pure, and can never be Unknown.
struct GearIsReverse;

impl CondNode<RearCam> for GearIsReverse {
    fn spec_name(&self) -> &'static str {
        "GearIsReverse"
    }

    fn name(&self) -> &'static str {
        "GearIsReverse"
    }

    fn spec_eval(&self, event: &Event, world: &Env) -> Cond {
        self.eval(&Cx::new(event, world))
    }

    fn spec_type(&self) -> TypeId {
        TypeId::of::<Self>()
    }

    fn node_type(&self) -> TypeId {
        TypeId::of::<Self>()
    }

    fn eval(&self, cx: &Cx<'_, RearCam>) -> Cond {
        match cx.event {
            Event::GearChanged(g) => Cond::from(*g == Gear::Reverse),
            _ => Cond::False,
        }
    }
}

/// A context guard: Unknown when the lookup fails.
struct SpeedBelowLimit;

impl CondNode<RearCam> for SpeedBelowLimit {
    fn spec_name(&self) -> &'static str {
        "SpeedBelowLimit"
    }

    fn name(&self) -> &'static str {
        "SpeedBelowLimit"
    }

    fn spec_eval(&self, event: &Event, world: &Env) -> Cond {
        self.eval(&Cx::new(event, world))
    }

    fn spec_type(&self) -> TypeId {
        TypeId::of::<Self>()
    }

    fn node_type(&self) -> TypeId {
        TypeId::of::<Self>()
    }

    fn eval(&self, cx: &Cx<'_, RearCam>) -> Cond {
        match cx.world.speed {
            Some(v) => Cond::from(v < 15.0),
            None => Cond::Unknown,
        }
    }
}

// ─────────────────────────────────────────── tables

static STATES: &[State<RearCam>] = &[
    State {
        tag: Tag::Off,
        entry: &[],
        exit: &[],
    },
    State {
        tag: Tag::Showing,
        entry: &[Action::ShowCamera],
        exit: &[Action::HideCamera],
    },
];

static EDGES: &[Edge<RearCam>] = &[
    Edge {
        id: "CAM_ON",
        from: Source::These(&[Tag::Off]),
        when: Kind::GearChanged,
        check: &Expr::And(&Expr::Node(&GearIsReverse), &Expr::Node(&SpeedBelowLimit)),
        unknown: OnUnknown::Deny, // unknown speed: do not turn it on
        run: &[],
        goto: Goto::To(Tag::Showing),
    },
    Edge {
        id: "CAM_OFF_GEAR",
        from: Source::These(&[Tag::Showing]),
        when: Kind::GearChanged,
        check: &Expr::Not(&Expr::Node(&GearIsReverse)),
        unknown: OnUnknown::Deny,
        run: &[],
        goto: Goto::To(Tag::Off),
    },
    Edge {
        id: "CAM_OFF_SPEED",
        from: Source::These(&[Tag::Showing]),
        when: Kind::SpeedChanged,
        check: &Expr::Not(&Expr::Node(&SpeedBelowLimit)),
        unknown: OnUnknown::Allow, // unknown speed: turn it off
        run: &[],
        goto: Goto::To(Tag::Off),
    },
    Edge {
        id: "CAM_OVERLAY",
        from: Source::These(&[Tag::Showing]),
        when: Kind::SpeedChanged,
        check: &Expr::Node(&SpeedBelowLimit),
        unknown: OnUnknown::Deny,
        run: &[Action::UpdateOverlay],
        goto: Goto::Internal, // stays in state, so exit/enter do not run
    },
];

static IGNORES: &[Ignore<RearCam>] = &[
    Ignore {
        from: Source::These(&[Tag::Off]),
        when: &[Kind::SpeedChanged],
        why: "speed is irrelevant while the camera is not shown",
    },
    Ignore {
        from: Source::Any,
        when: &[Kind::PowerChanged],
        why: "power is handled by the parent controller",
    },
];

fn machine() -> Machine<RearCam> {
    assert!(Machine::<RearCam>::check_tables(Tag::Off, STATES, EDGES));
    assert!(render::coverage::<RearCam>(Tag::Off, EDGES, IGNORES).is_clean());
    Machine::new(Tag::Off, STATES, EDGES, IGNORES)
}

fn showing() -> (Machine<RearCam>, Env) {
    let mut m = machine();
    let mut w = Env {
        speed: Some(10.0),
        ..Default::default()
    };
    m.dispatch(&Event::GearChanged(Gear::Reverse), &mut w);
    assert_eq!(m.tag(), Tag::Showing);
    w.performed.clear();
    w.performed_for.clear();
    (m, w)
}

// ─────────────────────────────────────────── tests

#[test]
fn enters_showing_and_runs_entry_action() {
    let mut m = machine();
    let mut w = Env {
        speed: Some(10.0),
        ..Default::default()
    };

    let taken = m
        .dispatch(&Event::GearChanged(Gear::Reverse), &mut w)
        .unwrap();

    assert_eq!(taken.edge, "CAM_ON");
    assert_eq!(taken.actions, vec![Action::ShowCamera]);
    assert_eq!(m.tag(), Tag::Showing);
    assert_eq!(w.performed, vec![Action::ShowCamera]);
    assert!(w.camera_visible);
}

#[test]
fn exit_action_runs_on_leaving() {
    let (mut m, mut w) = showing();

    m.dispatch(&Event::GearChanged(Gear::Drive), &mut w);

    assert_eq!(m.tag(), Tag::Off);
    assert_eq!(w.performed, vec![Action::HideCamera]);
    assert!(!w.camera_visible);
}

#[test]
fn exit_and_entry_actions_run_in_order_across_a_round_trip() {
    let mut m = machine();
    let mut w = Env {
        speed: Some(10.0),
        ..Default::default()
    };

    m.dispatch(&Event::GearChanged(Gear::Reverse), &mut w);
    m.dispatch(&Event::GearChanged(Gear::Drive), &mut w);

    assert_eq!(m.tag(), Tag::Off);
    assert_eq!(w.performed, vec![Action::ShowCamera, Action::HideCamera]);
    assert!(!w.camera_visible);
}

#[test]
fn internal_transition_skips_exit_and_entry() {
    let (mut m, mut w) = showing();

    let taken = m.dispatch(&Event::SpeedChanged, &mut w).unwrap();

    assert_eq!(taken.edge, "CAM_OVERLAY");
    assert_eq!(m.tag(), Tag::Showing);
    // Neither HideCamera nor ShowCamera slips in.
    assert_eq!(w.performed, vec![Action::UpdateOverlay]);
}

#[test]
fn unknown_denies_transition_when_policy_is_deny() {
    let mut m = machine();
    let mut w = Env {
        speed: None, // failed lookup -> SpeedBelowLimit = Unknown
        ..Default::default()
    };

    assert!(
        m.dispatch(&Event::GearChanged(Gear::Reverse), &mut w)
            .is_none()
    );
    assert_eq!(m.tag(), Tag::Off);
    assert!(w.performed.is_empty());
}

#[test]
fn unknown_allows_transition_when_policy_is_allow() {
    let (mut m, mut w) = showing();

    w.speed = None; // !SpeedBelowLimit = Unknown, and the policy is Allow
    let taken = m.dispatch(&Event::SpeedChanged, &mut w).unwrap();

    assert_eq!(taken.edge, "CAM_OFF_SPEED");
    assert_eq!(m.tag(), Tag::Off);
}

#[test]
fn declaration_order_is_priority() {
    // Both CAM_OFF_SPEED and CAM_OVERLAY match (Showing, SpeedChanged). Their
    // guards are mutually exclusive, so there is no real conflict; this pins
    // down that declaration order decides.
    let (mut m, mut w) = showing();

    w.speed = Some(20.0); // !SpeedBelowLimit = True -> the earlier CAM_OFF_SPEED
    assert_eq!(
        m.dispatch(&Event::SpeedChanged, &mut w).unwrap().edge,
        "CAM_OFF_SPEED"
    );
}

#[test]
fn declared_ignore_is_not_a_hole() {
    let mut m = machine();
    let mut w = Env::default();

    assert!(m.dispatch(&Event::PowerChanged, &mut w).is_none());
    assert_eq!(m.tag(), Tag::Off);
}

#[test]
fn coverage_has_no_holes_and_no_unreachable_state() {
    let c = render::coverage::<RearCam>(Tag::Off, EDGES, IGNORES);

    assert!(c.holes.is_empty(), "holes: {:?}", c.holes);
    assert!(c.unreachable.is_empty(), "unreachable: {:?}", c.unreachable);
    assert!(c.is_clean());

    // Overlaps are reported even when the guards are mutually exclusive.
    assert_eq!(c.overlaps.len(), 1);
    assert_eq!(c.overlaps[0].2, vec!["CAM_OFF_SPEED", "CAM_OVERLAY"]);
}

#[test]
fn mermaid_matches_golden() {
    let expected = "\
stateDiagram-v2
    [*] --> Off
    Showing : Showing<br/>entry / ShowCamera<br/>exit / HideCamera
    Off --> Showing: GearChanged<br/>[GearIsReverse && SpeedBelowLimit]
    Showing --> Off: GearChanged<br/>[!GearIsReverse]
    Showing --> Off: SpeedChanged<br/>[!SpeedBelowLimit]<br/>unknown=Allow
";

    // No machine needed: the diagram comes from the static tables alone.
    assert_eq!(
        render::to_mermaid::<RearCam>(Tag::Off, EDGES, STATES),
        expected
    );
}

#[test]
fn internal_table_lists_state_preserving_edges() {
    let table = render::internal_table::<RearCam>(EDGES);

    assert!(table.contains("CAM_OVERLAY"), "{table}");
    assert!(table.contains("UpdateOverlay"), "{table}");
    // Edges that change state are not in this table.
    assert!(!table.contains("CAM_ON"), "{table}");
}

#[test]
fn caller_side_queue_processes_events_in_order() {
    let mut m = machine();
    let mut w = Env {
        speed: Some(10.0),
        ..Default::default()
    };

    // Machine owns no queue. Driving it from the caller exposes each Taken.
    let mut pending = VecDeque::from([Event::GearChanged(Gear::Reverse), Event::SpeedChanged]);
    let mut taken = Vec::new();
    while let Some(ev) = pending.pop_front() {
        if let Some(t) = m.dispatch(&ev, &mut w) {
            taken.push(t.edge);
        }
    }

    assert_eq!(taken, vec!["CAM_ON", "CAM_OVERLAY"]);
    assert_eq!(m.tag(), Tag::Showing);
    assert_eq!(w.performed, vec![Action::ShowCamera, Action::UpdateOverlay]);
}

#[test]
fn perform_sees_the_event_on_an_internal_transition() {
    let (mut m, mut w) = showing();

    // CAM_OVERLAY is Goto::Internal, so neither exit nor entry runs. Its
    // action can still read the event.
    let taken = m.dispatch(&Event::SpeedChanged, &mut w).unwrap();

    assert_eq!(taken.edge, "CAM_OVERLAY");
    assert_eq!(w.performed, vec![Action::UpdateOverlay]);
    assert_eq!(w.performed_for, vec![Kind::SpeedChanged]);
}

#[test]
fn perform_sees_the_event_for_entry_and_exit_actions() {
    let (mut m, mut w) = showing();

    // Exit actions are performed for the event that caused the transition.
    m.dispatch(&Event::GearChanged(Gear::Drive), &mut w);

    assert_eq!(w.performed, vec![Action::HideCamera]);
    assert_eq!(w.performed_for, vec![Kind::GearChanged]);
}

#[test]
fn ignore_table_lists_reasons() {
    let table = render::ignore_table::<RearCam>(IGNORES);

    assert!(table.contains("speed is irrelevant"), "{table}");
    assert!(table.contains("power is handled"), "{table}");
    // Source::Any is expanded into concrete states.
    assert!(table.contains("`Off` | `PowerChanged`"), "{table}");
    assert!(table.contains("`Showing` | `PowerChanged`"), "{table}");
}

#[test]
fn render_parenthesises_negated_subexpressions() {
    // Expr can be built by hand (the route for `||`), and then precedence must
    // survive rendering.
    static NEGATED_AND: Expr<RearCam> = Expr::Not(&Expr::And(
        &Expr::Node(&GearIsReverse),
        &Expr::Node(&SpeedBelowLimit),
    ));

    assert_eq!(NEGATED_AND.render(), "!(GearIsReverse && SpeedBelowLimit)");
    // A negated single node needs no parentheses.
    assert_eq!(
        Expr::<RearCam>::Not(&Expr::Node(&GearIsReverse)).render(),
        "!GearIsReverse"
    );
}

#[test]
fn macros_generate_exhaustive_lists() {
    assert_eq!(RearCam::all_tags(), &[Tag::Off, Tag::Showing]);
    assert_eq!(
        RearCam::all_kinds(),
        &[Kind::GearChanged, Kind::SpeedChanged, Kind::PowerChanged]
    );
    assert_eq!(Tag::ALL.len(), 2);
    assert_eq!(Kind::ALL.len(), 3);
}

#[test]
fn generated_kind_maps_payload_and_unit_variants() {
    // Payload-carrying and unit variants map under the same rule.
    assert_eq!(Event::GearChanged(Gear::Reverse).kind(), Kind::GearChanged);
    assert_eq!(Event::GearChanged(Gear::Drive).kind(), Kind::GearChanged);
    assert_eq!(Event::SpeedChanged.kind(), Kind::SpeedChanged);
    assert_eq!(Event::PowerChanged.kind(), Kind::PowerChanged);
}

#[test]
fn source_any_except_matches_all_but_listed() {
    let s = Source::<RearCam>::AnyExcept(&[Tag::Showing]);

    assert!(s.matches(Tag::Off));
    assert!(!s.matches(Tag::Showing));
}

#[test]
fn source_any_matches_every_tag() {
    let s = Source::<RearCam>::Any;

    assert!(s.matches(Tag::Off));
    assert!(s.matches(Tag::Showing));
}

#[test]
fn ignore_any_except_matches_multiple_tags() {
    let ignore = Ignore::<RearCam> {
        from: Source::AnyExcept(&[Tag::Showing]),
        when: &[Kind::PowerChanged],
        why: "test",
    };

    assert!(ignore.matches(Tag::Off, Kind::PowerChanged));
    assert!(!ignore.matches(Tag::Showing, Kind::PowerChanged));
    assert!(!ignore.matches(Tag::Off, Kind::GearChanged));
}

// ─────────────────────────────────────────── further checks

#[test]
fn source_expand_follows_declaration_order() {
    assert_eq!(Source::<RearCam>::Any.expand(), vec![Tag::Off, Tag::Showing]);
    assert_eq!(Source::<RearCam>::These(&[Tag::Showing]).expand(), vec![Tag::Showing]);
    assert_eq!(Source::<RearCam>::AnyExcept(&[Tag::Off, Tag::Showing]).expand(), Vec::<Tag>::new());
}

#[test]
fn internal_table_matches_golden() {
    let expected = "\
| state | event | guard | actions | edge id |
|---|---|---|---|---|
| `Showing` | `SpeedChanged` | `SpeedBelowLimit` | UpdateOverlay | `CAM_OVERLAY` |
";
    assert_eq!(render::internal_table::<RearCam>(EDGES), expected);
}

#[test]
fn ignore_table_matches_golden() {
    let expected = "\
| state | event | reason |
|---|---|---|
| `Off` | `SpeedChanged` | speed is irrelevant while the camera is not shown |
| `Off` | `PowerChanged` | power is handled by the parent controller |
| `Showing` | `PowerChanged` | power is handled by the parent controller |
";
    assert_eq!(render::ignore_table::<RearCam>(IGNORES), expected);
}

#[test]
fn render_of_or_and_always() {
    assert_eq!(Expr::<RearCam>::Always.render(), "");
    assert_eq!(
        Expr::<RearCam>::Or(&Expr::Node(&GearIsReverse), &Expr::Node(&SpeedBelowLimit)).render(),
        "(GearIsReverse || SpeedBelowLimit)"
    );
}

static HOLEY_EDGES: &[Edge<RearCam>] = &[Edge {
    id: "ON",
    from: Source::Any,
    when: Kind::GearChanged,
    check: &Expr::Always,
    unknown: OnUnknown::Allow,
    run: &[Action::UpdateOverlay, Action::ShowCamera],
    goto: Goto::To(Tag::Off),
}];

#[test]
fn coverage_reports_holes_and_unreachable_states() {
    let c = render::coverage::<RearCam>(Tag::Off, HOLEY_EDGES, &[]);

    assert_eq!(
        c.holes,
        vec![
            ("Off".to_string(), "SpeedChanged".to_string()),
            ("Off".to_string(), "PowerChanged".to_string()),
            ("Showing".to_string(), "SpeedChanged".to_string()),
            ("Showing".to_string(), "PowerChanged".to_string()),
        ]
    );
    assert!(c.overlaps.is_empty());
    assert_eq!(c.unreachable, vec!["Showing".to_string()]);
    assert!(c.duplicate_node_names.is_empty());
    assert!(!c.is_clean());
}

#[test]
fn mermaid_draws_wildcards_policies_and_run_actions() {
    let expected = "\
stateDiagram-v2
    [*] --> Showing
    Showing : Showing<br/>entry / ShowCamera<br/>exit / HideCamera
    Off --> Off: GearChanged<br/>unknown=Allow<br/>/ UpdateOverlay, ShowCamera
    Showing --> Off: GearChanged<br/>unknown=Allow<br/>/ UpdateOverlay, ShowCamera
";
    assert_eq!(render::to_mermaid::<RearCam>(Tag::Showing, HOLEY_EDGES, STATES), expected);
}

static MISSING_STATE: &[State<RearCam>] = &[State {
    tag: Tag::Off,
    entry: &[],
    exit: &[],
}];

#[test]
fn check_tables_rejects_a_missing_state_entry() {
    assert!(Machine::<RearCam>::check_tables(Tag::Off, STATES, EDGES));
    assert!(!Machine::<RearCam>::check_tables(Tag::Off, MISSING_STATE, &[]));
    assert!(!Machine::<RearCam>::check_tables(Tag::Showing, MISSING_STATE, &[]));
}

#[test]
fn unmatched_event_changes_nothing() {
    let (mut m, mut w) = showing();

    assert!(m.dispatch(&Event::PowerChanged, &mut w).is_none());
    assert_eq!(m.tag(), Tag::Showing);
    assert!(w.performed.is_empty());
}

#[test]
fn taken_clones_and_compares_by_edge_and_actions() {
    let mut m = machine();
    let mut w = Env {
        speed: Some(10.0),
        ..Default::default()
    };

    let taken = m
        .dispatch(&Event::GearChanged(Gear::Reverse), &mut w)
        .unwrap();
    let copy = taken.clone();

    assert!(copy == taken);
    assert_eq!(copy.actions, vec![Action::ShowCamera]);
    let back = m.dispatch(&Event::GearChanged(Gear::Drive), &mut w).unwrap();
    assert!(back != taken);
}

#[test]
fn select_reports_the_first_admitted_edge() {
    let (m, w) = showing();
    let mut memo = fsm::machine::Memo::new();

    assert_eq!(m.select(&Event::SpeedChanged, &w, Kind::SpeedChanged, &mut memo), Some(3));
    let mut memo = fsm::machine::Memo::new();
    assert_eq!(m.select(&Event::PowerChanged, &w, Kind::PowerChanged, &mut memo), None);
}

#[test]
fn render_of_a_literal_chain() {
    static CHAIN: Expr<RearCam> = Expr::And(
        &Expr::Not(&Expr::Node(&GearIsReverse)),
        &Expr::And(
            &Expr::Node(&SpeedBelowLimit),
            &Expr::Not(&Expr::Node(&SpeedBelowLimit)),
        ),
    );
    assert_eq!(CHAIN.render(), "!GearIsReverse && SpeedBelowLimit && !SpeedBelowLimit");
}

#[test]
fn is_ignored_follows_the_current_state() {
    let m = machine();
    assert!(m.is_ignored(Kind::SpeedChanged));
    assert!(m.is_ignored(Kind::PowerChanged));
    assert!(!m.is_ignored(Kind::GearChanged));

    let (m, _w) = showing();
    assert!(!m.is_ignored(Kind::SpeedChanged));
    assert!(m.is_ignored(Kind::PowerChanged));
}

#[test]
fn tag_follows_the_last_edge_that_changes_state() {
    let mut m = machine();
    let mut w = Env {
        speed: Some(10.0),
        ..Default::default()
    };
    assert_eq!(m.dispatch(&Event::GearChanged(Gear::Reverse), &mut w).unwrap().edge, "CAM_ON");
    assert_eq!(m.dispatch(&Event::SpeedChanged, &mut w).unwrap().edge, "CAM_OVERLAY");
    assert!(m.dispatch(&Event::PowerChanged, &mut w).is_none());
    assert_eq!(m.tag(), Tag::Showing);
    assert_eq!(m.dispatch(&Event::GearChanged(Gear::Drive), &mut w).unwrap().edge, "CAM_OFF_GEAR");
    assert_eq!(m.tag(), Tag::Off);
}
