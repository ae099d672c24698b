//! Guard evaluation: the per-dispatch memo and name-uniqueness checking.

use std::any::TypeId;
use std::cell::Cell;

use fsm::machine::{Cond, CondNode, Cx, Edge, Expr, Goto, Ignore, Memo, Machine, OnUnknown, Source, State};
use fsm::{render, Domain, Enumerable, HasKind, MachineSpec};

#[derive(Copy, Clone, PartialEq, Eq, Debug)]
enum Tag {
    Idle,
    Busy,
}

impl Enumerable for Tag {
    const ALL: &'static [Self] = &[Tag::Idle, Tag::Busy];
    const NAMES: &'static [&'static str] = &["Idle", "Busy"];

    fn same(&self, other: &Self) -> bool {
        self == other
    }
}

#[derive(Copy, Clone, PartialEq, Eq, Debug)]
enum Kind {
    Poke,
}

impl Enumerable for Kind {
    const ALL: &'static [Self] = &[Kind::Poke];
    const NAMES: &'static [&'static str] = &["Poke"];

    fn same(&self, other: &Self) -> bool {
        self == other
    }
}

struct Poke;

impl HasKind for Poke {
    type Kind = Kind;
    fn kind(&self) -> Kind {
        Kind::Poke
    }

    fn spec_kind(&self) -> Kind {
        self.kind()
    }
}

#[derive(Copy, Clone, PartialEq, Eq, Debug)]
enum Action {
    Note,
}

impl Enumerable for Action {
    const ALL: &'static [Self] = &[Action::Note];
    const NAMES: &'static [&'static str] = &["Note"];

    fn same(&self, other: &Self) -> bool {
        self == other
    }
}

/// Counts guard evaluations and serves a sequence of answers, so that a node
/// evaluated twice would see a different world the second time.
#[derive(Default)]
struct World {
    evaluations: Cell<u32>,
}

struct Counter;

impl Domain for Counter {
    type Event = Poke;
    type EventKind = Kind;
    type Action = Action;
    type Env = World;

    fn perform_effect(_action: Action, _ev: &Poke, before: &World, after: &World) -> bool {
        before.evaluations.get() == after.evaluations.get()
    }

    fn perform(_action: Action, _ev: &Poke, _world: &mut World) {}
}

impl MachineSpec for Counter {
    type Domain = Counter;
    type Tag = Tag;
}

/// True on its first evaluation, false afterwards.
struct FirstTime;

impl CondNode<Counter> for FirstTime {
    fn spec_name(&self) -> &'static str {
        "FirstTime"
    }

    fn name(&self) -> &'static str {
        "FirstTime"
    }

    fn spec_eval(&self, _event: &Poke, world: &World) -> Cond {
        Cond::from(world.evaluations.get() == 0)
    }

    fn spec_type(&self) -> TypeId {
        TypeId::of::<Self>()
    }

    fn node_type(&self) -> TypeId {
        TypeId::of::<Self>()
    }

    fn eval(&self, cx: &Cx<'_, Counter>) -> Cond {
        let n = cx.world.evaluations.get();
        cx.world.evaluations.set(n + 1);
        Cond::from(n == 0)
    }
}

static STATES: &[State<Counter>] = &[
    State {
        tag: Tag::Idle,
        entry: &[],
        exit: &[],
    },
    State {
        tag: Tag::Busy,
        entry: &[],
        exit: &[],
    },
];

/// Two edges share a guard node; the first refuses because of the negation.
static EDGES: &[Edge<Counter>] = &[
    Edge {
        id: "NEVER",
        from: Source::These(&[Tag::Idle]),
        when: Kind::Poke,
        check: &Expr::Not(&Expr::Node(&FirstTime)),
        unknown: OnUnknown::Deny,
        run: &[],
        goto: Goto::To(Tag::Idle),
    },
    Edge {
        id: "START",
        from: Source::These(&[Tag::Idle]),
        when: Kind::Poke,
        check: &Expr::Node(&FirstTime),
        unknown: OnUnknown::Deny,
        run: &[Action::Note],
        goto: Goto::To(Tag::Busy),
    },
];

#[test]
fn a_node_is_evaluated_once_per_dispatch() {
    assert!(render::coverage::<Counter>(Tag::Idle, EDGES, BUSY_IGNORES).is_clean());
    let mut m = Machine::new(Tag::Idle, STATES, EDGES, BUSY_IGNORES);
    let mut w = World::default();

    let taken = m.dispatch(&Poke, &mut w).unwrap();

    // Both edges read FirstTime; the cached value keeps one world per event.
    assert_eq!(taken.edge, "START");
    assert_eq!(taken.actions, vec![Action::Note]);
    assert_eq!(w.evaluations.get(), 1);
    assert_eq!(m.tag(), Tag::Busy);
}

#[test]
fn eval_short_circuits_and_memoizes() {
    let w = World::default();
    let cx = Cx::<Counter>::new(&Poke, &w);
    let mut memo = Memo::new();

    // False && _ never evaluates the right side.
    let and = Expr::<Counter>::And(&Expr::Not(&Expr::Always), &Expr::Node(&FirstTime));
    assert_eq!(and.eval(&cx, &mut memo), Cond::False);
    assert_eq!(w.evaluations.get(), 0);

    assert_eq!(Expr::<Counter>::Node(&FirstTime).eval(&cx, &mut memo), Cond::True);
    // The second read comes from the memo, not from a second evaluation.
    assert_eq!(Expr::<Counter>::Node(&FirstTime).eval(&cx, &mut memo), Cond::True);
    assert_eq!(w.evaluations.get(), 1);

    let or = Expr::<Counter>::Or(&Expr::Always, &Expr::Not(&Expr::Node(&FirstTime)));
    assert_eq!(or.eval(&cx, &mut memo), Cond::True);
}

// Two node types per name, named in the table: both names must be reported,
// in sorted order.
struct ZedOne;
struct ZedTwo;
struct AlphaOne;
struct AlphaTwo;

impl CondNode<Counter> for ZedOne {
    fn spec_name(&self) -> &'static str {
        "Zed"
    }

    fn name(&self) -> &'static str {
        "Zed"
    }

    fn spec_eval(&self, event: &Poke, world: &World) -> Cond {
        self.eval(&Cx::new(event, world))
    }

    fn spec_type(&self) -> TypeId {
        TypeId::of::<Self>()
    }

    fn node_type(&self) -> TypeId {
        TypeId::of::<Self>()
    }

    fn eval(&self, _cx: &Cx<'_, Counter>) -> Cond {
        Cond::True
    }
}

impl CondNode<Counter> for ZedTwo {
    fn spec_name(&self) -> &'static str {
        "Zed"
    }

    fn name(&self) -> &'static str {
        "Zed"
    }

    fn spec_eval(&self, event: &Poke, world: &World) -> Cond {
        self.eval(&Cx::new(event, world))
    }

    fn spec_type(&self) -> TypeId {
        TypeId::of::<Self>()
    }

    fn node_type(&self) -> TypeId {
        TypeId::of::<Self>()
    }

    fn eval(&self, _cx: &Cx<'_, Counter>) -> Cond {
        Cond::True
    }
}

impl CondNode<Counter> for AlphaOne {
    fn spec_name(&self) -> &'static str {
        "Alpha"
    }

    fn name(&self) -> &'static str {
        "Alpha"
    }

    fn spec_eval(&self, event: &Poke, world: &World) -> Cond {
        self.eval(&Cx::new(event, world))
    }

    fn spec_type(&self) -> TypeId {
        TypeId::of::<Self>()
    }

    fn node_type(&self) -> TypeId {
        TypeId::of::<Self>()
    }

    fn eval(&self, _cx: &Cx<'_, Counter>) -> Cond {
        Cond::True
    }
}

impl CondNode<Counter> for AlphaTwo {
    fn spec_name(&self) -> &'static str {
        "Alpha"
    }

    fn name(&self) -> &'static str {
        "Alpha"
    }

    fn spec_eval(&self, event: &Poke, world: &World) -> Cond {
        self.eval(&Cx::new(event, world))
    }

    fn spec_type(&self) -> TypeId {
        TypeId::of::<Self>()
    }

    fn node_type(&self) -> TypeId {
        TypeId::of::<Self>()
    }

    fn eval(&self, _cx: &Cx<'_, Counter>) -> Cond {
        Cond::True
    }
}

static BUSY_IGNORES: &[Ignore<Counter>] = &[Ignore {
    from: Source::These(&[Tag::Busy]),
    when: &[Kind::Poke],
    why: "a busy counter takes no pokes",
}];

static CLASHING: &[Edge<Counter>] = &[
    Edge {
        id: "A",
        from: Source::Any,
        when: Kind::Poke,
        check: &Expr::And(&Expr::Node(&ZedOne), &Expr::Node(&AlphaOne)),
        unknown: OnUnknown::Deny,
        run: &[],
        goto: Goto::To(Tag::Busy),
    },
    Edge {
        id: "B",
        from: Source::Any,
        when: Kind::Poke,
        check: &Expr::Or(&Expr::Node(&AlphaTwo), &Expr::Node(&ZedTwo)),
        unknown: OnUnknown::Deny,
        run: &[],
        goto: Goto::Internal,
    },
];

#[test]
fn coverage_reports_names_shared_by_different_node_types() {
    let c = render::coverage::<Counter>(Tag::Idle, CLASHING, &[]);

    assert_eq!(c.duplicate_node_names, vec!["Alpha", "Zed"]);
    assert!(!c.is_clean());
    assert!(c.holes.is_empty());
    assert_eq!(c.overlaps.len(), 2);
}

#[test]
fn reusing_one_node_is_not_a_duplicate() {
    let c = render::coverage::<Counter>(Tag::Idle, EDGES, &[]);

    assert!(c.duplicate_node_names.is_empty());
    assert!(c.unreachable.is_empty());
    assert_eq!(c.holes, vec![("Busy".to_string(), "Poke".to_string())]);
}
