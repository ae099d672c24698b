//! The state machine layer: a transition table and the executor that runs it.

mod cond;
mod edge;
mod node;
mod state;

pub use cond::{
    cond_of, kleene_and, kleene_not, kleene_or, lemma_kleene_algebra, lemma_kleene_de_morgan,
    lemma_kleene_dominance, lemma_kleene_extends_bool, Cond,
};
pub use edge::{lemma_source_sets, Edge, Goto, Ignore, OnUnknown, Source};
pub use node::{
    join_parts, lemma_memo_lookup_none, lemma_memo_lookup_push, lemma_memo_lookup_some,
    lemma_memo_lookup_stable, memo_extends, memo_lookup, memo_names_unique, CondNode, Cx,
    Expr, Memo,
};
pub(crate) use node::same_type;
pub use state::State;

use vstd::prelude::*;
use vstd::std_specs::cmp::PartialEqSpecImpl;

use crate::render::coverage_clean;
use crate::{str_eq, ActionOf, Domain, EnvOf, Enumerable, EventOf, HasKind, KindOf, MachineSpec};

verus! {

/// Whether `states` holds an entry for `tag`.
pub open spec fn has_state<M: MachineSpec>(states: Seq<State<M>>, tag: M::Tag) -> bool {
    exists|i: int| 0 <= i < states.len() && #[trigger] states[i].tag == tag
}

/// `i` is the first entry of `states` for `tag`.
pub open spec fn is_first_state<M: MachineSpec>(states: Seq<State<M>>, tag: M::Tag, i: int) -> bool {
    &&& 0 <= i < states.len()
    &&& states[i].tag == tag
    &&& forall|k: int| 0 <= k < i ==> #[trigger] states[k].tag != tag
}

/// The state table entry that governs `tag`: its first one.
pub open spec fn state_for<M: MachineSpec>(states: Seq<State<M>>, tag: M::Tag) -> State<M> {
    states[choose|i: int| is_first_state(states, tag, i)]
}

/// What [`Machine::new`] needs of its tables: the initial tag, every tag
/// [`MachineSpec::all_tags`] lists, and every edge target have a state entry.
pub open spec fn tables_valid<M: MachineSpec>(
    initial: M::Tag,
    states: Seq<State<M>>,
    edges: Seq<Edge<M>>,
) -> bool {
    &&& has_state(states, initial)
    &&& forall|t: M::Tag| #[trigger] M::CHECKED_TAGS@.contains(t) ==> has_state(states, t)
    &&& forall|i: int|
        0 <= i < edges.len() ==> (#[trigger] edges[i].goto matches Goto::To(next) ==> has_state(
            states,
            next,
        ))
}

/// The edge departs from `tag` on events of kind `kind`.
pub open spec fn candidate<M: MachineSpec>(e: Edge<M>, tag: M::Tag, kind: KindOf<M>) -> bool {
    e.when == kind && e.from.spec_matches(tag)
}

/// A guard result lets the edge fire under its [`OnUnknown`] policy.
pub open spec fn admitted(c: Cond, policy: OnUnknown) -> bool {
    match c {
        Cond::True => true,
        Cond::False => false,
        Cond::Unknown => policy == OnUnknown::Allow,
    }
}

/// Every candidate edge before index `n` had its guard evaluated under `m`
/// and refused.
pub open spec fn refused_before<M: MachineSpec>(
    edges: Seq<Edge<M>>,
    tag: M::Tag,
    kind: KindOf<M>,
    m: Seq<(Seq<char>, Cond)>,
    n: int,
) -> bool {
    forall|j: int|
        0 <= j < n && #[trigger] candidate(edges[j], tag, kind) ==> {
            &&& edges[j].check.spec_evaluated(m)
            &&& !admitted(edges[j].check.spec_eval(m), edges[j].unknown)
        }
}

/// `sel` is the first edge (declaration order is priority) that departs from
/// `tag` on `kind` and whose guard, with node values `m`, its policy admits;
/// `None` when there is no such edge.
pub open spec fn selected<M: MachineSpec>(
    edges: Seq<Edge<M>>,
    tag: M::Tag,
    kind: KindOf<M>,
    m: Seq<(Seq<char>, Cond)>,
    sel: Option<usize>,
) -> bool {
    match sel {
        Some(i) => {
            &&& i < edges.len()
            &&& candidate(edges[i as int], tag, kind)
            &&& edges[i as int].check.spec_evaluated(m)
            &&& admitted(edges[i as int].check.spec_eval(m), edges[i as int].unknown)
            &&& refused_before(edges, tag, kind, m, i as int)
        },
        None => refused_before(edges, tag, kind, m, edges.len() as int),
    }
}

/// Each entry of `m` from index `from` on is the name of a guard node of some
/// edge of `edges`, with the value that node gives for `ev` and `world`.
pub open spec fn entries_from_table<M: MachineSpec>(
    m: Seq<(Seq<char>, Cond)>,
    from: int,
    edges: Seq<Edge<M>>,
    ev: &EventOf<M>,
    world: &EnvOf<M>,
) -> bool {
    forall|k: int|
        from <= k < m.len() ==> exists|i: int|
            0 <= i < edges.len() && (#[trigger] edges[i]).check.spec_has_entry(
                #[trigger] m[k],
                ev,
                world,
            )
}

/// Guard nodes of `edges` that share a name give the same value for `ev` and
/// `world`; so it is whenever node names are unique within the table.
pub open spec fn names_consistent<M: MachineSpec>(
    edges: Seq<Edge<M>>,
    ev: &EventOf<M>,
    world: &EnvOf<M>,
) -> bool {
    forall|i: int, j: int, a: (Seq<char>, Cond), b: (Seq<char>, Cond)|
        0 <= i < edges.len() && 0 <= j < edges.len() && #[trigger] edges[i].check.spec_has_entry(
            a,
            ev,
            world,
        ) && #[trigger] edges[j].check.spec_has_entry(b, ev, world) && a.0 == b.0 ==> a.1 == b.1
}

/// The edge departs from `tag` on `kind`, and its policy admits the value its
/// guard has for `ev` and `world`.
pub open spec fn accepted<M: MachineSpec>(
    e: Edge<M>,
    tag: M::Tag,
    kind: KindOf<M>,
    ev: &EventOf<M>,
    world: &EnvOf<M>,
) -> bool {
    candidate(e, tag, kind) && admitted(e.check.spec_value(ev, world), e.unknown)
}

/// The first edge at index `k` or later that [`accepted`] holds of.
pub open spec fn first_accepted_from<M: MachineSpec>(
    edges: Seq<Edge<M>>,
    tag: M::Tag,
    kind: KindOf<M>,
    ev: &EventOf<M>,
    world: &EnvOf<M>,
    k: int,
) -> Option<usize>
    decreases edges.len() - k,
{
    if k < 0 || k >= edges.len() {
        None
    } else if accepted(edges[k], tag, kind, ev, world) {
        Some(k as usize)
    } else {
        first_accepted_from(edges, tag, kind, ev, world, k + 1)
    }
}

/// The first edge (declaration order is priority) that departs from `tag` on
/// `kind` and whose guard, for `ev` and `world`, its policy admits.
pub open spec fn first_accepted<M: MachineSpec>(
    edges: Seq<Edge<M>>,
    tag: M::Tag,
    kind: KindOf<M>,
    ev: &EventOf<M>,
    world: &EnvOf<M>,
) -> Option<usize> {
    first_accepted_from(edges, tag, kind, ev, world, 0)
}

/// A guard evaluated under a memo whose entries come from the table has, when
/// names are consistent, its value for `ev` and `world`.
proof fn lemma_guard_agrees<M: MachineSpec>(
    edges: Seq<Edge<M>>,
    m: Seq<(Seq<char>, Cond)>,
    ev: &EventOf<M>,
    world: &EnvOf<M>,
    j: int,
)
    requires
        entries_from_table(m, 0, edges, ev, world),
        names_consistent(edges, ev, world),
        0 <= j < edges.len(),
        edges[j].check.spec_evaluated(m),
    ensures
        edges[j].check.spec_eval(m) == edges[j].check.spec_value(ev, world),
{
    let g = edges[j].check;
    assert forall|entry: (Seq<char>, Cond)|
        #[trigger] g.spec_has_entry(entry, ev, world) && memo_lookup(m, entry.0) is Some implies memo_lookup(m, entry.0) == Some(entry.1) by {
        if memo_lookup(m, entry.0) is Some {
            lemma_memo_lookup_some(m, entry.0);
            let k = choose|k: int|
                0 <= k < m.len() && #[trigger] m[k] == (entry.0, memo_lookup(m, entry.0).unwrap());
            let i = choose|i: int|
                0 <= i < edges.len() && (#[trigger] edges[i]).check.spec_has_entry(m[k], ev, world);
            assert(edges[j].check.spec_has_entry(entry, ev, world));
            assert(edges[i].check.spec_has_entry(m[k], ev, world));
        }
    }
    g.lemma_eval_is_value(m, ev, world);
}

/// With no edge in `[k, i)` accepted and edge `i` accepted, the search from
/// `k` finds `i`; with none in `[k, len)` accepted, it finds nothing.
proof fn lemma_first_accepted_from<M: MachineSpec>(
    edges: Seq<Edge<M>>,
    tag: M::Tag,
    kind: KindOf<M>,
    ev: &EventOf<M>,
    world: &EnvOf<M>,
    k: int,
    sel: Option<usize>,
)
    requires
        0 <= k,
        match sel {
            Some(i) => k <= i < edges.len() && accepted(edges[i as int], tag, kind, ev, world),
            None => true,
        },
        forall|j: int|
            k <= j < (match sel {
                Some(i) => i as int,
                None => edges.len() as int,
            }) ==> !accepted(#[trigger] edges[j], tag, kind, ev, world),
    ensures
        first_accepted_from(edges, tag, kind, ev, world, k) == sel,
    decreases edges.len() - k,
{
    if k < edges.len() {
        if sel != Some(k as usize) {
            assert(!accepted(edges[k], tag, kind, ev, world));
            lemma_first_accepted_from(edges, tag, kind, ev, world, k + 1, sel);
        }
    }
}

/// When node names are consistent, the selection made with a memo whose
/// entries come from the table is the first accepted edge: node values are
/// what the nodes give for this event and world.
pub proof fn lemma_selected_is_first_accepted<M: MachineSpec>(
    edges: Seq<Edge<M>>,
    tag: M::Tag,
    kind: KindOf<M>,
    m: Seq<(Seq<char>, Cond)>,
    sel: Option<usize>,
    ev: &EventOf<M>,
    world: &EnvOf<M>,
)
    requires
        selected(edges, tag, kind, m, sel),
        entries_from_table(m, 0, edges, ev, world),
        names_consistent(edges, ev, world),
    ensures
        sel == first_accepted(edges, tag, kind, ev, world),
{
    let bound: int = match sel {
        Some(i) => i as int,
        None => edges.len() as int,
    };
    assert forall|j: int| 0 <= j < bound implies !accepted(
        #[trigger] edges[j],
        tag,
        kind,
        ev,
        world,
    ) by {
        if candidate(edges[j], tag, kind) {
            lemma_guard_agrees(edges, m, ev, world, j);
        }
    }
    if let Some(i) = sel {
        lemma_guard_agrees(edges, m, ev, world, i as int);
    }
    lemma_first_accepted_from(edges, tag, kind, ev, world, 0, sel);
}

/// The outcome of one dispatch from `tag` with selection `sel`: the new tag
/// and the [`Taken`] report.
pub open spec fn dispatch_outcome<M: MachineSpec>(
    states: Seq<State<M>>,
    edges: Seq<Edge<M>>,
    tag: M::Tag,
    sel: Option<usize>,
    new_tag: M::Tag,
    r: Option<Taken<M>>,
) -> bool {
    match sel {
        None => r is None && new_tag == tag,
        Some(i) => match r {
            None => false,
            Some(t) => {
                &&& t.edge == edges[i as int].id
                &&& match edges[i as int].goto {
                    Goto::To(next) => {
                        &&& new_tag == next
                        &&& t.actions@ == state_for(states, tag).exit@ + edges[i as int].run@
                            + state_for(states, next).entry@
                    },
                    Goto::Internal => new_tag == tag && t.actions@ == edges[i as int].run@,
                }
            },
        },
    }
}

/// `worlds` is the world before each of `actions` and after the last one,
/// each action, carried out for `ev`, turning its world into the next.
pub open spec fn performs_through<D: Domain>(
    actions: Seq<D::Action>,
    ev: &D::Event,
    worlds: Seq<&D::Env>,
) -> bool {
    &&& worlds.len() == actions.len() + 1
    &&& forall|k: int|
        0 <= k < actions.len() ==> D::perform_effect(
            actions[k],
            ev,
            #[trigger] worlds[k],
            worlds[k + 1],
        )
}

/// Carrying out `actions` one after another, in order, each for `ev`, turns
/// the world `before` into `after`.
pub open spec fn performs_all<D: Domain>(
    actions: Seq<D::Action>,
    ev: &D::Event,
    before: &D::Env,
    after: &D::Env,
) -> bool {
    exists|worlds: Seq<&D::Env>|
        #[trigger] performs_through::<D>(actions, ev, worlds) && worlds[0] == before
            && worlds.last() == after
}

/// Running `a` and then `b` is running `a + b`.
pub proof fn lemma_performs_all_concat<D: Domain>(
    a: Seq<D::Action>,
    b: Seq<D::Action>,
    ev: &D::Event,
    w0: &D::Env,
    w1: &D::Env,
    w2: &D::Env,
)
    requires
        performs_all::<D>(a, ev, w0, w1),
        performs_all::<D>(b, ev, w1, w2),
    ensures
        performs_all::<D>(a + b, ev, w0, w2),
{
    let wa = choose|worlds: Seq<&D::Env>|
        #[trigger] performs_through::<D>(a, ev, worlds) && worlds[0] == w0 && worlds.last() == w1;
    let wb = choose|worlds: Seq<&D::Env>|
        #[trigger] performs_through::<D>(b, ev, worlds) && worlds[0] == w1 && worlds.last() == w2;
    let ws = wa + wb.drop_first();
    let ab = a + b;
    assert forall|k: int| 0 <= k < ab.len() implies D::perform_effect(
        ab[k],
        ev,
        #[trigger] ws[k],
        ws[k + 1],
    ) by {
        if k < a.len() {
            assert(wa[k] == ws[k]);
            assert(wa[k + 1] == ws[k + 1]);
        } else {
            assert(ws[k] == wb[k - a.len()]);
            assert(ws[k + 1] == wb[k - a.len() + 1]);
            assert(ab[k] == b[k - a.len()]);
        }
    }
    assert(performs_through::<D>(ab, ev, ws));
}

/// The first entry of `states` for `tag`, if there is one.
pub(crate) fn find_state<M: MachineSpec>(states: &'static [State<M>], tag: M::Tag) -> (r: Option<
    &'static State<M>,
>)
    ensures
        r is Some <==> has_state(states@, tag),
        r matches Some(st) ==> *st == state_for(states@, tag),
{
    let mut i: usize = 0;
    while i < states.len()
        invariant
            i <= states@.len(),
            forall|k: int| 0 <= k < i ==> #[trigger] states@[k].tag != tag,
        decreases states@.len() - i,
    {
        if states[i].tag.same(&tag) {
            proof {
                let c = choose|c: int| is_first_state(states@, tag, c);
                assert(is_first_state(states@, tag, i as int));
                if c < i {
                    assert(states@[c].tag != tag);
                }
                if i < c {
                    assert(states@[i as int].tag != tag);
                }
            }
            return Some(&states[i]);
        }
        i += 1;
    }
    proof {
        if has_state(states@, tag) {
            let k = choose|k: int| 0 <= k < states@.len() && #[trigger] states@[k].tag == tag;
            assert(states@[k].tag != tag);
        }
    }
    None
}

/// Declaration order is priority: no candidate edge before the selected one
/// fires under the same node values.
pub proof fn lemma_priority<M: MachineSpec>(
    edges: Seq<Edge<M>>,
    tag: M::Tag,
    kind: KindOf<M>,
    m: Seq<(Seq<char>, Cond)>,
    i: usize,
    j: int,
)
    requires
        selected(edges, tag, kind, m, Some(i)),
        0 <= j < i,
        candidate(edges[j], tag, kind),
    ensures
        !admitted(edges[j].check.spec_eval(m), edges[j].unknown),
{
}

/// With the node values fixed, at most one selection is possible.
pub proof fn lemma_selection_unique<M: MachineSpec>(
    edges: Seq<Edge<M>>,
    tag: M::Tag,
    kind: KindOf<M>,
    m: Seq<(Seq<char>, Cond)>,
    a: Option<usize>,
    b: Option<usize>,
)
    requires
        selected(edges, tag, kind, m, a),
        selected(edges, tag, kind, m, b),
    ensures
        a == b,
{
    match (a, b) {
        (Some(x), Some(y)) => {
            if x < y {
                assert(candidate(edges[x as int], tag, kind));
            } else if y < x {
                assert(candidate(edges[y as int], tag, kind));
            }
        },
        (Some(x), None) => {
            assert(candidate(edges[x as int], tag, kind));
        },
        (None, Some(y)) => {
            assert(candidate(edges[y as int], tag, kind));
        },
        (None, None) => {},
    }
}

/// Selection is owed where no guard decides: when an edge without a guard
/// departs from `tag` on `kind`, some edge is selected, that one or one
/// declared before it; and that very edge when no edge before it departs
/// from `tag` on `kind`.
pub proof fn lemma_unguarded_edge_fires<M: MachineSpec>(
    edges: Seq<Edge<M>>,
    tag: M::Tag,
    kind: KindOf<M>,
    m: Seq<(Seq<char>, Cond)>,
    sel: Option<usize>,
    i: int,
)
    requires
        selected(edges, tag, kind, m, sel),
        0 <= i < edges.len(),
        candidate(edges[i], tag, kind),
        *edges[i].check is Always,
    ensures
        sel matches Some(j) && j <= i,
        (forall|k: int| 0 <= k < i ==> !candidate(#[trigger] edges[k], tag, kind)) ==> sel
            == Some(i as usize),
{
    match sel {
        Some(j) => {
            if i < j {
                assert(candidate(edges[i], tag, kind));
            }
        },
        None => {
            assert(candidate(edges[i], tag, kind));
        },
    }
}

/// Without an edge that departs from `tag` on `kind`, nothing is selected.
pub proof fn lemma_no_candidate_selects_nothing<M: MachineSpec>(
    edges: Seq<Edge<M>>,
    tag: M::Tag,
    kind: KindOf<M>,
    m: Seq<(Seq<char>, Cond)>,
    sel: Option<usize>,
)
    requires
        selected(edges, tag, kind, m, sel),
        forall|k: int| 0 <= k < edges.len() ==> !candidate(#[trigger] edges[k], tag, kind),
    ensures
        sel is None,
{
    if let Some(j) = sel {
        assert(candidate(edges[j as int], tag, kind));
    }
}

/// The tag after a run of dispatches from `tag` with selections `sels`: the
/// target of the last selected edge that goes to a state, or `tag` when no
/// selected edge does.
pub open spec fn tag_after<M: MachineSpec>(
    edges: Seq<Edge<M>>,
    tag: M::Tag,
    sels: Seq<Option<usize>>,
) -> M::Tag
    decreases sels.len(),
{
    if sels.len() == 0 {
        tag
    } else {
        let before = tag_after(edges, tag, sels.drop_last());
        match sels.last() {
            Some(i) => match edges[i as int].goto {
                Goto::To(next) => next,
                Goto::Internal => before,
            },
            None => before,
        }
    }
}

/// Over a run of dispatches, the current tag is the target of the last taken
/// edge that goes to a state, or the starting tag when none did: internal
/// edges and unmatched events never move the machine.
pub proof fn lemma_tag_after_dispatches<M: MachineSpec>(
    states: Seq<State<M>>,
    edges: Seq<Edge<M>>,
    tags: Seq<M::Tag>,
    sels: Seq<Option<usize>>,
    rs: Seq<Option<Taken<M>>>,
)
    requires
        tags.len() == sels.len() + 1,
        rs.len() == sels.len(),
        forall|k: int|
            0 <= k < sels.len() ==> dispatch_outcome(
                states,
                edges,
                #[trigger] tags[k],
                sels[k],
                tags[k + 1],
                rs[k],
            ),
    ensures
        tags.last() == tag_after(edges, tags[0], sels),
    decreases sels.len(),
{
    if sels.len() > 0 {
        let n = sels.len() - 1;
        lemma_tag_after_dispatches(states, edges, tags.drop_last(), sels.drop_last(), rs.drop_last());
        assert(tags.drop_last()[0] == tags[0]);
        assert(tags.drop_last().last() == tags[n]);
        assert(dispatch_outcome(states, edges, tags[n], sels[n], tags[n + 1], rs[n]));
    }
}

/// What a dispatch does to the state and which actions it runs: nothing
/// without a selected edge; only `run` for an internal edge, the state kept;
/// exit, `run`, entry for an edge to another state, which becomes current.
pub proof fn lemma_dispatch_effects<M: MachineSpec>(
    states: Seq<State<M>>,
    edges: Seq<Edge<M>>,
    tag: M::Tag,
    sel: Option<usize>,
    new_tag: M::Tag,
    r: Option<Taken<M>>,
)
    requires
        dispatch_outcome(states, edges, tag, sel, new_tag, r),
    ensures
        sel is None ==> r is None && new_tag == tag,
        sel matches Some(i) ==> r is Some && r.unwrap().edge == edges[i as int].id,
        sel matches Some(i) ==> (edges[i as int].goto is Internal ==> new_tag == tag
            && r.unwrap().actions@ == edges[i as int].run@),
        sel matches Some(i) ==> (edges[i as int].goto matches Goto::To(next) ==> new_tag == next
            && r.unwrap().actions@.take(state_for(states, tag).exit@.len() as int) == state_for(
            states,
            tag,
        ).exit@),
{
    if let Some(i) = sel {
        if let Goto::To(next) = edges[i as int].goto {
            let t = r.unwrap();
            let ex = state_for(states, tag).exit@;
            assert(t.actions@.take(ex.len() as int) =~= ex);
        }
    }
}

/// The outcome of one [`Machine::dispatch`] call, for tests and logs.
#[verifier::reject_recursive_types(M)]
pub struct Taken<M: MachineSpec> {
    /// The id of the edge that was selected.
    pub edge: &'static str,
    /// The actions that ran, in `exit` → `run` → `entry` order.
    pub actions: Vec<ActionOf<M>>,
}

/// Runs a transition table: holds the current state and dispatches events
/// against it.
#[verifier::reject_recursive_types(M)]
pub struct Machine<M: MachineSpec> {
    tag: M::Tag,
    states: &'static [State<M>],
    edges: &'static [Edge<M>],
    ignores: &'static [Ignore<M>],
}

impl<M: MachineSpec> Clone for Taken<M> {
    fn clone(&self) -> (r: Self)
        ensures
            r.edge == self.edge,
            r.actions@ == self.actions@,
    {
        let mut actions: Vec<ActionOf<M>> = Vec::new();
        let mut i: usize = 0;
        while i < self.actions.len()
            invariant
                i <= self.actions@.len(),
                actions@ == self.actions@.take(i as int),
            decreases self.actions@.len() - i,
        {
            actions.push(self.actions[i]);
            proof {
                assert(self.actions@.take(i + 1) =~= self.actions@.take(i as int).push(self.actions@[i as int]));
            }
            i += 1;
        }
        proof {
            assert(self.actions@.take(self.actions@.len() as int) =~= self.actions@);
        }
        Taken { edge: self.edge, actions }
    }
}

impl<M: MachineSpec> PartialEq for Taken<M> {
    fn eq(&self, other: &Self) -> (r: bool) {
        if !str_eq(self.edge, other.edge) || self.actions.len() != other.actions.len() {
            return false;
        }
        let mut i: usize = 0;
        while i < self.actions.len()
            invariant
                i <= self.actions@.len(),
                self.actions@.len() == other.actions@.len(),
                forall|k: int| 0 <= k < i ==> self.actions@[k] == other.actions@[k],
            decreases self.actions@.len() - i,
        {
            if !self.actions[i].same(&other.actions[i]) {
                return false;
            }
            i += 1;
        }
        proof {
            assert(self.actions@ =~= other.actions@);
        }
        true
    }
}

impl<M: MachineSpec> PartialEqSpecImpl for Taken<M> {
    open spec fn obeys_eq_spec() -> bool {
        true
    }

    open spec fn eq_spec(&self, other: &Self) -> bool {
        self.edge@ == other.edge@ && self.actions@ == other.actions@
    }
}

impl<M: MachineSpec> Machine<M> {
    /// The tables stay valid for the current tag.
    #[verifier::type_invariant]
    spec fn inv(self) -> bool {
        tables_valid(self.tag, self.states@, self.edges@)
    }

    /// The current state tag.
    pub closed spec fn spec_tag(&self) -> M::Tag {
        self.tag
    }

    /// The state table.
    pub closed spec fn spec_states(&self) -> Seq<State<M>> {
        self.states@
    }

    /// The transition table.
    pub closed spec fn spec_edges(&self) -> Seq<Edge<M>> {
        self.edges@
    }

    /// The deliberately unhandled combinations.
    pub closed spec fn spec_ignores(&self) -> Seq<Ignore<M>> {
        self.ignores@
    }

    /// Reports whether the tables meet what [`Machine::new`] needs: `initial`,
    /// every tag [`MachineSpec::all_tags`] lists, and every edge target have a
    /// state entry.
    pub fn check_tables(
        initial: M::Tag,
        states: &'static [State<M>],
        edges: &'static [Edge<M>],
    ) -> (r: bool)
        ensures
            r == tables_valid(initial, states@, edges@),
    {
        if !find_state(states, initial).is_some() {
            return false;
        }
        let all = M::all_tags();
        let mut i: usize = 0;
        while i < all.len()
            invariant
                all@ == M::CHECKED_TAGS@,
                i <= all@.len(),
                forall|k: int| 0 <= k < i ==> has_state(states@, #[trigger] all@[k]),
            decreases all@.len() - i,
        {
            if !find_state(states, all[i]).is_some() {
                proof {
                    assert(M::CHECKED_TAGS@.contains(all@[i as int]));
                }
                return false;
            }
            i += 1;
        }
        let mut j: usize = 0;
        while j < edges.len()
            invariant
                j <= edges@.len(),
                forall|k: int|
                    0 <= k < j ==> (#[trigger] edges@[k].goto matches Goto::To(next) ==> has_state(
                        states@,
                        next,
                    )),
            decreases edges@.len() - j,
        {
            match edges[j].goto {
                Goto::To(next) => {
                    if !find_state(states, next).is_some() {
                        return false;
                    }
                },
                Goto::Internal => {},
            }
            j += 1;
        }
        proof {
            assert forall|t: M::Tag| #[trigger] M::CHECKED_TAGS@.contains(t) implies has_state(
                states@,
                t,
            ) by {
                let k = choose|k: int| 0 <= k < all@.len() && all@[k] == t;
                assert(has_state(states@, all@[k]));
            }
        }
        true
    }

    /// Builds a machine over valid tables.
    ///
    /// - `initial`: the starting state tag.
    /// - `states`, `edges`, `ignores`: the transition table, as static slices.
    ///
    /// The tables must give a state entry to `initial`, to every tag
    /// [`MachineSpec::all_tags`] lists and to every edge target; test that with
    /// [`Machine::check_tables`]. They must also be free of coverage defects:
    /// test that with [`crate::render::coverage`] and
    /// [`crate::render::Coverage::is_clean`].
    pub fn new(
        initial: M::Tag,
        states: &'static [State<M>],
        edges: &'static [Edge<M>],
        ignores: &'static [Ignore<M>],
    ) -> (r: Self)
        requires
            tables_valid(initial, states@, edges@),
            coverage_clean(initial, edges@, ignores@),
        ensures
            r.spec_tag() == initial,
            r.spec_states() == states@,
            r.spec_edges() == edges@,
            r.spec_ignores() == ignores@,
            has_state(r.spec_states(), r.spec_tag()),
    {
        Machine { tag: initial, states, edges, ignores }
    }

    /// Returns the current state tag.
    pub fn tag(&self) -> (r: M::Tag)
        ensures
            r == self.spec_tag(),
            has_state(self.spec_states(), r),
    {
        proof {
            use_type_invariant(self);
        }
        self.tag
    }

    /// Whether an [`Ignore`] covers the current state and `kind`. When
    /// [`Machine::dispatch`] matches no edge for an event of this kind, the
    /// combination is a gap in the table unless this holds, and worth a
    /// warning.
    pub fn is_ignored(&self, kind: KindOf<M>) -> (r: bool)
        ensures
            r == crate::render::spec_ignored(self.spec_ignores(), self.spec_tag(), kind),
    {
        crate::render::ignored(self.ignores, self.tag, kind)
    }

    /// Matches `ev` against the table from the current state and runs the
    /// selected transition.
    ///
    /// - `ev`: the event to handle.
    /// - `world`: the outside world, mutated by whatever actions run.
    ///
    /// Returns the [`Taken`] transition, or `None` if no edge matched (a gap in
    /// the table unless [`Machine::is_ignored`] holds for the event's kind).
    /// Each action in [`Taken::actions`] is carried out once, in that order,
    /// for `ev`, by [`Domain::perform`].
    ///
    /// Effects run in this order: the current state's [`State::exit`] → the
    /// tag changes → `run` → the target state's [`State::entry`]. For
    /// [`Goto::Internal`] only `run` executes. The initial state's entry
    /// actions never run on construction; dispatch an explicit init event if
    /// they're needed.
    ///
    /// Guards are evaluated at most once per node name within one call, so the
    /// whole selection sees a single value per node (`m` below).
    pub fn dispatch(&mut self, ev: &EventOf<M>, world: &mut EnvOf<M>) -> (r: Option<Taken<M>>)
        ensures
            final(self).spec_states() == old(self).spec_states(),
            final(self).spec_edges() == old(self).spec_edges(),
            final(self).spec_ignores() == old(self).spec_ignores(),
            has_state(final(self).spec_states(), final(self).spec_tag()),
            exists|m: Seq<(Seq<char>, Cond)>, sel: Option<usize>|
                {
                    &&& #[trigger] selected(
                        old(self).spec_edges(),
                        old(self).spec_tag(),
                        ev.spec_kind(),
                        m,
                        sel,
                    )
                    &&& entries_from_table(m, 0, old(self).spec_edges(), ev, &*old(world))
                    &&& memo_names_unique(m)
                    &&& dispatch_outcome(
                        old(self).spec_states(),
                        old(self).spec_edges(),
                        old(self).spec_tag(),
                        sel,
                        final(self).spec_tag(),
                        r,
                    )
                },
            names_consistent(old(self).spec_edges(), ev, &*old(world)) ==> dispatch_outcome(
                old(self).spec_states(),
                old(self).spec_edges(),
                old(self).spec_tag(),
                first_accepted(old(self).spec_edges(), old(self).spec_tag(), ev.spec_kind(), ev, &*old(world)),
                final(self).spec_tag(),
                r,
            ),
            r is None ==> &*final(world) == &*old(world),
            r matches Some(t) ==> performs_all::<M::Domain>(
                t.actions@,
                ev,
                &*old(world),
                &*final(world),
            ),
    {
        proof {
            use_type_invariant(&*self);
        }
        let kind = ev.kind();
        let mut memo = Memo::new();
        let hit = self.select(ev, world, kind, &mut memo);
        let ghost m = memo@;
        proof {
            if names_consistent(self.edges@, ev, &*world) {
                lemma_selected_is_first_accepted(self.edges@, self.tag, kind, m, hit, ev, &*world);
            }
        }
        let i = match hit {
            None => {
                proof {
                    assert(selected(old(self).spec_edges(), old(self).spec_tag(), kind, m, hit));
                    assert(dispatch_outcome(
                        old(self).spec_states(),
                        old(self).spec_edges(),
                        old(self).spec_tag(),
                        hit,
                        self.spec_tag(),
                        None,
                    ));
                }
                return None;
            },
            Some(i) => i,
        };
        let edge = &self.edges[i];
        let id = edge.id;
        let mut actions: Vec<ActionOf<M>> = Vec::new();
        let ghost old_tag = self.tag;
        match edge.goto {
            Goto::To(next) => {
                proof {
                    assert(self.edges@[i as int].goto matches Goto::To(n) ==> has_state(self.states@, n));
                }
                let from_state = self.state_of(self.tag);
                let ghost w0: &EnvOf<M> = &*world;
                Self::perform_all(from_state.exit, ev, world, &mut actions);
                self.tag = next;
                let ghost w1: &EnvOf<M> = &*world;
                Self::perform_all(edge.run, ev, world, &mut actions);
                let ghost w2: &EnvOf<M> = &*world;
                let to_state = self.state_of(next);
                Self::perform_all(to_state.entry, ev, world, &mut actions);
                proof {
                    let ex = from_state.exit@;
                    let rn = edge.run@;
                    let en = to_state.entry@;
                    assert(w0 == &*old(world));
                    lemma_performs_all_concat::<M::Domain>(ex, rn, ev, w0, w1, w2);
                    lemma_performs_all_concat::<M::Domain>(ex + rn, en, ev, w0, w2, &*world);
                    assert(actions@ =~= ex + rn + en);
                }
            },
            Goto::Internal => {
                Self::perform_all(edge.run, ev, world, &mut actions);
                proof {
                    assert(actions@ =~= edge.run@);
                }
            },
        }
        let r = Some(Taken { edge: id, actions });
        proof {
            assert(selected(old(self).spec_edges(), old(self).spec_tag(), kind, m, hit));
            assert(dispatch_outcome(
                old(self).spec_states(),
                old(self).spec_edges(),
                old(self).spec_tag(),
                hit,
                self.spec_tag(),
                r,
            ));
        }
        r
    }

    /// Index of the first edge that departs from the current state on `kind`
    /// and whose guard its policy admits. Declaration order is priority.
    ///
    /// Guard values are read from, and recorded in, `memo`, so every edge
    /// sees the same value for a node name.
    pub fn select(
        &self,
        ev: &EventOf<M>,
        world: &EnvOf<M>,
        kind: KindOf<M>,
        memo: &mut Memo,
    ) -> (r: Option<usize>)
        ensures
            memo_extends(old(memo)@, final(memo)@),
            selected(self.spec_edges(), self.spec_tag(), kind, final(memo)@, r),
            entries_from_table(final(memo)@, old(memo)@.len() as int, self.spec_edges(), ev, world),
            memo_names_unique(old(memo)@) ==> memo_names_unique(final(memo)@),
    {
        let ghost start = memo@;
        let cx = Cx::new(ev, world);
        let mut i: usize = 0;
        proof {
            assert(memo@.take(start.len() as int) =~= start);
        }
        while i < self.edges.len()
            invariant
                i <= self.edges@.len(),
                start == old(memo)@,
                memo_extends(start, memo@),
                refused_before(self.edges@, self.tag, kind, memo@, i as int),
                entries_from_table(memo@, start.len() as int, self.edges@, ev, world),
                memo_names_unique(start) ==> memo_names_unique(memo@),
                cx.event == ev,
                cx.world == world,
            decreases self.edges@.len() - i,
        {
            let e = &self.edges[i];
            if e.when.same(&kind) && e.from.matches(self.tag) {
                let ghost before = memo@;
                let c = e.check.eval(&cx, memo);
                proof {
                    assert forall|k: int| start.len() <= k < memo@.len() implies exists|x: int|
                        0 <= x < self.edges@.len() && (#[trigger] self.edges@[x]).check.spec_has_entry(
                            #[trigger] memo@[k],
                            ev,
                            world,
                        ) by {
                        if k < before.len() {
                            assert(memo@[k] == before[k]);
                        } else {
                            e.check.lemma_reached_has_entry(memo@, memo@[k], ev, world);
                            assert(self.edges@[i as int].check.spec_has_entry(memo@[k], ev, world));
                        }
                    }
                    assert(memo@.take(start.len() as int) =~= before.take(start.len() as int));
                    assert(memo_extends(start, memo@));
                    assert forall|j: int|
                        0 <= j < i && #[trigger] candidate(self.edges@[j], self.tag, kind) implies {
                        &&& self.edges@[j].check.spec_evaluated(memo@)
                        &&& !admitted(self.edges@[j].check.spec_eval(memo@), self.edges@[j].unknown)
                    } by {
                        self.edges@[j].check.lemma_eval_stable(before, memo@);
                    }
                }
                let fire = match c {
                    Cond::True => true,
                    Cond::False => false,
                    Cond::Unknown => e.unknown == OnUnknown::Allow,
                };
                if fire {
                    return Some(i);
                }
            }
            proof {
                assert forall|j: int|
                    0 <= j < i + 1 && #[trigger] candidate(self.edges@[j], self.tag, kind) implies {
                    &&& self.edges@[j].check.spec_evaluated(memo@)
                    &&& !admitted(self.edges@[j].check.spec_eval(memo@), self.edges@[j].unknown)
                } by {
                    if j < i {
                    }
                }
            }
            i += 1;
        }
        None
    }

    /// Runs each action in `to_run` in order, appending it to `done`.
    fn perform_all(
        to_run: &[ActionOf<M>],
        ev: &EventOf<M>,
        world: &mut EnvOf<M>,
        done: &mut Vec<ActionOf<M>>,
    )
        ensures
            final(done)@ == old(done)@ + to_run@,
            performs_all::<M::Domain>(to_run@, ev, &*old(world), &*final(world)),
    {
        let ghost start = done@;
        let ghost mut worlds: Seq<&EnvOf<M>> = seq![&*world];
        let mut i: usize = 0;
        while i < to_run.len()
            invariant
                i <= to_run@.len(),
                done@ == start + to_run@.take(i as int),
                worlds.len() == i + 1,
                worlds[0] == &*old(world),
                worlds.last() == &*world,
                forall|k: int|
                    0 <= k < i ==> <M::Domain as Domain>::perform_effect(
                        to_run@[k],
                        ev,
                        #[trigger] worlds[k],
                        worlds[k + 1],
                    ),
            decreases to_run@.len() - i,
        {
            let a = to_run[i];
            <M::Domain as Domain>::perform(a, ev, world);
            done.push(a);
            proof {
                let prev = worlds;
                worlds = worlds.push(&*world);
                assert forall|k: int| 0 <= k < i + 1 implies <M::Domain as Domain>::perform_effect(
                    to_run@[k],
                    ev,
                    #[trigger] worlds[k],
                    worlds[k + 1],
                ) by {
                    if k < i {
                        assert(worlds[k] == prev[k]);
                        assert(worlds[k + 1] == prev[k + 1]);
                    }
                }
                assert(to_run@.take(i + 1) =~= to_run@.take(i as int).push(a));
            }
            i += 1;
        }
        proof {
            assert(to_run@.take(to_run@.len() as int) =~= to_run@);
            assert(performs_through::<M::Domain>(to_run@, ev, worlds));
        }
    }

    /// The state table entry for `tag`: its first one.
    fn state_of(&self, tag: M::Tag) -> (r: &'static State<M>)
        requires
            has_state(self.states@, tag),
        ensures
            *r == state_for(self.states@, tag),
    {
        match find_state(self.states, tag) {
            Some(st) => st,
            None => &self.states[0],
        }
    }
}

} // verus!
