//! Exhaustive checking of a transition table: holes, overlaps, unreachable
//! states and guard names shared by different node types.

use std::any::TypeId;

use vstd::prelude::*;

use crate::machine::{candidate, same_type, Edge, Goto, Ignore};
use crate::{label, name_of, str_eq, str_lt, vec_contains, Domain, Enumerable, KindOf, MachineSpec};

verus! {

/// The ids of the edges that depart from `tag` on `kind`, in table order.
pub open spec fn spec_hits<M: MachineSpec>(
    edges: Seq<Edge<M>>,
    tag: M::Tag,
    kind: KindOf<M>,
) -> Seq<&'static str>
    decreases edges.len(),
{
    if edges.len() == 0 {
        Seq::empty()
    } else {
        spec_hits(edges.drop_last(), tag, kind) + if candidate(edges.last(), tag, kind) {
            seq![edges.last().id]
        } else {
            Seq::empty()
        }
    }
}

/// Some `Ignore` covers `(tag, kind)`.
pub open spec fn spec_ignored<M: MachineSpec>(
    ignores: Seq<Ignore<M>>,
    tag: M::Tag,
    kind: KindOf<M>,
) -> bool {
    exists|i: int| 0 <= i < ignores.len() && #[trigger] ignores[i].spec_matches(tag, kind)
}

/// `(tag, kind)` has neither an edge nor an `Ignore`.
pub open spec fn is_hole<M: MachineSpec>(
    edges: Seq<Edge<M>>,
    ignores: Seq<Ignore<M>>,
    tag: M::Tag,
    kind: KindOf<M>,
) -> bool {
    spec_hits(edges, tag, kind).len() == 0 && !spec_ignored(ignores, tag, kind)
}

/// The holes of one state, as `(state, kind)` labels, in `kinds` order.
pub open spec fn hole_row<M: MachineSpec>(
    edges: Seq<Edge<M>>,
    ignores: Seq<Ignore<M>>,
    tag: M::Tag,
    kinds: Seq<KindOf<M>>,
) -> Seq<(Seq<char>, Seq<char>)>
    decreases kinds.len(),
{
    if kinds.len() == 0 {
        Seq::empty()
    } else {
        hole_row(edges, ignores, tag, kinds.drop_last()) + if is_hole(
            edges,
            ignores,
            tag,
            kinds.last(),
        ) {
            seq![(name_of(tag), name_of(kinds.last()))]
        } else {
            Seq::empty()
        }
    }
}

/// The holes of every state in `tags`, state by state.
pub open spec fn spec_holes<M: MachineSpec>(
    edges: Seq<Edge<M>>,
    ignores: Seq<Ignore<M>>,
    tags: Seq<M::Tag>,
    kinds: Seq<KindOf<M>>,
) -> Seq<(Seq<char>, Seq<char>)>
    decreases tags.len(),
{
    if tags.len() == 0 {
        Seq::empty()
    } else {
        spec_holes(edges, ignores, tags.drop_last(), kinds) + hole_row(
            edges,
            ignores,
            tags.last(),
            kinds,
        )
    }
}

/// The combinations of one state that more than one edge matches, with the
/// ids of those edges.
pub open spec fn overlap_row<M: MachineSpec>(
    edges: Seq<Edge<M>>,
    tag: M::Tag,
    kinds: Seq<KindOf<M>>,
) -> Seq<(Seq<char>, Seq<char>, Seq<&'static str>)>
    decreases kinds.len(),
{
    if kinds.len() == 0 {
        Seq::empty()
    } else {
        overlap_row(edges, tag, kinds.drop_last()) + if spec_hits(edges, tag, kinds.last()).len()
            > 1 {
            seq![
                (
                    name_of(tag),
                    name_of(kinds.last()),
                    spec_hits(edges, tag, kinds.last()),
                ),
            ]
        } else {
            Seq::empty()
        }
    }
}

/// The overlaps of every state in `tags`, state by state.
pub open spec fn spec_overlaps<M: MachineSpec>(
    edges: Seq<Edge<M>>,
    tags: Seq<M::Tag>,
    kinds: Seq<KindOf<M>>,
) -> Seq<(Seq<char>, Seq<char>, Seq<&'static str>)>
    decreases tags.len(),
{
    if tags.len() == 0 {
        Seq::empty()
    } else {
        spec_overlaps(edges, tags.drop_last(), kinds) + overlap_row(edges, tags.last(), kinds)
    }
}

/// `s` holds the target of every edge that departs from one of its states.
/// Departure states are those of [`MachineSpec::all_tags`], as in
/// [`crate::machine::Source::expand`].
pub open spec fn closed_under<M: MachineSpec>(edges: Seq<Edge<M>>, s: Set<M::Tag>) -> bool {
    forall|i: int, t: M::Tag|
        #![trigger edges[i], s.contains(t)]
        0 <= i < edges.len() && s.contains(t) && M::CHECKED_TAGS@.contains(t)
            && edges[i].from.spec_matches(t) ==> (edges[i].goto matches Goto::To(next)
            ==> s.contains(next))
}

/// `t` is reachable from `initial`: it lies in every set that holds `initial`
/// and is closed under the edges.
pub open spec fn reachable<M: MachineSpec>(
    edges: Seq<Edge<M>>,
    initial: M::Tag,
    t: M::Tag,
) -> bool {
    forall|s: Set<M::Tag>| #[trigger] closed_under(edges, s) && s.contains(initial) ==> s.contains(t)
}

/// The labels of the states in `tags` that cannot be reached from `initial`.
pub open spec fn spec_unreachable<M: MachineSpec>(
    edges: Seq<Edge<M>>,
    initial: M::Tag,
    tags: Seq<M::Tag>,
) -> Seq<Seq<char>>
    decreases tags.len(),
{
    if tags.len() == 0 {
        Seq::empty()
    } else {
        spec_unreachable(edges, initial, tags.drop_last()) + if !reachable(
            edges,
            initial,
            tags.last(),
        ) {
            seq![name_of(tags.last())]
        } else {
            Seq::empty()
        }
    }
}

/// A combination that an edge handles, or that an `Ignore` covers, is never a
/// hole.
pub proof fn lemma_hole_needs_neither<M: MachineSpec>(
    edges: Seq<Edge<M>>,
    ignores: Seq<Ignore<M>>,
    tag: M::Tag,
    kind: KindOf<M>,
    i: int,
)
    requires
        (0 <= i < edges.len() && candidate(edges[i], tag, kind)) || (0 <= i < ignores.len()
            && ignores[i].spec_matches(tag, kind)),
    ensures
        !is_hole(edges, ignores, tag, kind),
{
    if 0 <= i < edges.len() && candidate(edges[i], tag, kind) {
        lemma_hits_contains(edges, tag, kind, i);
    }
}

/// The id of every candidate edge is among the hits.
pub proof fn lemma_hits_contains<M: MachineSpec>(
    edges: Seq<Edge<M>>,
    tag: M::Tag,
    kind: KindOf<M>,
    i: int,
)
    requires
        0 <= i < edges.len(),
        candidate(edges[i], tag, kind),
    ensures
        spec_hits(edges, tag, kind).contains(edges[i].id),
    decreases edges.len(),
{
    if i < edges.len() - 1 {
        lemma_hits_contains(edges.drop_last(), tag, kind, i);
        let h = spec_hits(edges.drop_last(), tag, kind);
        let k = choose|k: int| 0 <= k < h.len() && h[k] == edges[i].id;
        assert(spec_hits(edges, tag, kind)[k] == edges[i].id);
    } else {
        let h = spec_hits(edges, tag, kind);
        assert(h[h.len() - 1] == edges[i].id);
    }
}

/// The initial state is reachable, and an edge leaving a reachable state
/// leads to a reachable state.
pub proof fn lemma_reachable_closed<M: MachineSpec>(
    edges: Seq<Edge<M>>,
    initial: M::Tag,
    t: M::Tag,
    i: int,
)
    ensures
        reachable(edges, initial, initial),
        reachable(edges, initial, t) && 0 <= i < edges.len() && M::CHECKED_TAGS@.contains(t)
            && edges[i].from.spec_matches(t) ==> (edges[i].goto matches Goto::To(next)
            ==> reachable(edges, initial, next)),
{
    if reachable(edges, initial, t) && 0 <= i < edges.len() && M::CHECKED_TAGS@.contains(t)
        && edges[i].from.spec_matches(t) {
        if let Goto::To(next) = edges[i].goto {
            assert forall|s: Set<M::Tag>| #[trigger]
                closed_under(edges, s) && s.contains(initial) implies s.contains(next) by {
                assert(s.contains(t));
            }
        }
    }
}

/// A row without holes leaves every listed kind handled or ignored.
proof fn lemma_empty_row<M: MachineSpec>(
    edges: Seq<Edge<M>>,
    ignores: Seq<Ignore<M>>,
    t: M::Tag,
    kinds: Seq<KindOf<M>>,
    k: KindOf<M>,
)
    requires
        hole_row(edges, ignores, t, kinds).len() == 0,
        kinds.contains(k),
    ensures
        !is_hole(edges, ignores, t, k),
    decreases kinds.len(),
{
    if kinds.last() != k {
        let j = choose|j: int| 0 <= j < kinds.len() && kinds[j] == k;
        assert(kinds.drop_last()[j] == k);
        lemma_empty_row(edges, ignores, t, kinds.drop_last(), k);
    }
}

/// No holes means that every checked `(state, kind)` combination has an edge
/// or an `Ignore`: what a clean coverage report promises.
pub proof fn lemma_no_holes_means_handled<M: MachineSpec>(
    edges: Seq<Edge<M>>,
    ignores: Seq<Ignore<M>>,
    tags: Seq<M::Tag>,
    kinds: Seq<KindOf<M>>,
    t: M::Tag,
    k: KindOf<M>,
)
    requires
        spec_holes(edges, ignores, tags, kinds).len() == 0,
        tags.contains(t),
        kinds.contains(k),
    ensures
        !is_hole(edges, ignores, t, k),
    decreases tags.len(),
{
    if tags.last() == t {
        lemma_empty_row(edges, ignores, t, kinds, k);
    } else {
        let j = choose|j: int| 0 <= j < tags.len() && tags[j] == t;
        assert(tags.drop_last()[j] == t);
        lemma_no_holes_means_handled(edges, ignores, tags.drop_last(), kinds, t, k);
    }
}

/// No unreachable states means that every checked state can be reached from
/// the initial one.
pub proof fn lemma_none_unreachable<M: MachineSpec>(
    edges: Seq<Edge<M>>,
    initial: M::Tag,
    tags: Seq<M::Tag>,
    t: M::Tag,
)
    requires
        spec_unreachable(edges, initial, tags).len() == 0,
        tags.contains(t),
    ensures
        reachable(edges, initial, t),
    decreases tags.len(),
{
    if tags.last() != t {
        let j = choose|j: int| 0 <= j < tags.len() && tags[j] == t;
        assert(tags.drop_last()[j] == t);
        lemma_none_unreachable(edges, initial, tags.drop_last(), t);
    }
}

/// The label views of a list of `(state, kind)` pairs.
pub open spec fn pair_views(s: Seq<(String, String)>) -> Seq<(Seq<char>, Seq<char>)> {
    s.map_values(|p: (String, String)| (p.0@, p.1@))
}

/// The views of a list of overlaps.
pub open spec fn overlap_views(s: Seq<(String, String, Vec<&'static str>)>) -> Seq<
    (Seq<char>, Seq<char>, Seq<&'static str>),
> {
    s.map_values(|p: (String, String, Vec<&'static str>)| (p.0@, p.1@, p.2@))
}

/// The views of a list of labels.
pub open spec fn string_views(s: Seq<String>) -> Seq<Seq<char>> {
    s.map_values(|p: String| p@)
}

/// The result of checking every `(state × event kind)` combination.
#[derive(Debug)]
pub struct Coverage {
    /// Combinations with neither an edge nor an [`Ignore`]. **Must be empty
    /// in CI.**
    pub holes: Vec<(String, String)>,
    /// Combinations matched by more than one edge. Not necessarily wrong,
    /// since declaration order is priority, but worth a second look.
    pub overlaps: Vec<(String, String, Vec<&'static str>)>,
    /// States that cannot be reached from the initial state.
    pub unreachable: Vec<String>,
    /// Guard node names used by more than one node type. The
    /// [`crate::machine::Memo`] key is the name, so names must be unique.
    pub duplicate_node_names: Vec<&'static str>,
}

impl Coverage {
    /// Whether the table is free of defects.
    pub open spec fn spec_is_clean(&self) -> bool {
        self.holes@.len() == 0 && self.unreachable@.len() == 0
            && self.duplicate_node_names@.len() == 0
    }

    /// Whether the table is free of defects. `overlaps` is excluded: it is a
    /// warning, not an error.
    pub fn is_clean(&self) -> (r: bool)
        ensures
            r == self.spec_is_clean(),
    {
        self.holes.len() == 0 && self.unreachable.len() == 0 && self.duplicate_node_names.len() == 0
    }
}

impl Default for Coverage {
    fn default() -> (r: Self)
        ensures
            r.holes@.len() == 0,
            r.overlaps@.len() == 0,
            r.unreachable@.len() == 0,
            r.duplicate_node_names@.len() == 0,
    {
        Coverage {
            holes: Vec::new(),
            overlaps: Vec::new(),
            unreachable: Vec::new(),
            duplicate_node_names: Vec::new(),
        }
    }
}

/// The ids of the edges that depart from `tag` on `kind`, in table order.
fn hits_of<M: MachineSpec>(edges: &'static [Edge<M>], tag: M::Tag, kind: KindOf<M>) -> (r: Vec<
    &'static str,
>)
    ensures
        r@ == spec_hits(edges@, tag, kind),
{
    let mut out: Vec<&'static str> = Vec::new();
    let mut i: usize = 0;
    while i < edges.len()
        invariant
            i <= edges@.len(),
            out@ == spec_hits(edges@.take(i as int), tag, kind),
        decreases edges@.len() - i,
    {
        proof {
            assert(edges@.take(i + 1).drop_last() =~= edges@.take(i as int));
        }
        let e = &edges[i];
        if e.when.same(&kind) && e.from.matches(tag) {
            out.push(e.id);
        }
        proof {
            assert(out@ =~= spec_hits(edges@.take(i + 1), tag, kind));
        }
        i += 1;
    }
    proof {
        assert(edges@.take(edges@.len() as int) =~= edges@);
    }
    out
}

/// Whether some `Ignore` covers `(tag, kind)`.
pub(crate) fn ignored<M: MachineSpec>(ignores: &'static [Ignore<M>], tag: M::Tag, kind: KindOf<M>) -> (r:
    bool)
    ensures
        r == spec_ignored(ignores@, tag, kind),
{
    let mut i: usize = 0;
    while i < ignores.len()
        invariant
            i <= ignores@.len(),
            forall|k: int| 0 <= k < i ==> !(#[trigger] ignores@[k]).spec_matches(tag, kind),
        decreases ignores@.len() - i,
    {
        if ignores[i].matches(tag, kind) {
            return true;
        }
        i += 1;
    }
    false
}

/// Every element of `s` occurs in `u`, and `s` has no duplicates, so `s` is
/// no longer than `u`.
proof fn lemma_distinct_within<T>(s: Seq<T>, u: Seq<T>)
    requires
        s.no_duplicates(),
        forall|k: int| 0 <= k < s.len() ==> u.contains(#[trigger] s[k]),
    ensures
        s.len() <= u.len(),
{
    s.unique_seq_to_set();
    u.lemma_cardinality_of_set();
    assert(s.to_set().subset_of(u.to_set())) by {
        assert forall|x: T| s.to_set().contains(x) implies u.to_set().contains(x) by {
            let k = choose|k: int| 0 <= k < s.len() && s[k] == x;
            assert(u.contains(s[k]));
        }
    }
    vstd::set_lib::lemma_len_subset(s.to_set(), u.to_set());
}

/// `initial` followed by the target of every edge (`initial` again for an
/// internal edge): everything reachability can ever add.
pub open spec fn spec_targets<M: MachineSpec>(initial: M::Tag, edges: Seq<Edge<M>>) -> Seq<M::Tag> {
    seq![initial] + edges.map_values(
        |e: Edge<M>|
            match e.goto {
                Goto::To(next) => next,
                Goto::Internal => initial,
            },
    )
}

/// Whether some state in `tags` is in `reached`.
fn any_reached<T: Enumerable>(tags: &Vec<T>, reached: &Vec<T>) -> (r: bool)
    ensures
        r == exists|k: int| 0 <= k < tags@.len() && reached@.contains(#[trigger] tags@[k]),
{
    let mut i: usize = 0;
    while i < tags.len()
        invariant
            i <= tags@.len(),
            forall|k: int| 0 <= k < i ==> !reached@.contains(#[trigger] tags@[k]),
        decreases tags@.len() - i,
    {
        if vec_contains(reached, &tags[i]) {
            return true;
        }
        i += 1;
    }
    false
}

/// The states reachable from `initial`, in discovery order: iterate over the
/// edges until a full pass adds nothing.
fn reach<M: MachineSpec>(initial: M::Tag, edges: &'static [Edge<M>]) -> (r: Vec<M::Tag>)
    ensures
        r@.contains(initial),
        closed_under(edges@, r@.to_set()),
        forall|t: M::Tag| r@.contains(t) ==> reachable(edges@, initial, t),
{
    let mut reached: Vec<M::Tag> = Vec::new();
    reached.push(initial);
    let ghost targets = spec_targets(initial, edges@);
    proof {
        assert(reached@[0] == initial);
        assert(targets[0] == initial);
        assert forall|s: Set<M::Tag>| #[trigger]
            closed_under(edges@, s) && s.contains(initial) implies s.contains(initial) by {}
    }
    loop
        invariant
            reached@.len() >= 1,
            reached@[0] == initial,
            reached@.no_duplicates(),
            targets == spec_targets(initial, edges@),
            forall|k: int| 0 <= k < reached@.len() ==> targets.contains(#[trigger] reached@[k]),
            forall|t: M::Tag| reached@.contains(t) ==> reachable(edges@, initial, t),
        ensures
            reached@[0] == initial,
            forall|t: M::Tag| reached@.contains(t) ==> reachable(edges@, initial, t),
            forall|i: int, t: M::Tag|
                #![trigger edges@[i], reached@.contains(t)]
                0 <= i < edges@.len() && reached@.contains(t) && M::CHECKED_TAGS@.contains(t)
                    && edges@[i].from.spec_matches(t) ==> (edges@[i].goto matches Goto::To(next)
                    ==> reached@.contains(next)),
        decreases edges@.len() + 1 - reached@.len(),
    {
        proof {
            lemma_distinct_within(reached@, targets);
        }
        let before = reached.len();
        let mut j: usize = 0;
        while j < edges.len()
            invariant
                j <= edges@.len(),
                before <= reached@.len(),
                reached@.len() >= 1,
                reached@[0] == initial,
                reached@.no_duplicates(),
                targets == spec_targets(initial, edges@),
                forall|k: int| 0 <= k < reached@.len() ==> targets.contains(#[trigger] reached@[k]),
                forall|t: M::Tag| reached@.contains(t) ==> reachable(edges@, initial, t),
                reached@.len() == before ==> forall|i: int, t: M::Tag|
                    #![trigger edges@[i], reached@.contains(t)]
                    0 <= i < j && reached@.contains(t) && M::CHECKED_TAGS@.contains(t)
                        && edges@[i].from.spec_matches(t) ==> (edges@[i].goto matches Goto::To(
                        next,
                    ) ==> reached@.contains(next)),
            decreases edges@.len() - j,
        {
            let e = &edges[j];
            let ghost prev = reached@;
            proof {
                assert(edges@[j as int] == *e);
            }
            match e.goto {
                Goto::To(next) => {
                    if !vec_contains(&reached, &next) {
                        let from = e.from.expand();
                        let ghost pred = |x: M::Tag| e.from.spec_matches(x);
                        proof {
                            assert(from@ == M::CHECKED_TAGS@.filter(pred));
                        }
                        if any_reached(&from, &reached) {
                            proof {
                                let k = choose|k: int|
                                    0 <= k < from@.len() && reached@.contains(#[trigger] from@[k]);
                                let t = from@[k];
                                M::CHECKED_TAGS@.lemma_filter_pred(pred, k);
                                M::CHECKED_TAGS@.lemma_filter_contains_rev(pred, t);
                                assert(from@.contains(t));
                                assert(reachable(edges@, initial, t));
                                assert forall|s: Set<M::Tag>| #[trigger]
                                    closed_under(edges@, s) && s.contains(initial) implies s.contains(
                                    next,
                                ) by {
                                    assert(s.contains(t));
                                }
                                assert(reachable(edges@, initial, next));
                                assert(targets[j + 1] == next);
                            }
                            reached.push(next);
                            proof {
                                assert(reached@ == prev.push(next));
                                assert forall|k: int| 0 <= k < reached@.len() implies targets.contains(
                                    #[trigger] reached@[k],
                                ) by {
                                    if k == reached@.len() - 1 {
                                        assert(targets[j + 1] == reached@[k]);
                                    } else {
                                        assert(reached@[k] == prev[k]);
                                    }
                                }
                                assert forall|t: M::Tag| reached@.contains(t) implies reachable(
                                    edges@,
                                    initial,
                                    t,
                                ) by {
                                    if t != next {
                                        let k = choose|k: int| 0 <= k < reached@.len() && reached@[k] == t;
                                        assert(prev[k] == t);
                                        assert(prev.contains(t));
                                    }
                                }
                            }
                        } else {
                            proof {
                                assert forall|t: M::Tag|
                                    reached@.contains(t) && M::CHECKED_TAGS@.contains(t)
                                        && e.from.spec_matches(t) implies false by {
                                    let idx = M::CHECKED_TAGS@.index_of(t);
                                    M::CHECKED_TAGS@.lemma_filter_contains(pred, idx);
                                    let k = choose|k: int| 0 <= k < from@.len() && from@[k] == t;
                                    assert(reached@.contains(from@[k]));
                                }
                            }
                        }
                    }
                },
                Goto::Internal => {},
            }
            j += 1;
        }
        proof {
            lemma_distinct_within(reached@, targets);
        }
        if reached.len() == before {
            break;
        }
    }
    proof {
        assert forall|i: int, t: M::Tag|
            #![trigger edges@[i], reached@.to_set().contains(t)]
            0 <= i < edges@.len() && reached@.to_set().contains(t) && M::CHECKED_TAGS@.contains(t)
                && edges@[i].from.spec_matches(t) implies (edges@[i].goto matches Goto::To(next)
            ==> reached@.to_set().contains(next)) by {
            assert(reached@.contains(t));
            if let Goto::To(next) = edges@[i].goto {
                assert(reached@.contains(next));
            }
        }
        assert(reached@.contains(reached@[0]));
    }
    reached
}
/// The name and type of every guard node in the table, edge by edge.
pub open spec fn spec_edge_node_ids<M: MachineSpec>(edges: Seq<Edge<M>>) -> Seq<(Seq<char>, TypeId)>
    decreases edges.len(),
{
    if edges.len() == 0 {
        Seq::empty()
    } else {
        spec_edge_node_ids(edges.drop_last()) + edges.last().check.spec_node_ids()
    }
}

/// `a` comes before `b` in the order of their characters, compared one by
/// one; a proper prefix comes first.
pub open spec fn char_lt(a: Seq<char>, b: Seq<char>) -> bool
    decreases a.len(),
{
    if b.len() == 0 {
        false
    } else if a.len() == 0 {
        true
    } else if a[0] != b[0] {
        (a[0] as int) < (b[0] as int)
    } else {
        char_lt(a.drop_first(), b.drop_first())
    }
}

/// The order of [`char_lt`] is transitive.
pub proof fn lemma_char_lt_transitive(a: Seq<char>, b: Seq<char>, c: Seq<char>)
    requires
        char_lt(a, b),
        char_lt(b, c),
    ensures
        char_lt(a, c),
    decreases a.len(),
{
    if a.len() > 0 && a[0] == b[0] && b[0] == c[0] {
        lemma_char_lt_transitive(a.drop_first(), b.drop_first(), c.drop_first());
    }
}

/// Of two different strings, one comes before the other.
pub proof fn lemma_char_lt_total(a: Seq<char>, b: Seq<char>)
    ensures
        a == b || char_lt(a, b) || char_lt(b, a),
    decreases a.len(),
{
    if a.len() > 0 && b.len() > 0 && a[0] == b[0] {
        lemma_char_lt_total(a.drop_first(), b.drop_first());
        if a.drop_first() == b.drop_first() {
            assert(a =~= seq![a[0]] + a.drop_first());
            assert(b =~= seq![b[0]] + b.drop_first());
        }
    } else if a.len() == 0 && b.len() == 0 {
        assert(a =~= b);
    } else if a.len() > 0 && b.len() > 0 {
        assert((a[0] as int) != (b[0] as int));
    }
}

/// `n` is a name that `ids` holds under two different node types.
pub open spec fn is_duplicate(ids: Seq<(Seq<char>, TypeId)>, n: Seq<char>) -> bool {
    exists|x: int, y: int|
        0 <= x < ids.len() && 0 <= y < ids.len() && #[trigger] ids[x].0 == n && #[trigger] ids[y].0
            == n && ids[x].1 != ids[y].1
}

/// Every name in `s` comes before every later one.
pub open spec fn strictly_sorted(s: Seq<Seq<char>>) -> bool {
    forall|i: int, j: int| 0 <= i < j < s.len() ==> char_lt(#[trigger] s[i], #[trigger] s[j])
}

/// The views of a list of names.
pub open spec fn str_views(s: Seq<&'static str>) -> Seq<Seq<char>> {
    s.map_values(|p: &'static str| p@)
}

/// The views of collected `(name, type)` pairs.
pub open spec fn id_views(s: Seq<(&'static str, TypeId)>) -> Seq<(Seq<char>, TypeId)> {
    s.map_values(|p: (&'static str, TypeId)| (p.0@, p.1))
}

/// `out` is the sorted list of the names that `ids` holds under two node
/// types.
pub open spec fn duplicates_of(ids: Seq<(Seq<char>, TypeId)>, out: Seq<Seq<char>>) -> bool {
    &&& strictly_sorted(out)
    &&& forall|n: Seq<char>| out.contains(n) <==> is_duplicate(ids, n)
}

/// Inserts `n` into a strictly sorted list that does not hold it, keeping it
/// strictly sorted.
fn insert_sorted(out: &mut Vec<&'static str>, n: &'static str)
    requires
        strictly_sorted(str_views(old(out)@)),
        !str_views(old(out)@).contains(n@),
    ensures
        strictly_sorted(str_views(final(out)@)),
        forall|x: Seq<char>| str_views(final(out)@).contains(x) <==> (str_views(old(out)@).contains(x) || x == n@),
{
    let ghost v0 = str_views(out@);
    let mut p: usize = 0;
    while p < out.len()
        invariant
            p <= out@.len(),
            out@.len() == v0.len(),
            v0 == str_views(out@),
            !v0.contains(n@),
            forall|k: int| 0 <= k < p ==> char_lt(#[trigger] v0[k], n@),
        ensures
            p <= out@.len(),
            forall|k: int| 0 <= k < p ==> char_lt(#[trigger] v0[k], n@),
            p < out@.len() ==> char_lt(n@, v0[p as int]),
        decreases out@.len() - p,
    {
        if str_lt(n, out[p]) {
            proof {
                assert(v0[p as int] == out@[p as int]@);
            }
            break;
        }
        proof {
            assert(v0[p as int] == out@[p as int]@);
            lemma_char_lt_total(n@, v0[p as int]);
            assert(v0[p as int] != n@);
        }
        p += 1;
    }
    let ghost p0 = p;
    out.insert(p, n);
    proof {
        let v1 = str_views(out@);
        assert(v1 =~= v0.insert(p as int, n@));
        assert forall|i: int, j: int| 0 <= i < j < v1.len() implies char_lt(#[trigger] v1[i], #[trigger] v1[j]) by {
            if j < p {
                assert(v1[i] == v0[i] && v1[j] == v0[j]);
            } else if j == p {
                assert(v1[i] == v0[i]);
            } else if i == p {
                assert(v1[j] == v0[j - 1]);
                if j - 1 > p {
                    lemma_char_lt_transitive(n@, v0[p as int], v0[j - 1]);
                }
            } else if i < p {
                assert(v1[i] == v0[i] && v1[j] == v0[j - 1]);
                lemma_char_lt_transitive(v0[i], n@, v0[p as int]);
                if j - 1 > p {
                    lemma_char_lt_transitive(v0[i], v0[p as int], v0[j - 1]);
                }
            } else {
                assert(v1[i] == v0[i - 1] && v1[j] == v0[j - 1]);
            }
        }
        assert forall|x: Seq<char>| v1.contains(x) <==> (v0.contains(x) || x == n@) by {
            if v1.contains(x) {
                let k = choose|k: int| 0 <= k < v1.len() && v1[k] == x;
                if k < p {
                    assert(v0[k] == x);
                } else if k > p {
                    assert(v0[k - 1] == x);
                }
            }
            if v0.contains(x) {
                let k = choose|k: int| 0 <= k < v0.len() && v0[k] == x;
                if k < p {
                    assert(v1[k] == x);
                } else {
                    assert(v1[k + 1] == x);
                }
            }
            if x == n@ {
                assert(v1[p as int] == x);
            }
        }
    }
}

/// The sorted names that more than one node type uses among `ids`.
fn duplicate_names(ids: &Vec<(&'static str, TypeId)>) -> (r: Vec<&'static str>)
    ensures
        duplicates_of(id_views(ids@), str_views(r@)),
{
    let ghost v = id_views(ids@);
    let mut out: Vec<&'static str> = Vec::new();
    let mut a: usize = 0;
    proof {
        assert(str_views(out@) =~= Seq::<Seq<char>>::empty());
    }
    while a < ids.len()
        invariant
            a <= ids@.len(),
            v == id_views(ids@),
            strictly_sorted(str_views(out@)),
            forall|n: Seq<char>| str_views(out@).contains(n) ==> is_duplicate(v, n),
            forall|k: int| 0 <= k < a && is_duplicate(v, #[trigger] v[k].0) ==> str_views(out@).contains(v[k].0),
        decreases ids@.len() - a,
    {
        let name = ids[a].0;
        let mut dup = false;
        let mut b: usize = 0;
        while b < ids.len()
            invariant
                a < ids@.len(),
                b <= ids@.len(),
                v == id_views(ids@),
                name@ == v[a as int].0,
                dup ==> is_duplicate(v, name@),
                !dup ==> forall|k: int| 0 <= k < b && #[trigger] v[k].0 == name@ ==> v[k].1 == v[a as int].1,
            decreases ids@.len() - b,
        {
            if str_eq(ids[b].0, name) && !same_type(&ids[b].1, &ids[a].1) {
                proof {
                    assert(v[b as int].0 == name@ && v[b as int].1 != v[a as int].1);
                }
                dup = true;
            }
            b += 1;
        }
        proof {
            if !dup && is_duplicate(v, name@) {
                let (x, y) = choose|x: int, y: int|
                    0 <= x < v.len() && 0 <= y < v.len() && #[trigger] v[x].0 == name@ && #[trigger] v[y].0
                        == name@ && v[x].1 != v[y].1;
                assert(v[x].1 == v[a as int].1);
                assert(v[y].1 == v[a as int].1);
            }
        }
        if dup && !str_vec_contains(&out, name) {
            insert_sorted(&mut out, name);
        }
        a += 1;
    }
    out
}

/// Whether `list` holds a string with the contents of `name`.
fn str_vec_contains(list: &Vec<&'static str>, name: &'static str) -> (r: bool)
    ensures
        r == str_views(list@).contains(name@),
{
    let mut i: usize = 0;
    while i < list.len()
        invariant
            i <= list@.len(),
            forall|k: int| 0 <= k < i ==> #[trigger] str_views(list@)[k] != name@,
        decreases list@.len() - i,
    {
        if str_eq(list[i], name) {
            proof {
                assert(str_views(list@)[i as int] == name@);
            }
            return true;
        }
        i += 1;
    }
    false
}

/// The table has no holes, no state unreachable from `initial`, and no guard
/// node name shared by two node types: what [`Coverage::is_clean`] reports.
pub open spec fn coverage_clean<M: MachineSpec>(
    initial: M::Tag,
    edges: Seq<Edge<M>>,
    ignores: Seq<Ignore<M>>,
) -> bool {
    &&& spec_holes(edges, ignores, M::CHECKED_TAGS@, <M::Domain as Domain>::CHECKED_KINDS@).len()
        == 0
    &&& spec_unreachable(edges, initial, M::CHECKED_TAGS@).len() == 0
    &&& forall|n: Seq<char>| !is_duplicate(spec_edge_node_ids(edges), n)
}

/// Checks the transition table: every `(state × event kind)` combination of
/// [`MachineSpec::all_tags`] and [`Domain::all_kinds`], reachability from
/// `initial`, and guard name uniqueness.
pub fn coverage<M: MachineSpec>(
    initial: M::Tag,
    edges: &'static [Edge<M>],
    ignores: &'static [Ignore<M>],
) -> (r: Coverage)
    ensures
        pair_views(r.holes@) == spec_holes(
            edges@,
            ignores@,
            M::CHECKED_TAGS@,
            <M::Domain as Domain>::CHECKED_KINDS@,
        ),
        overlap_views(r.overlaps@) == spec_overlaps(
            edges@,
            M::CHECKED_TAGS@,
            <M::Domain as Domain>::CHECKED_KINDS@,
        ),
        string_views(r.unreachable@) == spec_unreachable(edges@, initial, M::CHECKED_TAGS@),
        duplicates_of(spec_edge_node_ids(edges@), str_views(r.duplicate_node_names@)),
        r.spec_is_clean() <==> coverage_clean(initial, edges@, ignores@),
{
    let mut out = Coverage::default();
    let tags = M::all_tags();
    let kinds = <M::Domain as Domain>::all_kinds();

    let mut i: usize = 0;
    proof {
        assert(pair_views(out.holes@) =~= Seq::<(Seq<char>, Seq<char>)>::empty());
        assert(overlap_views(out.overlaps@) =~= Seq::<(Seq<char>, Seq<char>, Seq<&'static str>)>::empty());
    }
    while i < tags.len()
        invariant
            tags@ == M::CHECKED_TAGS@,
            kinds@ == <M::Domain as Domain>::CHECKED_KINDS@,
            i <= tags@.len(),
            pair_views(out.holes@) == spec_holes(edges@, ignores@, tags@.take(i as int), kinds@),
            overlap_views(out.overlaps@) == spec_overlaps(edges@, tags@.take(i as int), kinds@),
            out.unreachable@.len() == 0,
            out.duplicate_node_names@.len() == 0,
        decreases tags@.len() - i,
    {
        let tag = tags[i];
        let ghost holes0 = pair_views(out.holes@);
        let ghost overlaps0 = overlap_views(out.overlaps@);
        let mut j: usize = 0;
        proof {
            assert(kinds@.take(0) =~= Seq::<KindOf<M>>::empty());
        }
        while j < kinds.len()
            invariant
                tags@ == M::CHECKED_TAGS@,
                kinds@ == <M::Domain as Domain>::CHECKED_KINDS@,
                i < tags@.len(),
                tag == tags@[i as int],
                j <= kinds@.len(),
                holes0 == spec_holes(edges@, ignores@, tags@.take(i as int), kinds@),
                overlaps0 == spec_overlaps(edges@, tags@.take(i as int), kinds@),
                pair_views(out.holes@) == holes0 + hole_row(edges@, ignores@, tag, kinds@.take(j as int)),
                overlap_views(out.overlaps@) == overlaps0 + overlap_row(edges@, tag, kinds@.take(j as int)),
                out.unreachable@.len() == 0,
                out.duplicate_node_names@.len() == 0,
            decreases kinds@.len() - j,
        {
            let kind = kinds[j];
            let hits = hits_of(edges, tag, kind);
            proof {
                assert(kinds@.take(j + 1).drop_last() =~= kinds@.take(j as int));
                assert(kinds@.take(j + 1).last() == kind);
            }
            if hits.len() == 0 {
                if !ignored(ignores, tag, kind) {
                    let ghost before = out.holes@;
                    out.holes.push((label(&tag), label(&kind)));
                    proof {
                        assert(pair_views(out.holes@) =~= pair_views(before).push((name_of(tag), name_of(kind))));
                    }
                }
            } else if hits.len() > 1 {
                let ghost before = out.overlaps@;
                out.overlaps.push((label(&tag), label(&kind), hits));
                proof {
                    assert(overlap_views(out.overlaps@) =~= overlap_views(before).push(
                        (name_of(tag), name_of(kind), spec_hits(edges@, tag, kind)),
                    ));
                }
            }
            proof {
                assert(pair_views(out.holes@) =~= holes0 + hole_row(edges@, ignores@, tag, kinds@.take(j + 1)));
                assert(overlap_views(out.overlaps@) =~= overlaps0 + overlap_row(edges@, tag, kinds@.take(j + 1)));
            }
            j += 1;
        }
        proof {
            assert(kinds@.take(kinds@.len() as int) =~= kinds@);
            assert(tags@.take(i + 1).drop_last() =~= tags@.take(i as int));
            assert(tags@.take(i + 1).last() == tag);
            assert(pair_views(out.holes@) =~= spec_holes(edges@, ignores@, tags@.take(i + 1), kinds@));
            assert(overlap_views(out.overlaps@) =~= spec_overlaps(edges@, tags@.take(i + 1), kinds@));
        }
        i += 1;
    }
    proof {
        assert(tags@.take(tags@.len() as int) =~= tags@);
    }

    let reached = reach(initial, edges);
    let mut i: usize = 0;
    proof {
        assert(string_views(out.unreachable@) =~= Seq::<Seq<char>>::empty());
        assert(tags@.take(0) =~= Seq::<M::Tag>::empty());
    }
    while i < tags.len()
        invariant
            tags@ == M::CHECKED_TAGS@,
            i <= tags@.len(),
            reached@.contains(initial),
            closed_under(edges@, reached@.to_set()),
            forall|t: M::Tag| reached@.contains(t) ==> reachable(edges@, initial, t),
            string_views(out.unreachable@) == spec_unreachable(edges@, initial, tags@.take(i as int)),
            pair_views(out.holes@) == spec_holes(edges@, ignores@, M::CHECKED_TAGS@, <M::Domain as Domain>::CHECKED_KINDS@),
            overlap_views(out.overlaps@) == spec_overlaps(edges@, M::CHECKED_TAGS@, <M::Domain as Domain>::CHECKED_KINDS@),
            out.duplicate_node_names@.len() == 0,
        decreases tags@.len() - i,
    {
        let tag = tags[i];
        proof {
            assert(tags@.take(i + 1).drop_last() =~= tags@.take(i as int));
            assert(tags@.take(i + 1).last() == tag);
            if !reached@.contains(tag) {
                assert(reached@.to_set().contains(initial));
                assert(!reached@.to_set().contains(tag));
                assert(!reachable(edges@, initial, tag));
            }
        }
        if !vec_contains(&reached, &tag) {
            let ghost before = out.unreachable@;
            out.unreachable.push(label(&tag));
            proof {
                assert(string_views(out.unreachable@) =~= string_views(before).push(name_of(tag)));
            }
        }
        proof {
            assert(string_views(out.unreachable@) =~= spec_unreachable(edges@, initial, tags@.take(i + 1)));
        }
        i += 1;
    }
    proof {
        assert(tags@.take(tags@.len() as int) =~= tags@);
    }

    let mut ids: Vec<(&'static str, TypeId)> = Vec::new();
    let mut k: usize = 0;
    proof {
        assert(id_views(ids@) =~= spec_edge_node_ids(edges@.take(0)));
    }
    while k < edges.len()
        invariant
            k <= edges@.len(),
            id_views(ids@) == spec_edge_node_ids(edges@.take(k as int)),
        decreases edges@.len() - k,
    {
        let ghost before = ids@;
        edges[k].check.node_ids(&mut ids);
        proof {
            assert(edges@.take(k + 1).drop_last() =~= edges@.take(k as int));
            assert(edges@.take(k + 1).last() == edges@[k as int]);
            let names = edges@[k as int].check.spec_node_ids();
            assert forall|x: int| 0 <= x < before.len() implies #[trigger] ids@[x] == before[x] by {
                assert(ids@.take(before.len() as int)[x] == ids@[x]);
            }
            let lhs = id_views(ids@);
            let rhs = id_views(before) + names;
            assert(lhs.len() == rhs.len());
            assert forall|x: int| 0 <= x < lhs.len() implies lhs[x] == rhs[x] by {
                if x < before.len() {
                    assert(ids@[x] == before[x]);
                } else {
                    let y = x - before.len();
                    assert((ids@[before.len() + y].0@, ids@[before.len() + y].1) == names[y]);
                }
            }
            assert(lhs =~= rhs);
        }
        k += 1;
    }
    proof {
        assert(edges@.take(edges@.len() as int) =~= edges@);
    }
    out.duplicate_node_names = duplicate_names(&ids);
    proof {
        let v = spec_edge_node_ids(edges@);
        let d = str_views(out.duplicate_node_names@);
        if d.len() > 0 {
            assert(d.contains(d[0]));
            assert(is_duplicate(v, d[0]));
        }
    }
    out
}

} // verus!
