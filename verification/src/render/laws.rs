//! What the generated documents and the coverage report hold, stated over
//! the tables alone.

use vstd::prelude::*;

use crate::machine::{candidate, has_state, state_for, Edge, Goto, Ignore, State};
use crate::render::{
    arrow_lines, edge_label, edge_lines, edge_suffix, hole_row, spec_holes, spec_ignored,
    guard_cell, ignore_body, ignore_cells, ignore_rows, internal_body, internal_header,
    internal_rows, overlap_row, reachable, spec_hits, spec_join, spec_mermaid, spec_overlaps,
    spec_unreachable, state_line, state_lines,
};
use crate::{name_of, KindOf, MachineSpec};

verus! {

/// `sub` occurs in `s` as a run of consecutive characters.
pub open spec fn has_sub(s: Seq<char>, sub: Seq<char>) -> bool {
    exists|i: int| 0 <= i <= s.len() - sub.len() && #[trigger] s.subrange(i, i + sub.len()) == sub
}

/// A text occurs in any text it stands in the middle of.
proof fn lemma_sub_mid(a: Seq<char>, sub: Seq<char>, b: Seq<char>)
    ensures
        has_sub(a + sub + b, sub),
{
    let s = a + sub + b;
    assert(s.subrange(a.len() as int, (a.len() + sub.len()) as int) =~= sub);
}

/// Occurring in is transitive.
proof fn lemma_sub_trans(s: Seq<char>, t: Seq<char>, u: Seq<char>)
    requires
        has_sub(s, t),
        has_sub(t, u),
    ensures
        has_sub(s, u),
{
    let i = choose|i: int| 0 <= i <= s.len() - t.len() && #[trigger] s.subrange(i, i + t.len()) == t;
    let j = choose|j: int| 0 <= j <= t.len() - u.len() && #[trigger] t.subrange(j, j + u.len()) == u;
    assert(s.subrange(i + j, i + j + u.len()) =~= t.subrange(j, j + u.len()));
}

/// What occurs in `a` occurs in `a + b`.
proof fn lemma_sub_left(a: Seq<char>, b: Seq<char>, sub: Seq<char>)
    requires
        has_sub(a, sub),
    ensures
        has_sub(a + b, sub),
{
    lemma_sub_mid(Seq::empty(), a, b);
    assert(Seq::<char>::empty() + a + b =~= a + b);
    lemma_sub_trans(a + b, a, sub);
}

/// What occurs in `b` occurs in `a + b`.
proof fn lemma_sub_right(a: Seq<char>, b: Seq<char>, sub: Seq<char>)
    requires
        has_sub(b, sub),
    ensures
        has_sub(a + b, sub),
{
    lemma_sub_mid(a, b, Seq::empty());
    assert(a + b + Seq::<char>::empty() =~= a + b);
    lemma_sub_trans(a + b, b, sub);
}

/// A text occurs in any text it begins.
proof fn lemma_sub_prefix(sub: Seq<char>, rest: Seq<char>)
    ensures
        has_sub(sub + rest, sub),
{
    lemma_sub_mid(Seq::empty(), sub, rest);
    assert(Seq::<char>::empty() + sub + rest =~= sub + rest);
}

// ------------------------------------------------------------------ diagram

/// The state lines of `tags` hold the line of each of them.
proof fn lemma_state_lines_hold<M: MachineSpec>(states: Seq<State<M>>, tags: Seq<M::Tag>, j: int)
    requires
        0 <= j < tags.len(),
    ensures
        has_sub(state_lines(states, tags), state_line(states, tags[j])),
    decreases tags.len(),
{
    let init = state_lines(states, tags.drop_last());
    let last = state_line(states, tags.last());
    assert(state_lines(states, tags) == init + last);
    if j == tags.len() - 1 {
        lemma_sub_mid(init, last, Seq::empty());
        assert(init + last + Seq::<char>::empty() =~= init + last);
    } else {
        lemma_state_lines_hold(states, tags.drop_last(), j);
        assert(tags.drop_last()[j] == tags[j]);
        lemma_sub_left(init, last, state_line(states, tags[j]));
    }
}

/// The diagram holds the line of every checked tag.
proof fn lemma_mermaid_holds_line<M: MachineSpec>(
    initial: M::Tag,
    edges: Seq<Edge<M>>,
    states: Seq<State<M>>,
    t: M::Tag,
)
    requires
        M::CHECKED_TAGS@.contains(t),
    ensures
        has_sub(spec_mermaid(initial, edges, states), state_line(states, t)),
{
    let tags = M::CHECKED_TAGS@;
    let j = choose|j: int| 0 <= j < tags.len() && tags[j] == t;
    lemma_state_lines_hold(states, tags, j);
    let head = "stateDiagram-v2\n"@ + "    [*] --> "@ + name_of(initial) + "\n"@;
    let lines = state_lines(states, tags);
    assert(spec_mermaid(initial, edges, states) == head + lines + crate::render::edge_lines(edges));
    lemma_sub_mid(head, lines, crate::render::edge_lines(edges));
    lemma_sub_trans(spec_mermaid(initial, edges, states), lines, state_line(states, t));
}

/// Every checked state with entry actions is drawn with them: the diagram
/// holds the line `    S : S<br/>entry / A, B, ...` naming the state and
/// the labels of all its entry actions, in order.
pub proof fn lemma_mermaid_draws_entry_actions<M: MachineSpec>(
    initial: M::Tag,
    edges: Seq<Edge<M>>,
    states: Seq<State<M>>,
    t: M::Tag,
)
    requires
        M::CHECKED_TAGS@.contains(t),
        has_state(states, t),
        state_for(states, t).entry@.len() > 0,
    ensures
        has_sub(
            spec_mermaid(initial, edges, states),
            "    "@ + name_of(t) + " : "@ + name_of(t) + "<br/>"@ + "entry / "@ + spec_join(
                state_for(states, t).entry@,
            ),
        ),
{
    let st = state_for(states, t);
    let needle = "    "@ + name_of(t) + " : "@ + name_of(t) + "<br/>"@ + "entry / "@ + spec_join(st.entry@);
    let desc = crate::render::state_desc(st);
    assert(state_line(states, t) == "    "@ + name_of(t) + " : "@ + name_of(t) + "<br/>"@ + desc
        + "\n"@);
    if st.exit@.len() > 0 {
        let rest = "<br/>"@ + ("exit / "@ + spec_join(st.exit@)) + "\n"@;
        assert(desc == "entry / "@ + spec_join(st.entry@) + "<br/>"@ + ("exit / "@ + spec_join(
            st.exit@,
        )));
        assert(state_line(states, t) =~= needle + rest);
        lemma_sub_prefix(needle, rest);
    } else {
        let rest = "\n"@;
        assert(desc == "entry / "@ + spec_join(st.entry@));
        assert(state_line(states, t) =~= needle + rest);
        lemma_sub_prefix(needle, rest);
    }
    lemma_mermaid_holds_line(initial, edges, states, t);
    lemma_sub_trans(spec_mermaid(initial, edges, states), state_line(states, t), needle);
}

/// Every checked state with exit actions is drawn with them: the diagram
/// holds a line naming the state, then its entry actions when it has any,
/// then `exit / ` and the labels of all its exit actions, in order.
pub proof fn lemma_mermaid_draws_exit_actions<M: MachineSpec>(
    initial: M::Tag,
    edges: Seq<Edge<M>>,
    states: Seq<State<M>>,
    t: M::Tag,
)
    requires
        M::CHECKED_TAGS@.contains(t),
        has_state(states, t),
        state_for(states, t).exit@.len() > 0,
    ensures
        has_sub(
            spec_mermaid(initial, edges, states),
            "    "@ + name_of(t) + " : "@ + name_of(t) + "<br/>"@ + (if state_for(
                states,
                t,
            ).entry@.len() > 0 {
                "entry / "@ + spec_join(state_for(states, t).entry@) + "<br/>"@
            } else {
                Seq::empty()
            }) + "exit / "@ + spec_join(state_for(states, t).exit@) + "\n"@,
        ),
{
    let st = state_for(states, t);
    let needle = "    "@ + name_of(t) + " : "@ + name_of(t) + "<br/>"@ + (if st.entry@.len() > 0 {
        "entry / "@ + spec_join(st.entry@) + "<br/>"@
    } else {
        Seq::empty()
    }) + "exit / "@ + spec_join(st.exit@) + "\n"@;
    let desc = crate::render::state_desc(st);
    assert(state_line(states, t) == "    "@ + name_of(t) + " : "@ + name_of(t) + "<br/>"@ + desc
        + "\n"@);
    if st.entry@.len() > 0 {
        assert(desc == "entry / "@ + spec_join(st.entry@) + "<br/>"@ + ("exit / "@ + spec_join(
            st.exit@,
        )));
    } else {
        assert(desc == "exit / "@ + spec_join(st.exit@));
    }
    assert(state_line(states, t) =~= needle);
    lemma_sub_prefix(needle, Seq::empty());
    assert(needle + Seq::<char>::empty() =~= needle);
    lemma_mermaid_holds_line(initial, edges, states, t);
    lemma_sub_trans(spec_mermaid(initial, edges, states), state_line(states, t), needle);
}

/// The line drawn for edge `e` from `t` to `next`.
spec fn arrow_of<M: MachineSpec>(e: Edge<M>, t: M::Tag, next: M::Tag) -> Seq<char> {
    "    "@ + name_of(t) + " --> "@ + name_of(next) + ": "@ + edge_label(e) + edge_suffix(e) + "\n"@
}

proof fn lemma_arrow_lines_hold<M: MachineSpec>(e: Edge<M>, next: M::Tag, froms: Seq<M::Tag>, j: int)
    requires
        0 <= j < froms.len(),
    ensures
        has_sub(arrow_lines(e, next, froms), arrow_of(e, froms[j], next)),
    decreases froms.len(),
{
    let init = arrow_lines(e, next, froms.drop_last());
    let last = arrow_of(e, froms.last(), next);
    assert(arrow_lines(e, next, froms) =~= init + last);
    if j == froms.len() - 1 {
        lemma_sub_mid(init, last, Seq::empty());
        assert(init + last + Seq::<char>::empty() =~= init + last);
    } else {
        lemma_arrow_lines_hold(e, next, froms.drop_last(), j);
        assert(froms.drop_last()[j] == froms[j]);
        lemma_sub_left(init, last, arrow_of(e, froms[j], next));
    }
}

proof fn lemma_edge_lines_hold<M: MachineSpec>(edges: Seq<Edge<M>>, k: int, next: M::Tag)
    requires
        0 <= k < edges.len(),
        edges[k].goto == Goto::<M>::To(next),
    ensures
        has_sub(edge_lines(edges), arrow_lines(edges[k], next, edges[k].from.spec_expand())),
    decreases edges.len(),
{
    let init = edge_lines(edges.drop_last());
    let last = match edges.last().goto {
        Goto::To(n) => arrow_lines(edges.last(), n, edges.last().from.spec_expand()),
        Goto::Internal => Seq::empty(),
    };
    assert(edge_lines(edges) == init + last);
    if k == edges.len() - 1 {
        lemma_sub_mid(init, last, Seq::empty());
        assert(init + last + Seq::<char>::empty() =~= init + last);
    } else {
        lemma_edge_lines_hold(edges.drop_last(), k, next);
        assert(edges.drop_last()[k] == edges[k]);
        lemma_sub_left(init, last, arrow_lines(edges[k], next, edges[k].from.spec_expand()));
    }
}

/// Every edge to a state is drawn from each state it departs from: the
/// diagram holds the line `    S --> T: K`, then `<br/>[guard]` when the edge
/// has a guard, `<br/>unknown=Allow` under that policy, and `<br/>/ ` with the
/// labels of all its run actions when it has any.
pub proof fn lemma_mermaid_draws_every_transition<M: MachineSpec>(
    initial: M::Tag,
    edges: Seq<Edge<M>>,
    states: Seq<State<M>>,
    k: int,
    t: M::Tag,
    next: M::Tag,
)
    requires
        0 <= k < edges.len(),
        edges[k].goto == Goto::<M>::To(next),
        edges[k].from.spec_expand().contains(t),
    ensures
        has_sub(
            spec_mermaid(initial, edges, states),
            "    "@ + name_of(t) + " --> "@ + name_of(next) + ": "@ + name_of(edges[k].when) + (
            if edges[k].check.spec_render().len() == 0 {
                Seq::empty()
            } else {
                "<br/>["@ + edges[k].check.spec_render() + "]"@
            }) + (if edges[k].unknown == crate::machine::OnUnknown::Allow {
                "<br/>unknown=Allow"@
            } else {
                Seq::empty()
            }) + (if edges[k].run@.len() == 0 {
                Seq::empty()
            } else {
                "<br/>/ "@ + spec_join(edges[k].run@)
            }) + "\n"@,
        ),
{
    let e = edges[k];
    let froms = e.from.spec_expand();
    let j = choose|j: int| 0 <= j < froms.len() && froms[j] == t;
    lemma_arrow_lines_hold(e, next, froms, j);
    lemma_edge_lines_hold(edges, k, next);
    let line = arrow_of(e, t, next);
    lemma_sub_trans(edge_lines(edges), arrow_lines(e, next, froms), line);
    let head = "stateDiagram-v2\n"@ + "    [*] --> "@ + name_of(initial) + "\n"@ + state_lines(
        states,
        M::CHECKED_TAGS@,
    );
    assert(spec_mermaid(initial, edges, states) == head + edge_lines(edges));
    lemma_sub_right(head, edge_lines(edges), line);
    let g: Seq<char> = if e.check.spec_render().len() == 0 {
        Seq::empty()
    } else {
        "<br/>["@ + e.check.spec_render() + "]"@
    };
    assert(edge_label(e) =~= name_of(e.when) + g);
    let a: Seq<char> = if e.unknown == crate::machine::OnUnknown::Allow {
        "<br/>unknown=Allow"@
    } else {
        Seq::empty()
    };
    let r: Seq<char> = if e.run@.len() == 0 {
        Seq::empty()
    } else {
        "<br/>/ "@ + spec_join(e.run@)
    };
    assert(edge_suffix(e) == a + r);
    assert(line =~= "    "@ + name_of(t) + " --> "@ + name_of(next) + ": "@ + name_of(e.when) + g
        + a + r + "\n"@);
}

// ------------------------------------------------------------------ tables

/// The row that the internal table gives edge `e` departing from `t`.
spec fn internal_row_of<M: MachineSpec>(e: Edge<M>, t: M::Tag) -> Seq<char> {
    "| `"@ + name_of(t) + "` | `"@ + name_of(e.when) + "` | `"@ + guard_cell(e) + "` | "@
        + spec_join(e.run@) + " | `"@ + e.id@ + "` |\n"@
}

proof fn lemma_internal_rows_hold<M: MachineSpec>(e: Edge<M>, froms: Seq<M::Tag>, j: int)
    requires
        0 <= j < froms.len(),
    ensures
        has_sub(internal_rows(e, froms), internal_row_of(e, froms[j])),
    decreases froms.len(),
{
    let init = internal_rows(e, froms.drop_last());
    let last = internal_row_of(e, froms.last());
    assert(internal_rows(e, froms) =~= init + last);
    if j == froms.len() - 1 {
        lemma_sub_mid(init, last, Seq::empty());
        assert(init + last + Seq::<char>::empty() =~= init + last);
    } else {
        lemma_internal_rows_hold(e, froms.drop_last(), j);
        assert(froms.drop_last()[j] == froms[j]);
        lemma_sub_left(init, last, internal_row_of(e, froms[j]));
    }
}

proof fn lemma_internal_body_holds<M: MachineSpec>(edges: Seq<Edge<M>>, k: int)
    requires
        0 <= k < edges.len(),
        edges[k].goto is Internal,
    ensures
        has_sub(internal_body(edges), internal_rows(edges[k], edges[k].from.spec_expand())),
    decreases edges.len(),
{
    let init = internal_body(edges.drop_last());
    let last = match edges.last().goto {
        Goto::Internal => internal_rows(edges.last(), edges.last().from.spec_expand()),
        Goto::To(_) => Seq::empty(),
    };
    assert(internal_body(edges) == init + last);
    if k == edges.len() - 1 {
        lemma_sub_mid(init, last, Seq::empty());
        assert(init + last + Seq::<char>::empty() =~= init + last);
    } else {
        lemma_internal_body_holds(edges.drop_last(), k);
        assert(edges.drop_last()[k] == edges[k]);
        lemma_sub_left(init, last, internal_rows(edges[k], edges[k].from.spec_expand()));
    }
}

/// Every internal edge gets a row for each state it departs from, and that
/// row lists the labels of all of the edge's run actions, in order, joined
/// by `", "`.
pub proof fn lemma_internal_table_lists_every_run_action<M: MachineSpec>(
    edges: Seq<Edge<M>>,
    k: int,
    t: M::Tag,
)
    requires
        0 <= k < edges.len(),
        edges[k].goto is Internal,
        edges[k].from.spec_expand().contains(t),
    ensures
        has_sub(
            internal_header() + internal_body(edges),
            "| `"@ + name_of(t) + "` | `"@ + name_of(edges[k].when) + "` | `"@ + guard_cell(
                edges[k],
            ) + "` | "@ + spec_join(edges[k].run@) + " | `"@ + edges[k].id@ + "` |\n"@,
        ),
{
    let froms = edges[k].from.spec_expand();
    let j = choose|j: int| 0 <= j < froms.len() && froms[j] == t;
    lemma_internal_rows_hold(edges[k], froms, j);
    lemma_internal_body_holds(edges, k);
    lemma_sub_trans(internal_body(edges), internal_rows(edges[k], froms), internal_row_of(edges[k], t));
    lemma_sub_right(internal_header(), internal_body(edges), internal_row_of(edges[k], t));
}

/// The row that the ignore table gives `i` for state `t` and kind `k`.
spec fn ignore_row_of<M: MachineSpec>(i: Ignore<M>, t: M::Tag, k: KindOf<M>) -> Seq<char> {
    "| `"@ + name_of(t) + "` | `"@ + name_of(k) + "` | "@ + i.why@ + " |\n"@
}

proof fn lemma_ignore_cells_hold<M: MachineSpec>(i: Ignore<M>, t: M::Tag, kinds: Seq<KindOf<M>>, w: int)
    requires
        0 <= w < kinds.len(),
    ensures
        has_sub(ignore_cells(i, t, kinds), ignore_row_of(i, t, kinds[w])),
    decreases kinds.len(),
{
    let init = ignore_cells(i, t, kinds.drop_last());
    let last = ignore_row_of(i, t, kinds.last());
    assert(ignore_cells(i, t, kinds) =~= init + last);
    if w == kinds.len() - 1 {
        lemma_sub_mid(init, last, Seq::empty());
        assert(init + last + Seq::<char>::empty() =~= init + last);
    } else {
        lemma_ignore_cells_hold(i, t, kinds.drop_last(), w);
        assert(kinds.drop_last()[w] == kinds[w]);
        lemma_sub_left(init, last, ignore_row_of(i, t, kinds[w]));
    }
}

proof fn lemma_ignore_rows_hold<M: MachineSpec>(i: Ignore<M>, froms: Seq<M::Tag>, j: int)
    requires
        0 <= j < froms.len(),
    ensures
        has_sub(ignore_rows(i, froms), ignore_cells(i, froms[j], i.when@)),
    decreases froms.len(),
{
    let init = ignore_rows(i, froms.drop_last());
    let last = ignore_cells(i, froms.last(), i.when@);
    assert(ignore_rows(i, froms) == init + last);
    if j == froms.len() - 1 {
        lemma_sub_mid(init, last, Seq::empty());
        assert(init + last + Seq::<char>::empty() =~= init + last);
    } else {
        lemma_ignore_rows_hold(i, froms.drop_last(), j);
        assert(froms.drop_last()[j] == froms[j]);
        lemma_sub_left(init, last, ignore_cells(i, froms[j], i.when@));
    }
}

proof fn lemma_ignore_body_holds<M: MachineSpec>(ignores: Seq<Ignore<M>>, k: int)
    requires
        0 <= k < ignores.len(),
    ensures
        has_sub(ignore_body(ignores), ignore_rows(ignores[k], ignores[k].from.spec_expand())),
    decreases ignores.len(),
{
    let init = ignore_body(ignores.drop_last());
    let last = ignore_rows(ignores.last(), ignores.last().from.spec_expand());
    assert(ignore_body(ignores) == init + last);
    if k == ignores.len() - 1 {
        lemma_sub_mid(init, last, Seq::empty());
        assert(init + last + Seq::<char>::empty() =~= init + last);
    } else {
        lemma_ignore_body_holds(ignores.drop_last(), k);
        assert(ignores.drop_last()[k] == ignores[k]);
        lemma_sub_left(init, last, ignore_rows(ignores[k], ignores[k].from.spec_expand()));
    }
}

/// For every `Ignore`, every state its source expands to and every kind it
/// lists, the ignore table holds the row `| `S` | `K` | why |`.
pub proof fn lemma_ignore_table_lists_every_combination<M: MachineSpec>(
    ignores: Seq<Ignore<M>>,
    k: int,
    t: M::Tag,
    w: int,
)
    requires
        0 <= k < ignores.len(),
        ignores[k].from.spec_expand().contains(t),
        0 <= w < ignores[k].when@.len(),
    ensures
        has_sub(
            "| state | event | reason |\n|---|---|---|\n"@ + ignore_body(ignores),
            "| `"@ + name_of(t) + "` | `"@ + name_of(ignores[k].when@[w]) + "` | "@
                + ignores[k].why@ + " |\n"@,
        ),
{
    let ig = ignores[k];
    let froms = ig.from.spec_expand();
    let j = choose|j: int| 0 <= j < froms.len() && froms[j] == t;
    let row = ignore_row_of(ig, t, ig.when@[w]);
    lemma_ignore_cells_hold(ig, t, ig.when@, w);
    lemma_ignore_rows_hold(ig, froms, j);
    lemma_ignore_body_holds(ignores, k);
    lemma_sub_trans(ignore_rows(ig, froms), ignore_cells(ig, t, ig.when@), row);
    lemma_sub_trans(ignore_body(ignores), ignore_rows(ig, froms), row);
    lemma_sub_right("| state | event | reason |\n|---|---|---|\n"@, ignore_body(ignores), row);
}

// ------------------------------------------------------------------ coverage

/// The edges of `edges` that depart from `tag` on `kind`, in table order.
pub open spec fn departing<M: MachineSpec>(edges: Seq<Edge<M>>, tag: M::Tag, kind: KindOf<M>) -> Seq<
    Edge<M>,
> {
    edges.filter(|e: Edge<M>| candidate(e, tag, kind))
}

/// The ids the coverage report lists for `(tag, kind)` are those of the
/// departing edges, all of them, in table order.
proof fn lemma_hits_are_departing_ids<M: MachineSpec>(
    edges: Seq<Edge<M>>,
    tag: M::Tag,
    kind: KindOf<M>,
)
    ensures
        spec_hits(edges, tag, kind) == departing(edges, tag, kind).map_values(|e: Edge<M>| e.id),
    decreases edges.len(),
{
    reveal(Seq::filter);
    if edges.len() > 0 {
        lemma_hits_are_departing_ids(edges.drop_last(), tag, kind);
        let prev = departing(edges.drop_last(), tag, kind);
        if candidate(edges.last(), tag, kind) {
            assert(departing(edges, tag, kind) == prev.push(edges.last()));
            assert(prev.push(edges.last()).map_values(|e: Edge<M>| e.id) =~= prev.map_values(
                |e: Edge<M>| e.id,
            ) + seq![edges.last().id]);
        } else {
            assert(departing(edges, tag, kind) == prev);
            assert(spec_hits(edges, tag, kind) =~= spec_hits(edges.drop_last(), tag, kind));
        }
    } else {
        assert(departing(edges, tag, kind).map_values(|e: Edge<M>| e.id) =~= Seq::<&'static str>::empty());
    }
}

proof fn lemma_overlap_row_holds<M: MachineSpec>(
    edges: Seq<Edge<M>>,
    tag: M::Tag,
    kinds: Seq<KindOf<M>>,
    j: int,
)
    requires
        0 <= j < kinds.len(),
        spec_hits(edges, tag, kinds[j]).len() > 1,
    ensures
        overlap_row(edges, tag, kinds).contains(
            (name_of(tag), name_of(kinds[j]), spec_hits(edges, tag, kinds[j])),
        ),
    decreases kinds.len(),
{
    let init = overlap_row(edges, tag, kinds.drop_last());
    let x = (name_of(tag), name_of(kinds[j]), spec_hits(edges, tag, kinds[j]));
    if j == kinds.len() - 1 {
        assert(overlap_row(edges, tag, kinds) == init + seq![x]);
        assert(overlap_row(edges, tag, kinds)[init.len() as int] == x);
    } else {
        lemma_overlap_row_holds(edges, tag, kinds.drop_last(), j);
        assert(kinds.drop_last()[j] == kinds[j]);
        let p = choose|p: int| 0 <= p < init.len() && init[p] == x;
        let last = if spec_hits(edges, tag, kinds.last()).len() > 1 {
            seq![(name_of(tag), name_of(kinds.last()), spec_hits(edges, tag, kinds.last()))]
        } else {
            Seq::empty()
        };
        assert(overlap_row(edges, tag, kinds) == init + last);
        assert((init + last)[p] == x);
    }
}

proof fn lemma_overlaps_hold<M: MachineSpec>(
    edges: Seq<Edge<M>>,
    tags: Seq<M::Tag>,
    kinds: Seq<KindOf<M>>,
    i: int,
    j: int,
)
    requires
        0 <= i < tags.len(),
        0 <= j < kinds.len(),
        spec_hits(edges, tags[i], kinds[j]).len() > 1,
    ensures
        spec_overlaps(edges, tags, kinds).contains(
            (name_of(tags[i]), name_of(kinds[j]), spec_hits(edges, tags[i], kinds[j])),
        ),
    decreases tags.len(),
{
    let init = spec_overlaps(edges, tags.drop_last(), kinds);
    let last = overlap_row(edges, tags.last(), kinds);
    let x = (name_of(tags[i]), name_of(kinds[j]), spec_hits(edges, tags[i], kinds[j]));
    assert(spec_overlaps(edges, tags, kinds) == init + last);
    if i == tags.len() - 1 {
        lemma_overlap_row_holds(edges, tags[i], kinds, j);
        let p = choose|p: int| 0 <= p < last.len() && last[p] == x;
        assert((init + last)[init.len() + p] == x);
    } else {
        lemma_overlaps_hold(edges, tags.drop_last(), kinds, i, j);
        assert(tags.drop_last()[i] == tags[i]);
        let p = choose|p: int| 0 <= p < init.len() && init[p] == x;
        assert((init + last)[p] == x);
    }
}

/// For every state in `tags` and kind in `kinds` that more than one edge
/// departs from on, the overlap report holds an entry for that pair listing
/// the ids of all the edges that depart from it on it, in table order.
pub proof fn lemma_overlaps_list_every_departing_edge<M: MachineSpec>(
    edges: Seq<Edge<M>>,
    tags: Seq<M::Tag>,
    kinds: Seq<KindOf<M>>,
    t: M::Tag,
    k: KindOf<M>,
)
    requires
        tags.contains(t),
        kinds.contains(k),
        departing(edges, t, k).len() > 1,
    ensures
        spec_overlaps(edges, tags, kinds).contains(
            (name_of(t), name_of(k), departing(edges, t, k).map_values(|e: Edge<M>| e.id)),
        ),
{
    let i = choose|i: int| 0 <= i < tags.len() && tags[i] == t;
    let j = choose|j: int| 0 <= j < kinds.len() && kinds[j] == k;
    lemma_hits_are_departing_ids(edges, t, k);
    lemma_overlaps_hold(edges, tags, kinds, i, j);
}

proof fn lemma_hole_row_exact<M: MachineSpec>(
    edges: Seq<Edge<M>>,
    ignores: Seq<Ignore<M>>,
    tag: M::Tag,
    kinds: Seq<KindOf<M>>,
    k: KindOf<M>,
    x: (Seq<char>, Seq<char>),
)
    ensures
        kinds.contains(k) && departing(edges, tag, k).len() == 0 && !spec_ignored(ignores, tag, k)
            ==> hole_row(edges, ignores, tag, kinds).contains((name_of(tag), name_of(k))),
        hole_row(edges, ignores, tag, kinds).contains(x) ==> exists|u: KindOf<M>|
            kinds.contains(u) && departing(edges, tag, u).len() == 0 && !spec_ignored(
                ignores,
                tag,
                u,
            ) && x == (name_of(tag), name_of(u)),
    decreases kinds.len(),
{
    if kinds.len() > 0 {
        lemma_hole_row_exact(edges, ignores, tag, kinds.drop_last(), k, x);
        lemma_hits_are_departing_ids(edges, tag, k);
        lemma_hits_are_departing_ids(edges, tag, kinds.last());
        let init = hole_row(edges, ignores, tag, kinds.drop_last());
        let all = hole_row(edges, ignores, tag, kinds);
        let last: Seq<(Seq<char>, Seq<char>)> = if crate::render::is_hole(
            edges,
            ignores,
            tag,
            kinds.last(),
        ) {
            seq![(name_of(tag), name_of(kinds.last()))]
        } else {
            Seq::empty()
        };
        assert(all == init + last);
        if kinds.contains(k) && departing(edges, tag, k).len() == 0 && !spec_ignored(ignores, tag, k) {
            let i = choose|i: int| 0 <= i < kinds.len() && kinds[i] == k;
            if i == kinds.len() - 1 {
                assert(all[init.len() as int] == (name_of(tag), name_of(k)));
            } else {
                assert(kinds.drop_last()[i] == k);
                assert(kinds.drop_last().contains(k));
                let p = choose|p: int| 0 <= p < init.len() && init[p] == (name_of(tag), name_of(k));
                assert(all[p] == (name_of(tag), name_of(k)));
            }
        }
        if all.contains(x) {
            let p = choose|p: int| 0 <= p < all.len() && all[p] == x;
            if p < init.len() {
                assert(init[p] == x);
                let u = choose|u: KindOf<M>|
                    kinds.drop_last().contains(u) && departing(edges, tag, u).len() == 0
                        && !spec_ignored(ignores, tag, u) && x == (name_of(tag), name_of(u));
                let q = choose|q: int| 0 <= q < kinds.drop_last().len() && kinds.drop_last()[q] == u;
                assert(kinds[q] == u);
                assert(kinds.contains(u));
            } else {
                let u = kinds.last();
                assert(last[p - init.len()] == x);
                assert(kinds[kinds.len() - 1] == u);
                assert(kinds.contains(u));
                assert(departing(edges, tag, u).len() == spec_hits(edges, tag, u).len());
                assert(kinds.contains(u) && departing(edges, tag, u).len() == 0 && !spec_ignored(
                    ignores,
                    tag,
                    u,
                ) && x == (name_of(tag), name_of(u)));
            }
        }
    }
}

proof fn lemma_overlap_row_only<M: MachineSpec>(
    edges: Seq<Edge<M>>,
    tag: M::Tag,
    kinds: Seq<KindOf<M>>,
    x: (Seq<char>, Seq<char>, Seq<&'static str>),
)
    requires
        overlap_row(edges, tag, kinds).contains(x),
    ensures
        exists|v: KindOf<M>|
            kinds.contains(v) && departing(edges, tag, v).len() > 1 && x == (
                name_of(tag),
                name_of(v),
                departing(edges, tag, v).map_values(|e: Edge<M>| e.id),
            ),
    decreases kinds.len(),
{
    let init = overlap_row(edges, tag, kinds.drop_last());
    let v = kinds.last();
    let last = if spec_hits(edges, tag, v).len() > 1 {
        seq![(name_of(tag), name_of(v), spec_hits(edges, tag, v))]
    } else {
        Seq::empty()
    };
    assert(overlap_row(edges, tag, kinds) == init + last);
    let p = choose|p: int| 0 <= p < init.len() + last.len() && (init + last)[p] == x;
    if p < init.len() {
        assert(init[p] == x);
        lemma_overlap_row_only(edges, tag, kinds.drop_last(), x);
        let u = choose|u: KindOf<M>|
            kinds.drop_last().contains(u) && departing(edges, tag, u).len() > 1 && x == (
                name_of(tag),
                name_of(u),
                departing(edges, tag, u).map_values(|e: Edge<M>| e.id),
            );
        let q = choose|q: int| 0 <= q < kinds.drop_last().len() && kinds.drop_last()[q] == u;
        assert(kinds[q] == u);
        assert(kinds.contains(u));
    } else {
        assert(last[p - init.len()] == x);
        lemma_hits_are_departing_ids(edges, tag, v);
        assert(kinds[kinds.len() - 1] == v);
        assert(kinds.contains(v));
    }
}

/// Every entry of the overlap report is a state of `tags` and a kind of
/// `kinds` that more than one edge departs from on, with the ids of all the
/// edges that do, in table order.
pub proof fn lemma_overlaps_are_only_shared_pairs<M: MachineSpec>(
    edges: Seq<Edge<M>>,
    tags: Seq<M::Tag>,
    kinds: Seq<KindOf<M>>,
    x: (Seq<char>, Seq<char>, Seq<&'static str>),
)
    requires
        spec_overlaps(edges, tags, kinds).contains(x),
    ensures
        exists|u: M::Tag, v: KindOf<M>|
            tags.contains(u) && kinds.contains(v) && departing(edges, u, v).len() > 1 && x == (
                name_of(u),
                name_of(v),
                departing(edges, u, v).map_values(|e: Edge<M>| e.id),
            ),
    decreases tags.len(),
{
    let init = spec_overlaps(edges, tags.drop_last(), kinds);
    let last = overlap_row(edges, tags.last(), kinds);
    assert(spec_overlaps(edges, tags, kinds) == init + last);
    let p = choose|p: int| 0 <= p < init.len() + last.len() && (init + last)[p] == x;
    if p < init.len() {
        assert(init[p] == x);
        lemma_overlaps_are_only_shared_pairs(edges, tags.drop_last(), kinds, x);
        let (u, v) = choose|u: M::Tag, v: KindOf<M>|
            tags.drop_last().contains(u) && kinds.contains(v) && departing(edges, u, v).len() > 1
                && x == (name_of(u), name_of(v), departing(edges, u, v).map_values(|e: Edge<M>| e.id));
        let q = choose|q: int| 0 <= q < tags.drop_last().len() && tags.drop_last()[q] == u;
        assert(tags[q] == u);
        assert(tags.contains(u));
    } else {
        assert(last[p - init.len()] == x);
        assert(last.contains(x));
        lemma_overlap_row_only(edges, tags.last(), kinds, x);
        assert(tags[tags.len() - 1] == tags.last());
        assert(tags.contains(tags.last()));
    }
}

/// A `(state, kind)` pair is reported as a hole exactly when the state is one
/// of `tags`, the kind one of `kinds`, no edge departs from the state on the
/// kind and no `Ignore` covers it.
pub proof fn lemma_holes_are_exactly_the_unhandled<M: MachineSpec>(
    edges: Seq<Edge<M>>,
    ignores: Seq<Ignore<M>>,
    tags: Seq<M::Tag>,
    kinds: Seq<KindOf<M>>,
    t: M::Tag,
    k: KindOf<M>,
    x: (Seq<char>, Seq<char>),
)
    ensures
        tags.contains(t) && kinds.contains(k) && departing(edges, t, k).len() == 0
            && !spec_ignored(ignores, t, k) ==> spec_holes(edges, ignores, tags, kinds).contains(
            (name_of(t), name_of(k)),
        ),
        spec_holes(edges, ignores, tags, kinds).contains(x) ==> exists|u: M::Tag, v: KindOf<M>|
            tags.contains(u) && kinds.contains(v) && departing(edges, u, v).len() == 0
                && !spec_ignored(ignores, u, v) && x == (name_of(u), name_of(v)),
    decreases tags.len(),
{
    if tags.len() > 0 {
        lemma_holes_are_exactly_the_unhandled(edges, ignores, tags.drop_last(), kinds, t, k, x);
        lemma_hole_row_exact(edges, ignores, tags.last(), kinds, k, x);
        let init = spec_holes(edges, ignores, tags.drop_last(), kinds);
        let last = hole_row(edges, ignores, tags.last(), kinds);
        let all = spec_holes(edges, ignores, tags, kinds);
        assert(all == init + last);
        let y = (name_of(t), name_of(k));
        if tags.contains(t) && kinds.contains(k) && departing(edges, t, k).len() == 0
            && !spec_ignored(ignores, t, k) {
            let i = choose|i: int| 0 <= i < tags.len() && tags[i] == t;
            if i == tags.len() - 1 {
                lemma_hole_row_exact(edges, ignores, t, kinds, k, x);
                let p = choose|p: int| 0 <= p < last.len() && last[p] == y;
                assert(all[init.len() + p] == y);
            } else {
                assert(tags.drop_last()[i] == t);
                assert(tags.drop_last().contains(t));
                let p = choose|p: int| 0 <= p < init.len() && init[p] == y;
                assert(all[p] == y);
            }
        }
        if all.contains(x) {
            let p = choose|p: int| 0 <= p < all.len() && all[p] == x;
            if p < init.len() {
                assert(init[p] == x);
                let (u, v) = choose|u: M::Tag, v: KindOf<M>|
                    tags.drop_last().contains(u) && kinds.contains(v) && departing(edges, u, v).len()
                        == 0 && !spec_ignored(ignores, u, v) && x == (name_of(u), name_of(v));
                let q = choose|q: int| 0 <= q < tags.drop_last().len() && tags.drop_last()[q] == u;
                assert(tags[q] == u);
            } else {
                assert(last[p - init.len()] == x);
                assert(last.contains(x));
                assert(tags[tags.len() - 1] == tags.last());
            }
        }
    }
}

/// A state is listed as unreachable exactly when it is one of `tags` that
/// cannot be reached from `initial`: every such state is listed, and nothing
/// else is.
pub proof fn lemma_unreachable_lists_exactly_the_unreachable<M: MachineSpec>(
    edges: Seq<Edge<M>>,
    initial: M::Tag,
    tags: Seq<M::Tag>,
    t: M::Tag,
    x: Seq<char>,
)
    ensures
        tags.contains(t) && !reachable(edges, initial, t) ==> spec_unreachable(
            edges,
            initial,
            tags,
        ).contains(name_of(t)),
        spec_unreachable(edges, initial, tags).contains(x) ==> exists|u: M::Tag|
            tags.contains(u) && !reachable(edges, initial, u) && x == name_of(u),
    decreases tags.len(),
{
    if tags.len() > 0 {
        lemma_unreachable_lists_exactly_the_unreachable(edges, initial, tags.drop_last(), t, x);
        let init = spec_unreachable(edges, initial, tags.drop_last());
        let last: Seq<Seq<char>> = if !reachable(edges, initial, tags.last()) {
            seq![name_of(tags.last())]
        } else {
            Seq::empty()
        };
        let all = spec_unreachable(edges, initial, tags);
        assert(all == init + last);
        if tags.contains(t) && !reachable(edges, initial, t) {
            let i = choose|i: int| 0 <= i < tags.len() && tags[i] == t;
            if i == tags.len() - 1 {
                assert(all[init.len() as int] == name_of(t));
            } else {
                assert(tags.drop_last()[i] == t);
                assert(tags.drop_last().contains(t));
                let p = choose|p: int| 0 <= p < init.len() && init[p] == name_of(t);
                assert(all[p] == name_of(t));
            }
        }
        if all.contains(x) {
            let p = choose|p: int| 0 <= p < all.len() && all[p] == x;
            if p < init.len() {
                assert(init[p] == x);
                let u = choose|u: M::Tag|
                    tags.drop_last().contains(u) && !reachable(edges, initial, u) && x == name_of(u);
                let q = choose|q: int| 0 <= q < tags.drop_last().len() && tags.drop_last()[q] == u;
                assert(tags[q] == u);
            } else {
                assert(last[p - init.len()] == x);
                assert(tags[tags.len() - 1] == tags.last());
            }
        }
    }
}

} // verus!
