//! Artifacts derived from the transition table: a mermaid diagram, markdown
//! tables, and an exhaustive coverage matrix.

mod check;
mod laws;

pub use check::{
    char_lt, closed_under, coverage, coverage_clean, duplicates_of, hole_row, id_views, is_duplicate,
    is_hole, lemma_char_lt_total, lemma_char_lt_transitive, lemma_hits_contains,
    lemma_hole_needs_neither, lemma_no_holes_means_handled, lemma_none_unreachable,
    lemma_reachable_closed, overlap_row, overlap_views, pair_views,
    reachable, spec_edge_node_ids, spec_hits, spec_holes, spec_ignored, spec_overlaps,
    spec_targets, spec_unreachable, str_views, string_views, strictly_sorted, Coverage,
};

pub(crate) use check::ignored;
pub use laws::{
    departing, has_sub, lemma_holes_are_exactly_the_unhandled,
    lemma_ignore_table_lists_every_combination, lemma_mermaid_draws_every_transition,
    lemma_internal_table_lists_every_run_action, lemma_mermaid_draws_entry_actions,
    lemma_mermaid_draws_exit_actions, lemma_overlaps_are_only_shared_pairs,
    lemma_overlaps_list_every_departing_edge,
    lemma_unreachable_lists_exactly_the_unreachable,
};

use vstd::prelude::*;
use vstd::string::StringExecFns;

use crate::machine::{find_state, has_state, state_for, Edge, Goto, Ignore, OnUnknown, State};
use crate::{label, name_of, Enumerable, KindOf, MachineSpec};

verus! {

/// The labels of `actions` joined by `", "`.
pub open spec fn spec_join<A: Enumerable>(actions: Seq<A>) -> Seq<char>
    decreases actions.len(),
{
    if actions.len() == 0 {
        Seq::empty()
    } else if actions.len() == 1 {
        name_of(actions[0])
    } else {
        spec_join(actions.drop_last()) + ", "@ + name_of(actions.last())
    }
}

/// Joins the labels of `actions` with `", "`.
fn join_actions<A: Enumerable>(actions: &[A]) -> (r: String)
    ensures
        r@ == spec_join(actions@),
{
    let mut s = String::new();
    let mut i: usize = 0;
    while i < actions.len()
        invariant
            i <= actions@.len(),
            s@ == spec_join(actions@.take(i as int)),
        decreases actions@.len() - i,
    {
        proof {
            assert(actions@.take(i + 1).drop_last() =~= actions@.take(i as int));
            assert(actions@.take(i + 1).last() == actions@[i as int]);
        }
        if i > 0 {
            s.append(", ");
        }
        let l = label(&actions[i]);
        s.append(l.as_str());
        proof {
            if i == 0 {
                assert(s@ =~= spec_join(actions@.take(1)));
            } else {
                assert(s@ =~= spec_join(actions@.take(i + 1)));
            }
        }
        i += 1;
    }
    proof {
        assert(actions@.take(actions@.len() as int) =~= actions@);
    }
    s
}

/// The description drawn inside a state: its entry and exit actions.
pub open spec fn state_desc<M: MachineSpec>(st: State<M>) -> Seq<char> {
    let entry = "entry / "@ + spec_join(st.entry@);
    let exit = "exit / "@ + spec_join(st.exit@);
    if st.entry@.len() > 0 && st.exit@.len() > 0 {
        entry + "<br/>"@ + exit
    } else if st.entry@.len() > 0 {
        entry
    } else {
        exit
    }
}

/// The diagram line of state `tag`: drawn only when its table entry has
/// entry or exit actions.
pub open spec fn state_line<M: MachineSpec>(states: Seq<State<M>>, tag: M::Tag) -> Seq<char> {
    if has_state(states, tag) && (state_for(states, tag).entry@.len() > 0 || state_for(
        states,
        tag,
    ).exit@.len() > 0) {
        "    "@ + name_of(tag) + " : "@ + name_of(tag) + "<br/>"@ + state_desc(
            state_for(states, tag),
        ) + "\n"@
    } else {
        Seq::empty()
    }
}

/// The state lines for `tags`, in order.
pub open spec fn state_lines<M: MachineSpec>(states: Seq<State<M>>, tags: Seq<M::Tag>) -> Seq<
    char,
>
    decreases tags.len(),
{
    if tags.len() == 0 {
        Seq::empty()
    } else {
        state_lines(states, tags.drop_last()) + state_line(states, tags.last())
    }
}

/// The text after the arrow of a transition line: the event kind, then the
/// guard in brackets when there is one.
pub open spec fn edge_label<M: MachineSpec>(e: Edge<M>) -> Seq<char> {
    if e.check.spec_render().len() == 0 {
        name_of(e.when)
    } else {
        name_of(e.when) + "<br/>["@ + e.check.spec_render() + "]"@
    }
}

/// The suffix of a transition line: the `Allow` policy and the run actions,
/// each only when present.
pub open spec fn edge_suffix<M: MachineSpec>(e: Edge<M>) -> Seq<char> {
    (if e.unknown == OnUnknown::Allow {
        "<br/>unknown=Allow"@
    } else {
        Seq::empty()
    }) + (if e.run@.len() == 0 {
        Seq::empty()
    } else {
        "<br/>/ "@ + spec_join(e.run@)
    })
}

/// The transition lines of edge `e` to `next`, one per departure state in
/// `froms`.
pub open spec fn arrow_lines<M: MachineSpec>(e: Edge<M>, next: M::Tag, froms: Seq<M::Tag>) -> Seq<
    char,
>
    decreases froms.len(),
{
    if froms.len() == 0 {
        Seq::empty()
    } else {
        arrow_lines(e, next, froms.drop_last()) + "    "@ + name_of(froms.last()) + " --> "@
            + name_of(next) + ": "@ + edge_label(e) + edge_suffix(e) + "\n"@
    }
}

/// The transition lines of `edges`; internal edges draw nothing.
pub open spec fn edge_lines<M: MachineSpec>(edges: Seq<Edge<M>>) -> Seq<char>
    decreases edges.len(),
{
    if edges.len() == 0 {
        Seq::empty()
    } else {
        edge_lines(edges.drop_last()) + match edges.last().goto {
            Goto::To(next) => arrow_lines(edges.last(), next, edges.last().from.spec_expand()),
            Goto::Internal => Seq::empty(),
        }
    }
}

/// The whole mermaid diagram.
pub open spec fn spec_mermaid<M: MachineSpec>(
    initial: M::Tag,
    edges: Seq<Edge<M>>,
    states: Seq<State<M>>,
) -> Seq<char> {
    "stateDiagram-v2\n"@ + "    [*] --> "@ + name_of(initial) + "\n"@ + state_lines(
        states,
        M::CHECKED_TAGS@,
    ) + edge_lines(edges)
}

/// The event kind of `e`, then its guard in brackets when there is one.
fn edge_label_of<M: MachineSpec>(e: &Edge<M>) -> (r: String)
    ensures
        r@ == edge_label(*e),
{
    let mut s = label(&e.when);
    let guard = e.check.render();
    if !guard.as_str().is_empty() {
        s.append("<br/>[");
        s.append(guard.as_str());
        s.append("]");
    }
    s
}

/// The `Allow` policy and the run actions of `e`, each only when present.
fn edge_suffix_of<M: MachineSpec>(e: &Edge<M>) -> (r: String)
    ensures
        r@ == edge_suffix(*e),
{
    let mut s = String::new();
    if e.unknown == OnUnknown::Allow {
        s.append("<br/>unknown=Allow");
    }
    if e.run.len() > 0 {
        s.append("<br/>/ ");
        let j = join_actions(e.run);
        s.append(j.as_str());
    }
    proof {
        assert(s@ =~= edge_suffix(*e));
    }
    s
}

/// The diagram line of state `tag`.
fn state_line_of<M: MachineSpec>(states: &'static [State<M>], tag: M::Tag) -> (r: String)
    ensures
        r@ == state_line(states@, tag),
{
    let mut s = String::new();
    match find_state(states, tag) {
        Some(st) => {
            if st.entry.len() > 0 || st.exit.len() > 0 {
                s.append("    ");
                let l = label(&tag);
                s.append(l.as_str());
                s.append(" : ");
                s.append(l.as_str());
                s.append("<br/>");
                if st.entry.len() > 0 {
                    s.append("entry / ");
                    let j = join_actions(st.entry);
                    s.append(j.as_str());
                }
                if st.entry.len() > 0 && st.exit.len() > 0 {
                    s.append("<br/>");
                }
                if st.exit.len() > 0 {
                    s.append("exit / ");
                    let j = join_actions(st.exit);
                    s.append(j.as_str());
                }
                s.append("\n");
            }
        },
        None => {},
    }
    proof {
        assert(s@ =~= state_line(states@, tag));
    }
    s
}

/// Builds a mermaid `stateDiagram-v2` string.
///
/// [`Goto::Internal`] edges are omitted: drawing state-preserving transitions
/// as self-loops makes the diagram unreadable. Use [`internal_table`] for
/// those.
///
/// Entry and exit actions are read from [`State::entry`] and [`State::exit`]
/// and drawn as state descriptions, in [`MachineSpec::all_tags`] order.
pub fn to_mermaid<M: MachineSpec>(
    initial: M::Tag,
    edges: &'static [Edge<M>],
    states: &'static [State<M>],
) -> (r: String)
    ensures
        r@ == spec_mermaid(initial, edges@, states@),
{
    let mut s = String::from_str("stateDiagram-v2\n");
    s.append("    [*] --> ");
    let l = label(&initial);
    s.append(l.as_str());
    s.append("\n");
    let ghost head = s@;

    let tags = M::all_tags();
    let mut i: usize = 0;
    proof {
        assert(tags@.take(0) =~= Seq::<M::Tag>::empty());
        assert(s@ =~= head + state_lines(states@, tags@.take(0)));
    }
    while i < tags.len()
        invariant
            tags@ == M::CHECKED_TAGS@,
            i <= tags@.len(),
            s@ == head + state_lines(states@, tags@.take(i as int)),
        decreases tags@.len() - i,
    {
        let tag = tags[i];
        proof {
            assert(tags@.take(i + 1).drop_last() =~= tags@.take(i as int));
            assert(tags@.take(i + 1).last() == tag);
        }
        let line = state_line_of(states, tag);
        s.append(line.as_str());
        proof {
            assert(s@ =~= head + state_lines(states@, tags@.take(i + 1)));
        }
        i += 1;
    }
    proof {
        assert(tags@.take(tags@.len() as int) =~= tags@);
    }
    let ghost mid = s@;

    let mut k: usize = 0;
    proof {
        assert(edges@.take(0) =~= Seq::<Edge<M>>::empty());
        assert(s@ =~= mid + edge_lines(edges@.take(0)));
    }
    while k < edges.len()
        invariant
            k <= edges@.len(),
            s@ == mid + edge_lines(edges@.take(k as int)),
        decreases edges@.len() - k,
    {
        let e = &edges[k];
        let ghost before = s@;
        proof {
            assert(edges@.take(k + 1).drop_last() =~= edges@.take(k as int));
            assert(edges@.take(k + 1).last() == *e);
        }
        match e.goto {
            Goto::To(next) => {
                let froms = e.from.expand();
                let next_label = label(&next);
                let arrow_label = edge_label_of(e);
                let suffix = edge_suffix_of(e);
                let mut f: usize = 0;
                proof {
                    assert(froms@.take(0) =~= Seq::<M::Tag>::empty());
                    assert(s@ =~= before + arrow_lines(*e, next, froms@.take(0)));
                }
                while f < froms.len()
                    invariant
                        f <= froms@.len(),
                        next_label@ == name_of(next),
                        arrow_label@ == edge_label(*e),
                        suffix@ == edge_suffix(*e),
                        s@ == before + arrow_lines(*e, next, froms@.take(f as int)),
                    decreases froms@.len() - f,
                {
                    let ghost line_start = s@;
                    proof {
                        assert(froms@.take(f + 1).drop_last() =~= froms@.take(f as int));
                        assert(froms@.take(f + 1).last() == froms@[f as int]);
                    }
                    s.append("    ");
                    let fl = label(&froms[f]);
                    s.append(fl.as_str());
                    s.append(" --> ");
                    s.append(next_label.as_str());
                    s.append(": ");
                    s.append(arrow_label.as_str());
                    s.append(suffix.as_str());
                    s.append("\n");
                    proof {
                        assert(s@ =~= before + arrow_lines(*e, next, froms@.take(f + 1)));
                    }
                    f += 1;
                }
                proof {
                    assert(froms@.take(froms@.len() as int) =~= froms@);
                    assert(s@ =~= before + match e.goto {
                        Goto::To(n) => arrow_lines(*e, n, e.from.spec_expand()),
                        Goto::Internal => Seq::empty(),
                    });
                }
            },
            Goto::Internal => {},
        }
        proof {
            assert(s@ =~= mid + edge_lines(edges@.take(k + 1)));
        }
        k += 1;
    }
    proof {
        assert(edges@.take(edges@.len() as int) =~= edges@);
    }
    s
}

/// The guard cell of an internal-table row: the rendered guard, or `—`.
pub open spec fn guard_cell<M: MachineSpec>(e: Edge<M>) -> Seq<char> {
    if e.check.spec_render().len() == 0 {
        "—"@
    } else {
        e.check.spec_render()
    }
}

/// The internal-table rows of `e`, one per departure state in `froms`.
pub open spec fn internal_rows<M: MachineSpec>(e: Edge<M>, froms: Seq<M::Tag>) -> Seq<char>
    decreases froms.len(),
{
    if froms.len() == 0 {
        Seq::empty()
    } else {
        internal_rows(e, froms.drop_last()) + "| `"@ + name_of(froms.last()) + "` | `"@
            + name_of(e.when) + "` | `"@ + guard_cell(e) + "` | "@ + spec_join(e.run@) + " | `"@
            + e.id@ + "` |\n"@
    }
}

/// The rows of every internal edge of `edges`, in table order.
pub open spec fn internal_body<M: MachineSpec>(edges: Seq<Edge<M>>) -> Seq<char>
    decreases edges.len(),
{
    if edges.len() == 0 {
        Seq::empty()
    } else {
        internal_body(edges.drop_last()) + match edges.last().goto {
            Goto::Internal => internal_rows(edges.last(), edges.last().from.spec_expand()),
            Goto::To(_) => Seq::empty(),
        }
    }
}

/// The header of the internal-transition table.
pub open spec fn internal_header() -> Seq<char> {
    "| state | event | guard | actions | edge id |\n|---|---|---|---|---|\n"@
}

/// Tabulates the transitions that do not change state.
pub fn internal_table<M: MachineSpec>(edges: &'static [Edge<M>]) -> (r: String)
    ensures
        r@ == internal_header() + internal_body(edges@),
{
    let mut s = String::from_str("| state | event | guard | actions | edge id |\n|---|---|---|---|---|\n");
    let mut k: usize = 0;
    proof {
        assert(edges@.take(0) =~= Seq::<Edge<M>>::empty());
        assert(s@ =~= internal_header() + internal_body(edges@.take(0)));
    }
    while k < edges.len()
        invariant
            k <= edges@.len(),
            s@ == internal_header() + internal_body(edges@.take(k as int)),
        decreases edges@.len() - k,
    {
        let e = &edges[k];
        let ghost before = s@;
        proof {
            assert(edges@.take(k + 1).drop_last() =~= edges@.take(k as int));
            assert(edges@.take(k + 1).last() == *e);
        }
        match e.goto {
            Goto::Internal => {
                let guard = e.check.render();
                let cell = if guard.as_str().is_empty() {
                    String::from_str("—")
                } else {
                    guard
                };
                let when_label = label(&e.when);
                let run = join_actions(e.run);
                let froms = e.from.expand();
                let mut f: usize = 0;
                proof {
                    assert(froms@.take(0) =~= Seq::<M::Tag>::empty());
                    assert(s@ =~= before + internal_rows(*e, froms@.take(0)));
                }
                while f < froms.len()
                    invariant
                        f <= froms@.len(),
                        cell@ == guard_cell(*e),
                        when_label@ == name_of(e.when),
                        run@ == spec_join(e.run@),
                        s@ == before + internal_rows(*e, froms@.take(f as int)),
                    decreases froms@.len() - f,
                {
                    proof {
                        assert(froms@.take(f + 1).drop_last() =~= froms@.take(f as int));
                        assert(froms@.take(f + 1).last() == froms@[f as int]);
                    }
                    s.append("| `");
                    let fl = label(&froms[f]);
                    s.append(fl.as_str());
                    s.append("` | `");
                    s.append(when_label.as_str());
                    s.append("` | `");
                    s.append(cell.as_str());
                    s.append("` | ");
                    s.append(run.as_str());
                    s.append(" | `");
                    s.append(e.id);
                    s.append("` |\n");
                    proof {
                        assert(s@ =~= before + internal_rows(*e, froms@.take(f + 1)));
                    }
                    f += 1;
                }
                proof {
                    assert(froms@.take(froms@.len() as int) =~= froms@);
                }
            },
            Goto::To(_) => {},
        }
        proof {
            assert(s@ =~= internal_header() + internal_body(edges@.take(k + 1)));
        }
        k += 1;
    }
    proof {
        assert(edges@.take(edges@.len() as int) =~= edges@);
    }
    s
}

/// The ignore-table rows of `i` for one departure state, one per kind in
/// `kinds`.
pub open spec fn ignore_cells<M: MachineSpec>(i: Ignore<M>, from: M::Tag, kinds: Seq<KindOf<M>>) -> Seq<char>
    decreases kinds.len(),
{
    if kinds.len() == 0 {
        Seq::empty()
    } else {
        ignore_cells(i, from, kinds.drop_last()) + "| `"@ + name_of(from) + "` | `"@
            + name_of(kinds.last()) + "` | "@ + i.why@ + " |\n"@
    }
}

/// The ignore-table rows of `i`, departure state by departure state.
pub open spec fn ignore_rows<M: MachineSpec>(i: Ignore<M>, froms: Seq<M::Tag>) -> Seq<char>
    decreases froms.len(),
{
    if froms.len() == 0 {
        Seq::empty()
    } else {
        ignore_rows(i, froms.drop_last()) + ignore_cells(i, froms.last(), i.when@)
    }
}

/// The rows of every `Ignore` in `ignores`, in table order.
pub open spec fn ignore_body<M: MachineSpec>(ignores: Seq<Ignore<M>>) -> Seq<char>
    decreases ignores.len(),
{
    if ignores.len() == 0 {
        Seq::empty()
    } else {
        ignore_body(ignores.drop_last()) + ignore_rows(ignores.last(), ignores.last().from.spec_expand())
    }
}

/// Tabulates the deliberately unhandled combinations and their reasons.
pub fn ignore_table<M: MachineSpec>(ignores: &'static [Ignore<M>]) -> (r: String)
    ensures
        r@ == "| state | event | reason |\n|---|---|---|\n"@ + ignore_body(ignores@),
{
    let mut s = String::from_str("| state | event | reason |\n|---|---|---|\n");
    let ghost head = s@;
    let mut k: usize = 0;
    proof {
        assert(ignores@.take(0) =~= Seq::<Ignore<M>>::empty());
        assert(s@ =~= head + ignore_body(ignores@.take(0)));
    }
    while k < ignores.len()
        invariant
            k <= ignores@.len(),
            head == "| state | event | reason |\n|---|---|---|\n"@,
            s@ == head + ignore_body(ignores@.take(k as int)),
        decreases ignores@.len() - k,
    {
        let ig = &ignores[k];
        let ghost before = s@;
        proof {
            assert(ignores@.take(k + 1).drop_last() =~= ignores@.take(k as int));
            assert(ignores@.take(k + 1).last() == *ig);
        }
        let froms = ig.from.expand();
        let mut f: usize = 0;
        proof {
            assert(froms@.take(0) =~= Seq::<M::Tag>::empty());
            assert(s@ =~= before + ignore_rows(*ig, froms@.take(0)));
        }
        while f < froms.len()
            invariant
                f <= froms@.len(),
                s@ == before + ignore_rows(*ig, froms@.take(f as int)),
            decreases froms@.len() - f,
        {
            let ghost row_start = s@;
            let from = froms[f];
            let fl = label(&from);
            proof {
                assert(froms@.take(f + 1).drop_last() =~= froms@.take(f as int));
                assert(froms@.take(f + 1).last() == from);
                assert(ig.when@.take(0) =~= Seq::<KindOf<M>>::empty());
                assert(s@ =~= row_start + ignore_cells(*ig, from, ig.when@.take(0)));
            }
            let mut w: usize = 0;
            while w < ig.when.len()
                invariant
                    w <= ig.when@.len(),
                    fl@ == name_of(from),
                    s@ == row_start + ignore_cells(*ig, from, ig.when@.take(w as int)),
                decreases ig.when@.len() - w,
            {
                proof {
                    assert(ig.when@.take(w + 1).drop_last() =~= ig.when@.take(w as int));
                    assert(ig.when@.take(w + 1).last() == ig.when@[w as int]);
                }
                s.append("| `");
                s.append(fl.as_str());
                s.append("` | `");
                let kl = label(&ig.when[w]);
                s.append(kl.as_str());
                s.append("` | ");
                s.append(ig.why);
                s.append(" |\n");
                proof {
                    assert(s@ =~= row_start + ignore_cells(*ig, from, ig.when@.take(w + 1)));
                }
                w += 1;
            }
            proof {
                assert(ig.when@.take(ig.when@.len() as int) =~= ig.when@);
                assert(s@ =~= before + ignore_rows(*ig, froms@.take(f + 1)));
            }
            f += 1;
        }
        proof {
            assert(froms@.take(froms@.len() as int) =~= froms@);
            assert(s@ =~= head + ignore_body(ignores@.take(k + 1)));
        }
        k += 1;
    }
    proof {
        assert(ignores@.take(ignores@.len() as int) =~= ignores@);
    }
    s
}

} // verus!
