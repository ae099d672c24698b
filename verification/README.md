# fsm

A declarative controller framework, verified with Verus. A controller's
transitions are declared once, as static tables (`Edge`, `State`, `Ignore`);
execution, a mermaid diagram, markdown tables and an exhaustive coverage
check are all derived from those tables.

## Layout

| Path | Contents |
|---|---|
| `src/lib.rs` | `Enumerable`, `HasKind`, `Domain`, `MachineSpec` |
| `src/machine/cond.rs` | `Cond`, three-valued (Kleene) logic and its laws |
| `src/machine/edge.rs` | `Source`, `Goto`, `OnUnknown`, `Edge`, `Ignore` |
| `src/machine/node.rs` | `CondNode`, `Cx`, `Memo`, the guard tree `Expr` |
| `src/machine/state.rs` | `State` |
| `src/machine.rs` | `Machine` (selection and dispatch) and `Taken` |
| `src/render.rs` | `to_mermaid`, `internal_table`, `ignore_table` |
| `src/render/check.rs` | `coverage`: holes, overlaps, reachability, duplicate guard names |
| `src/feature.rs` | The stateless layer: `Feature`, `dispatch`, gap lists |
| `app/main.rs` | A door-lock demo that writes `example/door_lock.md` |

## Declaring a controller

Tags, event kinds and actions are enums implementing `Enumerable`: the full
value list (`ALL`), the name drawn for each value (`NAMES`, same order) and a
comparison (`same`). Events implement `HasKind`, whose `spec_kind` gives the
kind that `kind` reports; a `Domain` gives, in `perform_effect`, how `perform`
changes the world; a `Feature` gives, in `handle_effect`, the relation
between the state and actions before and after `handle`. Guard nodes implement
`CondNode` (`name`, `eval`, `node_type`, each with the spec function it
reports: `spec_name`, `spec_eval`, `spec_type`) and appear in tables as
`Expr::Node(&Node)`; the name is the key of the per-dispatch cache and the
label in diagrams.

`Machine::new` needs a state entry for the initial tag, every checked tag and
every edge target, which `Machine::check_tables` tests, and a table free of
coverage defects, which `render::coverage(..).is_clean()` tests.
