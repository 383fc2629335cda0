# workflow_executor

A DAG workflow executor. A workflow is a set of nodes (`Start`, `End`, `Echo`,
`Add`, `IfElse`) joined by edges, some of them conditional on the output of an
`IfElse` node.

## Layout

- `src/` — the verified library (Verus).
  - `value.rs`: the values nodes produce, and their content (`ValueView`).
  - `error.rs`: `WorkflowError` and its messages.
  - `graph.rs`: nodes, edges, and what running a node yields in a context
    (`Node::execute_with_context`).
  - `workflow.rs`: workflows, input references (`parse_input_reference`),
    edge conditions (`should_take_edge`), dependencies and dependents, cycle
    search (`Workflow::check_cycle`) and validation (`Workflow::validate`).
  - `paths.rs`: paths, cycles and reachability over a step relation.
  - `state.rs`: the run state (`GraphState`): which nodes wait, run or have
    completed; how ready nodes are handed out (`start`), evaluated
    (`evaluate_node`) and their completion recorded (`update`, `complete`); and the
    run invariant with its laws (topological order, conditional branches,
    nothing runnable left waiting, bounded run length).
- `app/` — the asynchronous executor (`SimpleExecutor` on tokio), the JSON
  (serde) forms of workflows and results, and the floating-point sum of `Add`
  nodes.
- `tests/` — tests of the library.
