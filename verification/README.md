# flowgraph

A library for describing and checking dataflow graphs of state machines:
machines with typed ports, links between them, deployment specifications,
graph analyses, session types, and statically composed execution paths.

## Layout

- `src/` is the library, written in Verus. Every function states its
  behaviour in `requires` / `ensures` over mathematical models (`Seq`,
  `Set`, `Map`, spec functions and views), and the laws that relate several
  functions are public proof functions (`lemma_*`).
  - `flow`, `link`, `port`, `resource`, `time`: ports, links, schemas,
    machine contexts and physical resource declarations.
  - `deploy`, `validate`, `graph`, `dfs`, `order`, `analysis`, `lint`, `composite`:
    deployment specifications, their validation, graph algorithms over them
    (topological order and levels, reachability, depth-first search order,
    feedback loops, dominators, critical paths), lint rules and the expansion of composite machines.
  - `session`: binary and global session types, duality and projection.
  - `machine`, `builtin`, `func`, `entity`, `hybrid`, `config`,
    `backpressure`, `runtime_contract`: the machine contract and its
    lifecycle handle, the built-in machines, pure functions, entities,
    hybrid jumps, configuration cells and back-pressure policies.
  - `cell_core`, `static_exec`: cells and machines composed at the type
    level, and the streaming execution of chains, diamonds and composites.
  - `blueprint`: the checks applied to a blueprint once parsed.
- `tests/` holds the tests, run against the compiled library.
- `app/` holds what the verifier does not see: JSON reading and writing of
  blueprints (serde), shared handles behind locks, the registry of schema
  migrations over type-erased values, and the driver of hybrid machines,
  whose continuous state is floating point.
