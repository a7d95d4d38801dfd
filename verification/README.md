# qproj

Verified core of a set of game-engine extensions: a service framework (service
state, lifecycle and dependency graph), a screen framework (screen states,
schedules, loading and switching), terrain chunk helpers (grid index buffers,
chunk positions, spawn planning) and small utilities (boolean
states, text wrapping, a simple service state machine).

## Layout

- `src/` — the library, verified with Verus.
  - `graph.rs`, `collections.rs` — the dependency graph and the collections it
    keeps its state in.
  - `topsort.rs`, `scc.rs`, `cycles.rs`, `dag.rs` — topological sorting,
    strongly connected components, elementary cycles, cycle reports and
    service registration.
  - `service.rs`, `lifecycle.rs` — service data types and the lifecycle state
    machine.
  - `screen.rs` — screens and their registry.
  - `mesh.rs`, `grid.rs`, `terrain.rs`, `chunk.rs` — terrain helpers.
  - `boolish.rs`, `text.rs`, `simple_service.rs`, `player.rs`, `digits.rs` —
    utilities.
- `tests/` — tests of the library.
- `app/` — code around the library: error types with their messages, the
  driver that runs a service's lifecycle against its hooks and dependencies,
  and the floating-point terrain code (distances and level of detail).
