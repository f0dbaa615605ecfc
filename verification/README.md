# oxidd_viz

Layered layout logic for drawing decision diagrams, verified with Verus.

- `src/` is the verified library: layer orderings (barycenter sweeps, the
  Sugiyama-style iterative ordering, seeded, drawn and sequenced orderings),
  crossing counting, group alignment across layers, dummy-node insertion for
  groups and edges, removal of edges that would cross groups, the
  vertical-alignment step of the Brandes–Köpf positioning, and the search for
  edges deleted between two layouts. The `ensures` of the public functions
  state their results over spec functions; an ordering that draws from a
  seeded generator is stated over a name for the generator's draws. The
  `law_*` proof functions state properties that span several calls.
- `tests/` runs the library on concrete inputs.
- `app/` holds what needs floating point or the browser: coordinate
  assignment, label formatting, and random draws from JavaScript.
