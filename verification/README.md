# cellworld

A small world of particles, plants and living cells, with deferred deletion.

- `src/` is the verified library. `population.rs` keeps the particles, which
  of them are plants, which carry a cell, and the queue of deletions; every
  operation is stated over `PopulationState` and keeps its invariant `wf`.
  `reindex.rs` holds the index arithmetic for removing a particle, and
  `dice.rs` the one random choice the library makes.
- `app/` is the simulation around it: float physics, the quadtree, the cell
  brains, the window and the drawing.
- `tests/` exercises the library on concrete populations.
