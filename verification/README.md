# bevy_spatialgrid2d

A spatial partitioning grid for 2D entities in Bevy, with its grid logic
verified by Verus.

## Layout

- `src/` — the verified library (Verus):
  - `spec.rs`: the grid's size in cells, row-major indexing, bounds and
    boundary tests, 4- and 8-neighborhoods, the cells of a box, and the
    row-major scan (`RowColIterator`) behind radius queries.
  - `rowcol.rs`: cell coordinates and the 8-connectivity step counts.
  - `grid2.rs`: `SpatialGrid2<T>`, one value per cell.
  - `entity_set.rs`: `EntitySet`, a duplicate-free, insertion-ordered set of
    entity ids.
  - `entity_grid2.rs`: the per-layer entity sets of every cell, moving and
    removing entities, the `GridEntity` component's bookkeeping, the walk over
    the entities of given layers through a sequence of cells (passing over
    cells outside the grid), and the entities
    in a box clipped to the grid.
  - `entity_hash_set.rs`: the hash set used to gather entities without
    repeats.
  - `neighbors.rs`: which of the entities met in a radius search are
    kept as neighbors (at most `MAX_NEIGHBORS`) and, among those, as collisions
    (at most `MAX_COLLISIONS`).
- `app/` — the Bevy side: world-space (floating point) geometry, `Aabb2`,
  plugins, components, resources, systems and messages. Entities cross into the
  library as their `Entity::to_bits` value.
- `tests/` — tests of the library.
