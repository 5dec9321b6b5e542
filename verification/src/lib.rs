//! Spatial partitioning grid for 2D entities: the discrete grid geometry,
//! per-cell storage, the per-layer entity sets of each cell, and the choice of
//! neighbors and collisions among the entities met in a radius search.
pub mod entity_grid2;
mod entity_hash_set;
pub mod entity_set;
pub mod grid2;
pub mod neighbors;
pub mod rowcol;
pub mod spec;

pub use entity_grid2::{
    EntityGridEvent, EntityGridLayer, EntityGridSystem, EntityLayerRadiusIterator, EntitySets,
    EntitySetsGrid, GridEntity,
};
pub use entity_set::EntitySet;
pub use grid2::SpatialGrid2;
pub use neighbors::{select_neighbors, NeighborCandidate, MAX_COLLISIONS, MAX_NEIGHBORS};
pub use rowcol::{steps8, RowCol};
pub use spec::{RowColIterator, SpatialGridSpec};
