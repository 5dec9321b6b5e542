use bevy_spatialgrid2d::{EntitySet, SpatialGrid2, SpatialGridSpec};

#[test]
fn entity_grid2_test_update() {
    let mut grid = SpatialGrid2::<EntitySet> {
        spec: SpatialGridSpec { rows: 10, cols: 10 },
        ..Default::default()
    };
    grid.resize();
    // The world origin falls in cell (5, 5) of a 10x10 grid.
    let rowcol = (5, 5);
    assert!(grid.get_mut(rowcol).is_some());
    assert!(grid.get(rowcol).is_some());
}

#[test]
fn resize_keeps_values_and_fills_defaults() {
    let mut grid = SpatialGrid2::<u32> {
        spec: SpatialGridSpec { rows: 2, cols: 2 },
        cells: vec![7, 8],
    };
    grid.resize();
    assert_eq!(grid.cells, vec![7, 8, 0, 0]);
    grid.resize_with(SpatialGridSpec { rows: 1, cols: 3 });
    assert_eq!(grid.spec, SpatialGridSpec { rows: 1, cols: 3 });
    assert_eq!(grid.cells, vec![7, 8, 0]);
    grid.resize_with(SpatialGridSpec { rows: 1, cols: 1 });
    assert_eq!(grid.cells, vec![7]);
}

#[test]
fn reset_restores_defaults() {
    let mut grid = SpatialGrid2::<u32> {
        spec: SpatialGridSpec { rows: 1, cols: 3 },
        cells: vec![4, 5, 6],
    };
    grid.reset();
    assert_eq!(grid.cells, vec![0, 0, 0]);
}

#[test]
fn get_and_index() {
    let mut grid = SpatialGrid2::<u32> {
        spec: SpatialGridSpec { rows: 2, cols: 3 },
        cells: vec![0, 1, 2, 3, 4, 5],
    };
    assert_eq!(grid.get((1, 2)), Some(&5));
    assert_eq!(grid.get((0, 1)), Some(&1));
    // Beyond the stored cells.
    assert_eq!(grid.get((2, 0)), None);
    assert_eq!(*grid.index((1, 0)), 3);
    *grid.index_mut((1, 0)) = 30;
    if let Some(v) = grid.get_mut((0, 2)) {
        *v = 20;
    }
    assert!(grid.get_mut((5, 5)).is_none());
    assert_eq!(grid.cells, vec![0, 1, 20, 30, 4, 5]);
}

#[test]
fn sized_grid_holds_every_in_bounds_cell() {
    let mut grid = SpatialGrid2::<u8>::default();
    grid.resize_with(SpatialGridSpec { rows: 3, cols: 4 });
    for r in 0..3 {
        for c in 0..4 {
            assert!(grid.get((r, c)).is_some());
        }
    }
}
