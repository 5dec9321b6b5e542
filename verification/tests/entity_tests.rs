use bevy_spatialgrid2d::{
    EntityGridEvent, EntityGridLayer, EntityLayerRadiusIterator, EntitySet, EntitySetsGrid,
    GridEntity, SpatialGrid2, SpatialGridSpec,
};

fn grid(rows: u32, cols: u32) -> EntitySetsGrid {
    let mut g = EntitySetsGrid(SpatialGrid2::default());
    g.resize_with(SpatialGridSpec { rows, cols });
    g
}

fn members(g: &EntitySetsGrid, rowcol: (u32, u32), layer: usize) -> Vec<u64> {
    g.0.get(rowcol).unwrap().index(EntityGridLayer(layer)).to_vec()
}

#[test]
fn entity_set_insert_remove() {
    let mut s = EntitySet::new();
    assert!(s.is_empty());
    s.insert(3);
    s.insert(1);
    s.insert(3);
    assert_eq!(s.to_vec(), vec![3, 1]);
    assert_eq!(s.len(), 2);
    assert!(s.contains(1));
    s.remove(3);
    assert_eq!(s.to_vec(), vec![1]);
    assert!(!s.contains(3));
    s.remove(42);
    assert_eq!(s.to_vec(), vec![1]);
    s.remove(1);
    assert!(s.is_empty());
    let c = s.clone();
    assert!(c.is_empty());
}

#[test]
fn layers() {
    assert_eq!(EntityGridLayer::max_layer(), EntityGridLayer(7));
    let all = EntityGridLayer::all_layers();
    for (i, l) in all.iter().enumerate() {
        assert_eq!(l.0, i);
    }
    assert_eq!(EntityGridLayer::default(), EntityGridLayer(0));
}

#[test]
fn update_moves_entity_and_reports() {
    let mut g = grid(4, 4);
    let layer = EntityGridLayer(2);
    let ev = g.update(9, layer, None, (1, 1)).unwrap();
    assert_eq!(
        ev,
        EntityGridEvent {
            entity: 9,
            layer,
            prev_rowcol: None,
            prev_empty: false,
            rowcol: Some((1, 1))
        }
    );
    assert_eq!(members(&g, (1, 1), 2), vec![9]);
    // Same cell: nothing happens.
    assert_eq!(g.update(9, layer, Some((1, 1)), (1, 1)), None);
    // Another entity joins, then 9 leaves for (2, 3).
    g.update(10, layer, None, (1, 1)).unwrap();
    let ev = g.update(9, layer, Some((1, 1)), (2, 3)).unwrap();
    assert_eq!(ev.prev_rowcol, Some((1, 1)));
    assert!(!ev.prev_empty);
    assert_eq!(ev.rowcol, Some((2, 3)));
    assert_eq!(members(&g, (1, 1), 2), vec![10]);
    assert_eq!(members(&g, (2, 3), 2), vec![9]);
    // Leaving a cell empty is reported.
    let ev = g.update(10, layer, Some((1, 1)), (0, 0)).unwrap();
    assert!(ev.prev_empty);
    // Other layers are untouched.
    assert!(members(&g, (0, 0), 1).is_empty());
}

#[test]
fn update_into_missing_cell() {
    let mut g = grid(2, 2);
    let layer = EntityGridLayer(0);
    g.update(5, layer, None, (0, 1)).unwrap();
    // (3, 3) is not held: the entity leaves its cell and no event comes.
    assert_eq!(g.update(5, layer, Some((0, 1)), (3, 3)), None);
    assert!(members(&g, (0, 1), 0).is_empty());
}

#[test]
fn remove_reports_and_undoes_update() {
    let mut g = grid(3, 3);
    let layer = EntityGridLayer(1);
    g.update(4, layer, None, (2, 2)).unwrap();
    let ev = g.remove(4, layer, (2, 2)).unwrap();
    assert_eq!(
        ev,
        EntityGridEvent {
            entity: 4,
            layer,
            prev_rowcol: Some((2, 2)),
            prev_empty: true,
            rowcol: None
        }
    );
    assert!(members(&g, (2, 2), 1).is_empty());
    assert_eq!(g.remove(4, layer, (7, 7)), None);
}

#[test]
fn grid_entity_tracks_its_cell() {
    let mut g = grid(5, 5);
    let mut ge = GridEntity { rowcol: None, layer: EntityGridLayer(3) };
    assert!(ge.update_cell(11, Some((2, 2)), &mut g).is_some());
    assert_eq!(ge.rowcol, Some((2, 2)));
    assert_eq!(ge.update_cell(11, Some((2, 2)), &mut g), None);
    assert!(ge.update_cell(11, Some((4, 0)), &mut g).is_some());
    assert_eq!(ge.rowcol, Some((4, 0)));
    for r in 0..5 {
        for c in 0..5 {
            let here = members(&g, (r, c), 3).contains(&11);
            assert_eq!(here, (r, c) == (4, 0));
        }
    }
    // Off the grid: removed, and the removal is reported.
    assert_eq!(
        ge.update_cell(11, None, &mut g),
        Some(EntityGridEvent {
            entity: 11,
            layer: EntityGridLayer(3),
            prev_rowcol: Some((4, 0)),
            prev_empty: true,
            rowcol: None
        })
    );
    assert_eq!(ge.rowcol, None);
    assert!(members(&g, (4, 0), 3).is_empty());
    // Already off the grid: nothing to report.
    assert_eq!(ge.update_cell(11, None, &mut g), None);
}

#[test]
fn grid_entity_remove_from() {
    let mut g = grid(2, 2);
    let mut ge = GridEntity { rowcol: None, layer: EntityGridLayer(0) };
    assert_eq!(ge.remove_from(6, &mut g), None);
    ge.update_cell(6, Some((1, 0)), &mut g).unwrap();
    let ev = ge.remove_from(6, &mut g).unwrap();
    assert_eq!(ev.prev_rowcol, Some((1, 0)));
    assert!(ev.prev_empty);
    assert!(members(&g, (1, 0), 0).is_empty());
}

#[test]
fn entities_in_box_each_once() {
    let mut g = grid(4, 4);
    g.update(1, EntityGridLayer(0), None, (0, 0)).unwrap();
    g.update(2, EntityGridLayer(1), None, (1, 1)).unwrap();
    g.update(2, EntityGridLayer(0), None, (1, 1)).unwrap();
    g.update(3, EntityGridLayer(6), None, (1, 2)).unwrap();
    g.update(4, EntityGridLayer(0), None, (3, 3)).unwrap();
    let mut found = g.get_entities_in_rowcol_box((0, 0), (1, 2));
    found.sort();
    assert_eq!(found, vec![1, 2, 3]);
    let mut all = g.get_entities_in_rowcol_box((0, 0), (9, 9));
    all.sort();
    assert_eq!(all, vec![1, 2, 3, 4]);
    assert!(g.get_entities_in_rowcol_box((2, 2), (1, 1)).is_empty());
}

#[test]
fn layer_iterator_walks_layers_in_order() {
    let mut g = grid(3, 3);
    g.update(1, EntityGridLayer(0), None, (1, 1)).unwrap();
    g.update(2, EntityGridLayer(2), None, (1, 1)).unwrap();
    g.update(3, EntityGridLayer(2), None, (1, 1)).unwrap();
    g.update(4, EntityGridLayer(0), None, (2, 2)).unwrap();
    let mut it = EntityLayerRadiusIterator::new(
        vec![EntityGridLayer(2), EntityGridLayer(0)],
        vec![(0, 0), (1, 1), (2, 2)],
    );
    let mut out = Vec::new();
    while it.can_advance(&g) {
        match it.next(&g) {
            Some(x) => out.push(x),
            None => break,
        }
    }
    assert_eq!(
        out,
        vec![
            (2, EntityGridLayer(2)),
            (3, EntityGridLayer(2)),
            (1, EntityGridLayer(0)),
            (4, EntityGridLayer(0)),
        ]
    );
    assert!(it.can_advance(&g));
    assert_eq!(it.next(&g), None);
}

#[test]
fn layer_iterator_stops_before_bad_index() {
    let mut g = grid(2, 2);
    g.update(5, EntityGridLayer(1), None, (0, 0)).unwrap();
    // A layer without a set is only a problem once the walk reaches it.
    let mut it = EntityLayerRadiusIterator::new(
        vec![EntityGridLayer(1), EntityGridLayer(9)],
        vec![(0, 0)],
    );
    assert!(it.can_advance(&g));
    assert_eq!(it.next(&g), Some((5, EntityGridLayer(1))));
    assert!(!it.can_advance(&g));
    // An in-bounds cell of a grid not yet sized to its spec.
    let unsized_grid = EntitySetsGrid(SpatialGrid2 {
        spec: SpatialGridSpec { rows: 2, cols: 2 },
        cells: Vec::new(),
    });
    let it = EntityLayerRadiusIterator::new(vec![EntityGridLayer(0)], vec![(1, 1)]);
    assert!(!it.can_advance(&unsized_grid));
    // A cell outside the grid is passed over.
    let mut it = EntityLayerRadiusIterator::new(vec![EntityGridLayer(0)], vec![(5, 5)]);
    assert!(it.can_advance(&g));
    assert_eq!(it.next(&g), None);
    // No layers: no cell is looked at.
    let mut it = EntityLayerRadiusIterator::new(vec![], vec![(5, 5)]);
    assert!(it.can_advance(&g));
    assert_eq!(it.next(&g), None);
}

#[test]
fn layers_without_sets_where_no_set_is_touched() {
    let mut g = grid(2, 2);
    let far = EntityGridLayer(9);
    // Same cell: nothing happens, whatever the layer.
    assert_eq!(g.update(1, far, Some((1, 1)), (1, 1)), None);
    // Neither cell held.
    assert_eq!(g.update(1, far, Some((5, 5)), (6, 6)), None);
    // Removing from a cell the grid does not hold.
    assert_eq!(g.remove(1, far, (7, 7)), None);
    let ge = GridEntity { rowcol: None, layer: far };
    assert_eq!(ge.remove_from(1, &mut g), None);
}

#[test]
fn update_keeps_iteration_order() {
    let mut g = grid(2, 2);
    let layer = EntityGridLayer(0);
    g.update(1, layer, None, (0, 0)).unwrap();
    g.update(2, layer, None, (0, 0)).unwrap();
    g.update(3, layer, None, (0, 0)).unwrap();
    // Already there: its place in the order is kept.
    g.update(1, layer, None, (0, 0)).unwrap();
    assert_eq!(members(&g, (0, 0), 0), vec![1, 2, 3]);
    // Leaving keeps the others' order; entering appends.
    g.update(2, layer, Some((0, 0)), (1, 1)).unwrap();
    assert_eq!(members(&g, (0, 0), 0), vec![1, 3]);
    g.update(2, layer, Some((1, 1)), (0, 0)).unwrap();
    assert_eq!(members(&g, (0, 0), 0), vec![1, 3, 2]);
}

#[test]
fn layer_iterator_skips_cells_outside_the_grid() {
    // On a 3x3 grid the cell (0, 3) lies outside; its row-major position is
    // that of (1, 0), whose entity must not be met.
    let mut g = grid(3, 3);
    g.update(7, EntityGridLayer(0), None, (1, 0)).unwrap();
    g.update(8, EntityGridLayer(0), None, (0, 2)).unwrap();
    let mut it = EntityLayerRadiusIterator::new(vec![EntityGridLayer(0)], vec![(0, 2), (0, 3)]);
    let mut out = Vec::new();
    while it.can_advance(&g) {
        match it.next(&g) {
            Some(x) => out.push(x),
            None => break,
        }
    }
    assert_eq!(out, vec![(8, EntityGridLayer(0))]);
    assert_eq!(it.next(&g), None);
}
