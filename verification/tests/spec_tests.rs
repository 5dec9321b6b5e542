use bevy_spatialgrid2d::{steps8, RowCol, RowColIterator, SpatialGridSpec};

fn spec3() -> SpatialGridSpec {
    SpatialGridSpec { rows: 3, cols: 3 }
}

#[test]
fn boundary() {
    let spec = spec3();
    assert!(spec.is_boundary((0, 0)));
    assert!(spec.is_boundary((0, 1)));
    assert!(spec.is_boundary((0, 2)));
    assert!(spec.is_boundary((2, 2)));
    assert!(!spec.is_boundary((1, 1)));
}

#[test]
fn iter_rowcol() {
    // The cells between the corners (0, 0) and (2, 2) of a 3x3 grid.
    let mut it = RowColIterator::new(spec3(), (0, 0), (2, 2));
    let mut rcs: Vec<RowCol> = Vec::new();
    while let Some(rc) = it.next_cell() {
        rcs.push(rc);
    }
    assert_eq!(
        rcs,
        vec![
            (0, 0),
            (0, 1),
            (0, 2),
            (1, 0),
            (1, 1),
            (1, 2),
            (2, 0),
            (2, 1),
            (2, 2),
        ]
    );
    assert_eq!(it.next_cell(), None);
}

#[test]
fn iter_rowcol_clamps_lexicographically() {
    // The far corner is clamped as a tuple: (1, 5) < (2, 2), so it stays.
    let mut it = RowColIterator::new(spec3(), (1, 4), (1, 5));
    assert_eq!(it.next_cell(), Some((1, 4)));
    assert_eq!(it.next_cell(), Some((1, 5)));
    assert_eq!(it.next_cell(), None);
    // (7, 0) > (2, 2), so the scan stops at (2, 2).
    let mut it = RowColIterator::new(spec3(), (2, 1), (7, 0));
    assert_eq!(it.next_cell(), Some((2, 1)));
    assert_eq!(it.next_cell(), Some((2, 2)));
    assert_eq!(it.next_cell(), None);
}

#[test]
fn iter_rowcol_empty_when_columns_cross() {
    let mut it = RowColIterator::new(spec3(), (0, 2), (2, 1));
    assert_eq!(it.next_cell(), None);
    assert_eq!(it.next_cell(), None);
}

#[test]
fn default_spec_is_64_by_64() {
    let spec = SpatialGridSpec::default();
    assert_eq!(spec.rows, 64);
    assert_eq!(spec.cols, 64);
}

#[test]
fn flat_index_is_row_major() {
    let spec = SpatialGridSpec { rows: 4, cols: 5 };
    assert_eq!(spec.flat_index((0, 0)), 0);
    assert_eq!(spec.flat_index((0, 4)), 4);
    assert_eq!(spec.flat_index((1, 0)), 5);
    assert_eq!(spec.flat_index((3, 4)), 19);
    // Out of bounds cells still get an index.
    assert_eq!(spec.flat_index((2, 7)), 17);
}

#[test]
fn flat_index_distinct_for_in_bounds_cells() {
    let spec = SpatialGridSpec { rows: 4, cols: 5 };
    let mut seen = Vec::new();
    for r in 0..4 {
        for c in 0..5 {
            let i = spec.flat_index((r, c));
            assert!(i < 20);
            assert!(!seen.contains(&i));
            seen.push(i);
        }
    }
}

#[test]
fn in_bounds_checks() {
    let spec = SpatialGridSpec { rows: 4, cols: 5 };
    assert!(spec.in_bounds((3, 4)));
    assert!(!spec.in_bounds((4, 0)));
    assert!(!spec.in_bounds((0, 5)));
    assert!(spec.in_bounds_bilinear((2, 3)));
    assert!(!spec.in_bounds_bilinear((3, 0)));
    assert!(!spec.in_bounds_bilinear((0, 4)));
}

#[test]
fn boundary_n_and_near_boundary() {
    let spec = SpatialGridSpec { rows: 6, cols: 6 };
    assert!(spec.is_near_boundary((1, 3)));
    assert!(spec.is_near_boundary((4, 3)));
    assert!(!spec.is_near_boundary((2, 3)));
    assert!(!spec.is_near_boundary((3, 2)));
    assert!(spec.is_boundary_n((3, 3), 3));
    assert!(!spec.is_boundary_n((3, 3), 0));
    // Boundary cells are near-boundary cells.
    for r in 0..6 {
        for c in 0..6 {
            if spec.is_boundary((r, c)) {
                assert!(spec.is_near_boundary((r, c)));
            }
        }
    }
}

#[test]
fn neighbors4_order_and_symmetry() {
    let spec = SpatialGridSpec { rows: 8, cols: 8 };
    let n = spec.neighbors4((3, 5));
    assert_eq!(n, [(4, 5), (3, 6), (2, 5), (3, 4)]);
    for q in n {
        assert!(spec.neighbors4(q).contains(&(3, 5)));
    }
}

#[test]
fn neighbors8_order_and_weights() {
    let spec = SpatialGridSpec { rows: 8, cols: 8 };
    let n = spec.neighbors8((3, 5));
    assert_eq!(
        n,
        [
            ((4, 4), true),
            ((4, 5), false),
            ((4, 6), true),
            ((3, 6), false),
            ((2, 6), true),
            ((2, 5), false),
            ((2, 4), true),
            ((3, 4), false),
        ]
    );
    for (q, diagonal) in n {
        let expected = if diagonal { (1, 0) } else { (0, 1) };
        assert_eq!(steps8((3, 5), q), expected);
    }
}

#[test]
fn bilinear_cells_square() {
    let spec = SpatialGridSpec { rows: 3, cols: 3 };
    assert_eq!(spec.bilinear_cells((1, 1)), [(1, 1), (2, 1), (1, 2), (2, 2)]);
}

#[test]
fn get_in_rowcol_box_row_major_in_bounds() {
    let spec = SpatialGridSpec { rows: 3, cols: 4 };
    assert_eq!(
        spec.get_in_rowcol_box((1, 2), (2, 3)),
        vec![(1, 2), (1, 3), (2, 2), (2, 3)]
    );
    // The box is clipped to the grid.
    assert_eq!(spec.get_in_rowcol_box((2, 3), (5, 6)), vec![(2, 3)]);
    assert_eq!(
        spec.get_in_rowcol_box((1, 0), (u32::MAX, u32::MAX)),
        vec![(1, 0), (1, 1), (1, 2), (1, 3), (2, 0), (2, 1), (2, 2), (2, 3)]
    );
    assert_eq!(spec.get_in_rowcol_box((2, 2), (1, 1)), Vec::<RowCol>::new());
    assert_eq!(spec.get_in_rowcol_box((3, 0), (9, 9)), Vec::<RowCol>::new());
}

#[test]
fn get_in_rowcol_box_corner_off_grid() {
    // A box whose low corner lies off a 3x3 grid (saturated to (0, 0)) and
    // whose high corner is (1, 1).
    let spec = spec3();
    assert_eq!(
        spec.get_in_rowcol_box((0, 0), (1, 1)),
        vec![(0, 0), (0, 1), (1, 0), (1, 1)]
    );
}

#[test]
fn steps8_values() {
    assert_eq!(steps8((0, 0), (3, 1)), (1, 2));
    assert_eq!(steps8((3, 1), (0, 0)), (1, 2));
    assert_eq!(steps8((5, 5), (5, 5)), (0, 0));
    assert_eq!(steps8((2, 7), (6, 3)), (4, 0));
    assert_eq!(steps8((0, 10), (1, 0)), (1, 9));
}
