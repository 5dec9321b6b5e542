use bevy_spatialgrid2d::{select_neighbors, NeighborCandidate, MAX_COLLISIONS, MAX_NEIGHBORS};

fn cand(entity: u64, found: bool, in_radius: bool, colliding: bool) -> NeighborCandidate {
    NeighborCandidate { entity, found, in_radius, colliding }
}

#[test]
fn constants() {
    assert_eq!(MAX_NEIGHBORS, 16);
    assert_eq!(MAX_COLLISIONS, 4);
}

#[test]
fn skips_self_missing_and_far() {
    let cs = vec![
        cand(1, true, true, false),
        cand(7, true, true, true), // the searcher itself
        cand(2, false, true, true), // not found
        cand(3, true, false, true), // out of radius
        cand(4, true, true, true),
    ];
    let (neighbors, collisions) = select_neighbors(7, &cs);
    assert_eq!(neighbors, vec![0, 4]);
    assert_eq!(collisions, vec![4]);
}

#[test]
fn collisions_capped_at_first_four() {
    let cs: Vec<NeighborCandidate> = (0..10).map(|e| cand(e, true, true, e != 2)).collect();
    let (neighbors, collisions) = select_neighbors(100, &cs);
    assert_eq!(neighbors, (0..10).collect::<Vec<usize>>());
    assert_eq!(collisions, vec![0, 1, 3, 4]);
}

#[test]
fn empty_candidates() {
    let (neighbors, collisions) = select_neighbors(1, &Vec::new());
    assert!(neighbors.is_empty());
    assert!(collisions.is_empty());
}

#[test]
fn neighbors_capped_at_first_sixteen() {
    // 44 entities around the searcher within its radius, as in a 0.5-spaced
    // lattice searched with radius 2.
    let cs: Vec<NeighborCandidate> = (0..44).map(|e| cand(e, true, true, e % 10 == 0)).collect();
    let (neighbors, collisions) = select_neighbors(1000, &cs);
    assert_eq!(neighbors.len(), 16);
    assert_eq!(neighbors, (0..16).collect::<Vec<usize>>());
    // Collisions are drawn from the kept neighbors only.
    assert_eq!(collisions, vec![0, 10]);
}
