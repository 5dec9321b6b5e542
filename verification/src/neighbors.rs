use vstd::prelude::*;

verus! {

/// Most neighbors kept per layer group in a frame.
pub const MAX_NEIGHBORS: usize = 16;

/// Most collisions kept per layer group in a frame.
pub const MAX_COLLISIONS: usize = 4;

/// What the search found out about one entity met in the searched cells.
#[derive(Copy, Clone, Debug, PartialEq, Eq, Structural)]
pub struct NeighborCandidate {
    /// The entity met (its `Entity::to_bits` value).
    pub entity: u64,
    /// The entity has the position and collider the search reads.
    pub found: bool,
    /// Its squared distance lies within the searcher's neighbor radius.
    pub in_radius: bool,
    /// Its collider overlaps the searcher's.
    pub colliding: bool,
}

/// The candidate is a neighbor of `searcher`.
pub open spec fn is_neighbor(searcher: u64, c: NeighborCandidate) -> bool {
    c.entity != searcher && c.found && c.in_radius
}

/// Positions of the candidates that are neighbors of `searcher`, in order.
pub open spec fn neighbor_positions(searcher: u64, candidates: Seq<NeighborCandidate>) -> Seq<int> {
    Seq::new(candidates.len(), |i: int| i).filter(|i: int| is_neighbor(searcher, candidates[i]))
}

/// The neighbors kept: the first `MAX_NEIGHBORS` neighbors.
pub open spec fn kept_neighbors(searcher: u64, candidates: Seq<NeighborCandidate>) -> Seq<int> {
    let all = neighbor_positions(searcher, candidates);
    if all.len() <= MAX_NEIGHBORS {
        all
    } else {
        all.take(MAX_NEIGHBORS as int)
    }
}

/// The collisions kept: the first `MAX_COLLISIONS` kept neighbors whose
/// colliders overlap the searcher's, in order.
pub open spec fn kept_collisions(searcher: u64, candidates: Seq<NeighborCandidate>) -> Seq<int> {
    let all = kept_neighbors(searcher, candidates).filter(|i: int| candidates[i].colliding);
    if all.len() <= MAX_COLLISIONS {
        all
    } else {
        all.take(MAX_COLLISIONS as int)
    }
}

/// Chooses, among the entities met in the searched cells (in the order met),
/// the neighbors of `searcher` and its collisions. Returns their positions in
/// `candidates`: the first `MAX_NEIGHBORS` neighbors, in order, and the first
/// `MAX_COLLISIONS` of those whose colliders overlap the searcher's, in order.
/// The searcher itself is never its own neighbor.
pub fn select_neighbors(searcher: u64, candidates: &Vec<NeighborCandidate>) -> (r: (
    Vec<usize>,
    Vec<usize>,
))
    ensures
        r.0@.map_values(|i: usize| i as int) == kept_neighbors(searcher, candidates@),
        r.1@.map_values(|i: usize| i as int) == kept_collisions(searcher, candidates@),
{
    let mut neighbors: Vec<usize> = Vec::new();
    let mut collisions: Vec<usize> = Vec::new();
    let ghost nb = |i: int| is_neighbor(searcher, candidates@[i]);
    let ghost co = |i: int| candidates@[i].colliding;
    let mut k: usize = 0;
    while k < candidates.len()
        invariant
            k <= candidates.len(),
            nb == (|i: int| is_neighbor(searcher, candidates@[i])),
            co == (|i: int| candidates@[i].colliding),
            neighbors@.map_values(|i: usize| i as int) == ({
                let all = Seq::new(k as nat, |i: int| i).filter(nb);
                if all.len() <= MAX_NEIGHBORS { all } else { all.take(MAX_NEIGHBORS as int) }
            }),
            collisions@.map_values(|i: usize| i as int) == ({
                let all = neighbors@.map_values(|i: usize| i as int).filter(co);
                if all.len() <= MAX_COLLISIONS { all } else { all.take(MAX_COLLISIONS as int) }
            }),
        decreases candidates.len() - k,
    {
        let c = candidates[k];
        let ghost idx = Seq::new(k as nat, |i: int| i);
        let ghost idx1 = Seq::new((k + 1) as nat, |i: int| i);
        let ghost kn = neighbors@.map_values(|i: usize| i as int);
        proof {
            assert(idx1 =~= idx.push(k as int));
            idx.lemma_filter_push(k as int, nb);
            kn.lemma_filter_push(k as int, co);
        }
        if c.entity != searcher && c.found && c.in_radius && neighbors.len() < MAX_NEIGHBORS {
            neighbors.push(k);
            if c.colliding && collisions.len() < MAX_COLLISIONS {
                collisions.push(k);
            }
        }
        proof {
            let alln = idx.filter(nb);
            let alln1 = idx1.filter(nb);
            let kn1 = neighbors@.map_values(|i: usize| i as int);
            let allc = kn.filter(co);
            if nb(k as int) {
                assert(alln1 == alln.push(k as int));
                if alln.len() < MAX_NEIGHBORS {
                    assert(kn1 =~= kn.push(k as int));
                    assert(kn1 =~= alln1);
                    if co(k as int) {
                        assert(kn1.filter(co) == allc.push(k as int));
                        if allc.len() < MAX_COLLISIONS {
                            assert(collisions@.map_values(|i: usize| i as int) =~= allc.push(k as int));
                        } else {
                            assert(allc.push(k as int).take(MAX_COLLISIONS as int) =~= allc.take(MAX_COLLISIONS as int));
                        }
                    } else {
                        assert(kn1.filter(co) == allc);
                    }
                } else {
                    assert(alln1.take(MAX_NEIGHBORS as int) =~= alln.take(MAX_NEIGHBORS as int));
                    assert(kn1 =~= kn);
                }
            } else {
                assert(alln1 == alln);
                assert(kn1 =~= kn);
            }
        }
        k = k + 1;
    }
    (neighbors, collisions)
}

} // verus!

verus! {

/// The selection is consistent: the searcher is never among its neighbors, at
/// most `MAX_NEIGHBORS` neighbors and `MAX_COLLISIONS` collisions are kept, and
/// every kept collision is a kept neighbor whose collider overlaps the
/// searcher's.
pub proof fn lemma_selection_consistent(searcher: u64, candidates: Seq<NeighborCandidate>)
    ensures
        forall|j: int|
            0 <= j < kept_neighbors(searcher, candidates).len() ==> {
                let p = #[trigger] kept_neighbors(searcher, candidates)[j];
                &&& 0 <= p < candidates.len()
                &&& is_neighbor(searcher, candidates[p])
                &&& candidates[p].entity != searcher
            },
        kept_neighbors(searcher, candidates).len() <= MAX_NEIGHBORS,
        kept_collisions(searcher, candidates).len() <= MAX_COLLISIONS,
        forall|j: int|
            0 <= j < kept_collisions(searcher, candidates).len() ==> {
                let p = #[trigger] kept_collisions(searcher, candidates)[j];
                &&& kept_neighbors(searcher, candidates).contains(p)
                &&& candidates[p].colliding
            },
{
    let idx = Seq::new(candidates.len(), |i: int| i);
    let nb = |i: int| is_neighbor(searcher, candidates[i]);
    let co = |i: int| candidates[i].colliding;
    let kn = kept_neighbors(searcher, candidates);
    assert forall|j: int| 0 <= j < kn.len() implies {
        let p = #[trigger] kn[j];
        &&& 0 <= p < candidates.len()
        &&& is_neighbor(searcher, candidates[p])
        &&& candidates[p].entity != searcher
    } by {
        let all = idx.filter(nb);
        assert(kn[j] == all[j]);
        idx.lemma_filter_pred(nb, j);
        let x = all[j];
        assert(all.contains(x));
        idx.lemma_filter_contains_rev(nb, x);
        let p = choose|p: int| 0 <= p < idx.len() && idx[p] == x;
        assert(idx[p] == p);
    }
    assert forall|j: int| 0 <= j < kept_collisions(searcher, candidates).len() implies {
        let p = #[trigger] kept_collisions(searcher, candidates)[j];
        &&& kn.contains(p)
        &&& candidates[p].colliding
    } by {
        let all = kn.filter(co);
        assert(kept_collisions(searcher, candidates)[j] == all[j]);
        kn.lemma_filter_pred(co, j);
        let x = all[j];
        assert(all.contains(x));
        kn.lemma_filter_contains_rev(co, x);
    }
}

/// Positions among the first `n` candidates that are neighbors of `searcher`.
spec fn positions_upto(searcher: u64, candidates: Seq<NeighborCandidate>, n: int) -> Seq<int> {
    Seq::new(n as nat, |i: int| i).filter(|i: int| is_neighbor(searcher, candidates[i]))
}

/// Counting neighbor positions among the first `n` candidates counts the
/// neighbors among them.
proof fn lemma_positions_upto_count(searcher: u64, candidates: Seq<NeighborCandidate>, n: int)
    requires
        0 <= n <= candidates.len(),
    ensures
        positions_upto(searcher, candidates, n).len() == candidates.take(n).filter(
            |c: NeighborCandidate| is_neighbor(searcher, c),
        ).len(),
    decreases n,
{
    let nb = |i: int| is_neighbor(searcher, candidates[i]);
    let isnb = |c: NeighborCandidate| is_neighbor(searcher, c);
    if n > 0 {
        lemma_positions_upto_count(searcher, candidates, n - 1);
        let idx = Seq::new((n - 1) as nat, |i: int| i);
        assert(Seq::new(n as nat, |i: int| i) =~= idx.push(n - 1));
        idx.lemma_filter_push(n - 1, nb);
        let t = candidates.take(n - 1);
        assert(candidates.take(n) =~= t.push(candidates[n - 1]));
        t.lemma_filter_push(candidates[n - 1], isnb);
    } else {
        assert(candidates.take(0) =~= Seq::<NeighborCandidate>::empty());
        assert(Seq::new(0, |i: int| i) =~= Seq::<int>::empty());
    }
}

/// The neighbor positions among the first `n` candidates begin those among
/// the first `m`, for `n <= m`.
proof fn lemma_positions_upto_prefix(searcher: u64, candidates: Seq<NeighborCandidate>, n: int, m: int)
    requires
        0 <= n <= m,
    ensures
        positions_upto(searcher, candidates, n).len() <= positions_upto(searcher, candidates, m).len(),
        forall|j: int|
            0 <= j < positions_upto(searcher, candidates, n).len() ==> positions_upto(searcher, candidates, m)[j]
                == #[trigger] positions_upto(searcher, candidates, n)[j],
    decreases m - n,
{
    if n < m {
        lemma_positions_upto_prefix(searcher, candidates, n, m - 1);
        let nb = |i: int| is_neighbor(searcher, candidates[i]);
        let idx = Seq::new((m - 1) as nat, |i: int| i);
        assert(Seq::new(m as nat, |i: int| i) =~= idx.push(m - 1));
        idx.lemma_filter_push(m - 1, nb);
    }
}

/// Every neighbor met while fewer than `MAX_NEIGHBORS` neighbors come before
/// it is kept, however many other candidates come before it; and as many
/// neighbors are kept as there are, up to `MAX_NEIGHBORS`.
pub proof fn lemma_neighbors_kept_until_full(searcher: u64, candidates: Seq<NeighborCandidate>)
    ensures
        kept_neighbors(searcher, candidates).len() == if candidates.filter(
            |c: NeighborCandidate| is_neighbor(searcher, c),
        ).len() <= MAX_NEIGHBORS {
            candidates.filter(|c: NeighborCandidate| is_neighbor(searcher, c)).len()
        } else {
            MAX_NEIGHBORS as nat
        },
        forall|p: int|
            0 <= p < candidates.len() && is_neighbor(searcher, #[trigger] candidates[p])
                && candidates.take(p).filter(|c: NeighborCandidate| is_neighbor(searcher, c)).len()
                < MAX_NEIGHBORS ==> kept_neighbors(searcher, candidates).contains(p),
{
    let n = candidates.len() as int;
    let full = neighbor_positions(searcher, candidates);
    assert(full == positions_upto(searcher, candidates, n));
    lemma_positions_upto_count(searcher, candidates, n);
    assert(candidates.take(n) =~= candidates);
    assert forall|p: int|
        0 <= p < candidates.len() && is_neighbor(searcher, #[trigger] candidates[p])
            && candidates.take(p).filter(|c: NeighborCandidate| is_neighbor(searcher, c)).len()
            < MAX_NEIGHBORS implies kept_neighbors(searcher, candidates).contains(p) by {
        let nb = |i: int| is_neighbor(searcher, candidates[i]);
        lemma_positions_upto_count(searcher, candidates, p);
        let before = positions_upto(searcher, candidates, p);
        let idx = Seq::new(p as nat, |i: int| i);
        assert(Seq::new((p + 1) as nat, |i: int| i) =~= idx.push(p));
        idx.lemma_filter_push(p, nb);
        let upto = positions_upto(searcher, candidates, p + 1);
        assert(upto == before.push(p));
        let c = before.len() as int;
        assert(upto[c] == p);
        lemma_positions_upto_prefix(searcher, candidates, p + 1, n);
        assert(full[c] == p);
        let kept = kept_neighbors(searcher, candidates);
        assert(c < kept.len());
        assert(kept[c] == p);
    }
}

} // verus!
