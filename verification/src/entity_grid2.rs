use vstd::prelude::*;

use crate::entity_set::{lemma_order_unique, lemma_view_is_order_members, order_with, order_without, EntitySet};
use crate::grid2::{is_default_value, SpatialGrid2};
use crate::entity_hash_set::{entity_hash_set_contents, entity_hash_set_extend, entity_hash_set_into_vec, entity_hash_set_new};
use crate::spec::{in_box, lemma_flat_index_in_range_and_unique, SpatialGridSpec};
use crate::rowcol::RowCol;

verus! {

/// Number of entity sets each cell holds: one per layer below `MAX_LAYER`.
pub const LAYER_SETS: usize = 7;

/// System set that allows scheduling systems after the grid updates are complete.
#[derive(Copy, Clone, Debug, PartialEq, Eq, Hash, Structural)]
pub enum EntityGridSystem {
    UpdateGrid,
}

/// Allows distinct layers to the entity grid.
#[derive(Copy, Clone, Debug, Default, PartialEq, Eq, Hash, Structural)]
pub struct EntityGridLayer(pub usize);

impl EntityGridLayer {
    /// The highest layer.
    pub fn max_layer() -> (r: EntityGridLayer)
        ensures
            r.0 == 7,
    {
        EntityGridLayer(7)
    }

    /// Every layer, from 0 up to `max_layer()`.
    pub fn all_layers() -> (r: [EntityGridLayer; 8])
        ensures
            forall|i: int| 0 <= i < 8 ==> (#[trigger] r@[i]).0 == i,
    {
        [
            EntityGridLayer(0),
            EntityGridLayer(1),
            EntityGridLayer(2),
            EntityGridLayer(3),
            EntityGridLayer(4),
            EntityGridLayer(5),
            EntityGridLayer(6),
            EntityGridLayer(7),
        ]
    }

    /// The layer has an entity set in every cell.
    pub open spec fn has_set(self) -> bool {
        self.0 < LAYER_SETS
    }
}

/// The entity sets of one cell, one per layer.
pub struct EntitySets(pub [EntitySet; 7]);

impl EntitySets {
    /// The members of each layer's set.
    pub open spec fn sets(self) -> Seq<Set<u64>> {
        self.0@.map_values(|s: EntitySet| s@)
    }

    /// The members of each layer's set, in iteration order.
    pub open spec fn orders(self) -> Seq<Seq<u64>> {
        self.0@.map_values(|s: EntitySet| s.order())
    }

    /// The set of a layer.
    pub fn index(&self, layer: EntityGridLayer) -> (r: &EntitySet)
        requires
            layer.has_set(),
        ensures
            *r == self.0@[layer.0 as int],
    {
        &self.0[layer.0]
    }

    /// The set of a layer, for modification.
    pub fn index_mut(&mut self, layer: EntityGridLayer) -> (r: &mut EntitySet)
        requires
            layer.has_set(),
        ensures
            *r == old(self).0@[layer.0 as int],
            final(self).0@ == old(self).0@.update(layer.0 as int, *final(r)),
    {
        &mut self.0[layer.0]
    }
}

impl Default for EntitySets {
    fn default() -> (r: Self)
        ensures
            forall|l: int|
                0 <= l < LAYER_SETS ==> (#[trigger] r.0@[l])@ == Set::<u64>::empty() && r.0@[l].order()
                    == Seq::<u64>::empty(),
    {
        EntitySets(
            [
                EntitySet::new(),
                EntitySet::new(),
                EntitySet::new(),
                EntitySet::new(),
                EntitySet::new(),
                EntitySet::new(),
                EntitySet::new(),
            ],
        )
    }
}

impl Clone for EntitySets {
    fn clone(&self) -> (r: Self)
        ensures
            forall|l: int|
                0 <= l < LAYER_SETS ==> (#[trigger] r.0@[l])@ == self.0@[l]@ && r.0@[l].order()
                    == self.0@[l].order(),
    {
        EntitySets(
            [
                self.0[0].clone(),
                self.0[1].clone(),
                self.0[2].clone(),
                self.0[3].clone(),
                self.0[4].clone(),
                self.0[5].clone(),
                self.0[6].clone(),
            ],
        )
    }
}

} // verus!

verus! {

/// The per-cell, per-layer entity sets of a grid.
pub type GridSets = Seq<Seq<Set<u64>>>;

/// `sets` with `entity` taken out of layer `layer` of slot `slot`.
pub open spec fn with_removed(sets: GridSets, slot: int, layer: int, entity: u64) -> GridSets {
    sets.update(slot, sets[slot].update(layer, sets[slot][layer].remove(entity)))
}

/// `sets` with `entity` added to layer `layer` of slot `slot`.
pub open spec fn with_inserted(sets: GridSets, slot: int, layer: int, entity: u64) -> GridSets {
    sets.update(slot, sets[slot].update(layer, sets[slot][layer].insert(entity)))
}

/// The per-cell, per-layer members of a grid's sets, in iteration order.
pub type GridOrders = Seq<Seq<Seq<u64>>>;

/// `orders` with `entity` taken out of layer `layer` of slot `slot`; the
/// others keep their order.
pub open spec fn with_removed_order(orders: GridOrders, slot: int, layer: int, entity: u64) -> GridOrders {
    orders.update(
        slot,
        orders[slot].update(layer, order_without(orders[slot][layer], entity)),
    )
}

/// `orders` with `entity` appended to layer `layer` of slot `slot`, unless it
/// is there already.
pub open spec fn with_inserted_order(orders: GridOrders, slot: int, layer: int, entity: u64) -> GridOrders {
    orders.update(slot, orders[slot].update(layer, order_with(orders[slot][layer], entity)))
}

/// Communicates updates to the grid to other systems.
#[derive(Copy, Clone, Debug, PartialEq, Eq)]
pub struct EntityGridEvent {
    pub entity: u64,
    pub layer: EntityGridLayer,
    pub prev_rowcol: Option<RowCol>,
    pub prev_empty: bool,
    pub rowcol: Option<RowCol>,
}

/// Grid holding, in each cell, the set of entities of each layer found there.
#[derive(Default)]
pub struct EntitySetsGrid(pub SpatialGrid2<EntitySets>);

impl EntitySetsGrid {
    /// Entity sets of every cell slot, by layer.
    pub open spec fn sets(self) -> GridSets {
        self.0.cells@.map_values(|c: EntitySets| c.sets())
    }

    /// Members of every cell slot's sets, by layer, in iteration order.
    pub open spec fn orders(self) -> GridOrders {
        self.0.cells@.map_values(|c: EntitySets| c.orders())
    }

    /// The iteration orders once `entity` is taken out of its layer's set at
    /// `rowcol`, if the grid holds that cell.
    pub open spec fn orders_after_remove(self, entity: u64, layer: EntityGridLayer, rowcol: RowCol) -> GridOrders {
        match self.0.slot(rowcol) {
            Some(i) => with_removed_order(self.orders(), i, layer.0 as int, entity),
            None => self.orders(),
        }
    }

    /// The iteration orders once `entity` has left its cell `prev_rowcol`, if any.
    pub open spec fn orders_after_leave(self, entity: u64, layer: EntityGridLayer, prev_rowcol: Option<RowCol>) -> GridOrders {
        match prev_rowcol {
            Some(p) => self.orders_after_remove(entity, layer, p),
            None => self.orders(),
        }
    }

    /// The iteration orders once `entity` has moved from `prev_rowcol` to `rowcol`.
    pub open spec fn orders_after_move(
        self,
        entity: u64,
        layer: EntityGridLayer,
        prev_rowcol: Option<RowCol>,
        rowcol: RowCol,
    ) -> GridOrders {
        if prev_rowcol == Some(rowcol) {
            self.orders()
        } else {
            let left = self.orders_after_leave(entity, layer, prev_rowcol);
            match self.0.slot(rowcol) {
                Some(j) => with_inserted_order(left, j, layer.0 as int, entity),
                None => left,
            }
        }
    }

    /// `update` indexes a layer set: the entity changes cell and one of the
    /// two cells is held by the grid.
    pub open spec fn move_touches_sets(self, prev_rowcol: Option<RowCol>, rowcol: RowCol) -> bool {
        &&& prev_rowcol != Some(rowcol)
        &&& ((prev_rowcol matches Some(p) && self.0.slot(p) is Some) || self.0.slot(rowcol) is Some)
    }

    /// The sets once `entity` is taken out of its layer's set at `rowcol`, if
    /// the grid holds that cell.
    pub open spec fn sets_after_remove(self, entity: u64, layer: EntityGridLayer, rowcol: RowCol) -> GridSets {
        match self.0.slot(rowcol) {
            Some(i) => with_removed(self.sets(), i, layer.0 as int, entity),
            None => self.sets(),
        }
    }

    /// What `remove` reports.
    pub open spec fn remove_event(self, entity: u64, layer: EntityGridLayer, rowcol: RowCol) -> Option<
        EntityGridEvent,
    > {
        match self.0.slot(rowcol) {
            Some(i) => Some(
                EntityGridEvent {
                    entity,
                    layer,
                    prev_rowcol: Some(rowcol),
                    prev_empty: self.sets_after_remove(entity, layer, rowcol)[i][layer.0 as int]
                        == Set::<u64>::empty(),
                    rowcol: None,
                },
            ),
            None => None,
        }
    }

    /// What leaving the cell `prev_rowcol` (if any) reports.
    pub open spec fn leave_event(self, entity: u64, layer: EntityGridLayer, prev_rowcol: Option<RowCol>) -> Option<
        EntityGridEvent,
    > {
        match prev_rowcol {
            Some(p) => self.remove_event(entity, layer, p),
            None => None,
        }
    }

    /// The sets once `entity` has left its cell `prev_rowcol` (if any) without
    /// yet entering `rowcol`.
    pub open spec fn sets_after_leave(self, entity: u64, layer: EntityGridLayer, prev_rowcol: Option<RowCol>) -> GridSets {
        match prev_rowcol {
            Some(p) => self.sets_after_remove(entity, layer, p),
            None => self.sets(),
        }
    }

    /// The sets once `entity` has moved from `prev_rowcol` to `rowcol`.
    pub open spec fn sets_after_move(
        self,
        entity: u64,
        layer: EntityGridLayer,
        prev_rowcol: Option<RowCol>,
        rowcol: RowCol,
    ) -> GridSets {
        if prev_rowcol == Some(rowcol) {
            self.sets()
        } else {
            let left = self.sets_after_leave(entity, layer, prev_rowcol);
            match self.0.slot(rowcol) {
                Some(j) => with_inserted(left, j, layer.0 as int, entity),
                None => left,
            }
        }
    }

    /// What `update` reports: an event when the entity entered a new cell.
    pub open spec fn move_event(
        self,
        entity: u64,
        layer: EntityGridLayer,
        prev_rowcol: Option<RowCol>,
        rowcol: RowCol,
    ) -> Option<EntityGridEvent> {
        if prev_rowcol == Some(rowcol) || self.0.slot(rowcol) is None {
            None
        } else {
            let prev_empty = match prev_rowcol {
                Some(p) => match self.0.slot(p) {
                    Some(i) => self.sets_after_leave(entity, layer, prev_rowcol)[i][layer.0 as int]
                        == Set::<u64>::empty(),
                    None => false,
                },
                None => false,
            };
            Some(EntityGridEvent { entity, layer, prev_rowcol, prev_empty, rowcol: Some(rowcol) })
        }
    }

    /// Entities of any layer held in the cells of `rowcols` up to position
    /// `upto`.
    pub open spec fn entities_in_cells(self, rowcols: Seq<RowCol>, upto: int) -> Set<u64> {
        Set::new(
            |e: u64|
                exists|k: int, l: int|
                    0 <= k < upto && 0 <= l < LAYER_SETS && #[trigger] self.cell_has(rowcols[k], l, e),
        )
    }

    /// The grid holds the cell and `entity` is in its set of layer `l`.
    pub open spec fn cell_has(self, rowcol: RowCol, l: int, entity: u64) -> bool {
        self.0.slot(rowcol) matches Some(i) && self.sets()[i][l].contains(entity)
    }

    /// Entities of any layer in the in-bounds cells of the box spanned by two
    /// corner cells.
    pub open spec fn entities_in_box(self, min_rowcol: RowCol, max_rowcol: RowCol) -> Set<u64> {
        Set::new(
            |e: u64|
                exists|rc: RowCol, l: int|
                    self.0.spec.contains_cell(rc) && in_box(rc, min_rowcol, max_rowcol) && 0 <= l
                        < LAYER_SETS && #[trigger] self.cell_has(rc, l, e),
        )
    }

    /// Get all entities, of every layer, in the grid's cells in the box
    /// spanned by two corner cells (the box clipped to the grid), each once.
    pub fn get_entities_in_rowcol_box(&self, min_rowcol: RowCol, max_rowcol: RowCol) -> (r: Vec<u64>)
        requires
            self.0.spec.num_cells() <= usize::MAX,
        ensures
            r@.no_duplicates(),
            r@.to_set() == self.entities_in_box(min_rowcol, max_rowcol),
    {
        let mut result = entity_hash_set_new();
        let rowcols = self.0.spec.get_in_rowcol_box(min_rowcol, max_rowcol);
        let mut k: usize = 0;
        while k < rowcols.len()
            invariant
                k <= rowcols.len(),
                self.0.spec.num_cells() <= usize::MAX,
                forall|i: int| 0 <= i < rowcols.len() ==> self.0.spec.contains_cell(#[trigger] rowcols@[i]),
                entity_hash_set_contents(result) == self.entities_in_cells(rowcols@, k as int),
            decreases rowcols.len() - k,
        {
            let rowcol = rowcols[k];
            proof {
                lemma_flat_index_in_range_and_unique(self.0.spec, rowcol, rowcol);
            }
            if let Some(entities) = self.0.get(rowcol) {
                let mut l: usize = 0;
                while l < LAYER_SETS
                    invariant
                        k < rowcols.len(),
                        rowcol == rowcols@[k as int],
                        self.0.slot(rowcol) is Some,
                        *entities == self.0.cells@[self.0.slot(rowcol).unwrap()],
                        l <= LAYER_SETS,
                        entity_hash_set_contents(result) == self.entities_in_cells(rowcols@, k as int).union(
                            Set::new(|e: u64| exists|l2: int| 0 <= l2 < l && #[trigger] self.cell_has(rowcol, l2, e)),
                        ),
                    decreases LAYER_SETS - l,
                {
                    let members = entities.0[l].to_vec();
                    let ghost before = entity_hash_set_contents(result);
                    entity_hash_set_extend(&mut result, &members);
                    proof {
                        assert(entity_hash_set_contents(result) =~= self.entities_in_cells(rowcols@, k as int).union(
                            Set::new(|e: u64| exists|l2: int| 0 <= l2 < l + 1 && #[trigger] self.cell_has(rowcol, l2, e)),
                        )) by {
                            assert forall|e: u64| #[trigger] members@.to_set().contains(e) implies self.cell_has(rowcol, l as int, e) by {
                            }
                            assert forall|e: u64| self.cell_has(rowcol, l as int, e) implies #[trigger] members@.to_set().contains(e) by {
                            }
                        }
                    }
                    l = l + 1;
                }
                proof {
                    assert(entity_hash_set_contents(result) =~= self.entities_in_cells(rowcols@, k + 1)) by {
                        assert forall|e: u64| self.entities_in_cells(rowcols@, k + 1).contains(e) implies entity_hash_set_contents(result).contains(e) by {
                            let (k2, l2) = choose|k2: int, l2: int| 0 <= k2 < k + 1 && 0 <= l2 < LAYER_SETS && #[trigger] self.cell_has(rowcols@[k2], l2, e);
                            if k2 < k {
                                assert(self.entities_in_cells(rowcols@, k as int).contains(e));
                            } else {
                                assert(self.cell_has(rowcol, l2, e));
                            }
                        }
                        assert forall|e: u64| entity_hash_set_contents(result).contains(e) implies self.entities_in_cells(rowcols@, k + 1).contains(e) by {
                            if !self.entities_in_cells(rowcols@, k as int).contains(e) {
                                let l2 = choose|l2: int| 0 <= l2 < LAYER_SETS && #[trigger] self.cell_has(rowcol, l2, e);
                                assert(self.cell_has(rowcols@[k as int], l2, e));
                            } else {
                                let (k2, l2) = choose|k2: int, l2: int| 0 <= k2 < k && 0 <= l2 < LAYER_SETS && #[trigger] self.cell_has(rowcols@[k2], l2, e);
                                assert(self.cell_has(rowcols@[k2], l2, e));
                            }
                        }
                    }
                }
            } else {
                proof {
                    assert(entity_hash_set_contents(result) =~= self.entities_in_cells(rowcols@, k + 1)) by {
                        assert forall|e: u64| self.entities_in_cells(rowcols@, k + 1).contains(e) implies entity_hash_set_contents(result).contains(e) by {
                            let (k2, l2) = choose|k2: int, l2: int| 0 <= k2 < k + 1 && 0 <= l2 < LAYER_SETS && #[trigger] self.cell_has(rowcols@[k2], l2, e);
                            assert(k2 < k);
                            assert(self.cell_has(rowcols@[k2], l2, e));
                        }
                    }
                }
            }
            k = k + 1;
        }
        proof {
            let target = self.entities_in_box(min_rowcol, max_rowcol);
            assert(entity_hash_set_contents(result) =~= target) by {
                assert forall|e: u64| entity_hash_set_contents(result).contains(e) implies target.contains(e) by {
                    let (k2, l2) = choose|k2: int, l2: int| 0 <= k2 < rowcols.len() && 0 <= l2 < LAYER_SETS && #[trigger] self.cell_has(rowcols@[k2], l2, e);
                    assert(self.cell_has(rowcols@[k2], l2, e));
                }
                assert forall|e: u64| target.contains(e) implies entity_hash_set_contents(result).contains(e) by {
                    let (lo, hi) = (min_rowcol, max_rowcol);
                    let (rc, l2) = choose|rc: RowCol, l2: int| self.0.spec.contains_cell(rc) && in_box(rc, lo, hi) && 0 <= l2 < LAYER_SETS && #[trigger] self.cell_has(rc, l2, e);
                    assert(rowcols@.contains(rc));
                    let k2 = choose|k2: int| 0 <= k2 < rowcols.len() && rowcols@[k2] == rc;
                    assert(self.cell_has(rowcols@[k2], l2, e));
                }
            }
        }
        entity_hash_set_into_vec(result)
    }

    /// Update an entity's position in the grid: take it out of the set of its
    /// layer at `prev_rowcol`, if that cell exists, and put it in the one at
    /// `rowcol`, if that cell exists. Nothing happens when the cell is the same.
    pub fn update(
        &mut self,
        entity: u64,
        layer: EntityGridLayer,
        prev_rowcol: Option<RowCol>,
        rowcol: RowCol,
    ) -> (r: Option<EntityGridEvent>)
        requires
            prev_rowcol != Some(rowcol) ==> old(self).0.spec.flat_index_of(rowcol) <= usize::MAX,
            prev_rowcol != Some(rowcol) ==> (prev_rowcol matches Some(p) ==> old(
                self,
            ).0.spec.flat_index_of(p) <= usize::MAX),
            old(self).move_touches_sets(prev_rowcol, rowcol) ==> layer.has_set(),
        ensures
            final(self).0.spec == old(self).0.spec,
            final(self).0.cells.len() == old(self).0.cells.len(),
            final(self).sets() == old(self).sets_after_move(entity, layer, prev_rowcol, rowcol),
            final(self).orders() == old(self).orders_after_move(entity, layer, prev_rowcol, rowcol),
            r == old(self).move_event(entity, layer, prev_rowcol, rowcol),
    {
        let ghost sets0 = self.sets();
        let ghost orders0 = self.orders();
        // Remove this entity's old position if it was different.
        let mut prev_empty: bool = false;
        if let Some(prev) = prev_rowcol {
            // If in same position, do nothing.
            if prev.0 == rowcol.0 && prev.1 == rowcol.1 {
                return None;
            }
            if let Some(entities) = self.0.get_mut(prev) {
                entities.index_mut(layer).remove(entity);
                prev_empty = entities.index(layer).is_empty();
            }
        }
        let ghost sets1 = self.sets();
        let ghost orders1 = self.orders();
        proof {
            if let Some(p) = prev_rowcol {
                if let Some(i) = old(self).0.slot(p) {
                    assert(sets1 =~~= with_removed(sets0, i, layer.0 as int, entity));
                    assert(orders1 =~~= with_removed_order(orders0, i, layer.0 as int, entity));
                } else {
                    assert(sets1 =~= sets0);
                    assert(orders1 =~= orders0);
                }
            } else {
                assert(sets1 =~= sets0);
                assert(orders1 =~= orders0);
            }
        }
        if let Some(entities) = self.0.get_mut(rowcol) {
            entities.index_mut(layer).insert(entity);
            proof {
                let j = old(self).0.slot(rowcol).unwrap();
                assert(self.sets() =~~= with_inserted(sets1, j, layer.0 as int, entity));
                assert(self.orders() =~~= with_inserted_order(orders1, j, layer.0 as int, entity));
            }
            return Some(
                EntityGridEvent { entity, layer, prev_rowcol, prev_empty, rowcol: Some(rowcol) },
            );
        }
        None
    }

    /// Remove an entity from the set of its layer in a cell, if the grid holds
    /// that cell.
    pub fn remove(&mut self, entity: u64, layer: EntityGridLayer, rowcol: RowCol) -> (r: Option<
        EntityGridEvent,
    >)
        requires
            old(self).0.spec.flat_index_of(rowcol) <= usize::MAX,
            old(self).0.slot(rowcol) is Some ==> layer.has_set(),
        ensures
            final(self).0.spec == old(self).0.spec,
            final(self).0.cells.len() == old(self).0.cells.len(),
            final(self).sets() == old(self).sets_after_remove(entity, layer, rowcol),
            final(self).orders() == old(self).orders_after_remove(entity, layer, rowcol),
            r == old(self).remove_event(entity, layer, rowcol),
    {
        let ghost sets0 = self.sets();
        let ghost orders0 = self.orders();
        if let Some(entities) = self.0.get_mut(rowcol) {
            let layer_entities = entities.index_mut(layer);
            layer_entities.remove(entity);
            let prev_empty = layer_entities.is_empty();
            proof {
                let i = old(self).0.slot(rowcol).unwrap();
                assert(self.sets() =~~= with_removed(sets0, i, layer.0 as int, entity));
                assert(self.orders() =~~= with_removed_order(orders0, i, layer.0 as int, entity));
            }
            return Some(
                EntityGridEvent { entity, layer, prev_rowcol: Some(rowcol), prev_empty, rowcol: None },
            );
        }
        None
    }

    /// Resize the grid to match the given spec; cells that remain keep their
    /// entities and new cells start out empty.
    pub fn resize_with(&mut self, spec: SpatialGridSpec)
        requires
            spec.num_cells() <= usize::MAX,
        ensures
            final(self).0.spec == spec,
            final(self).0.cells.len() == spec.num_cells(),
            forall|i: int|
                0 <= i < old(self).0.cells.len() && i < spec.num_cells() ==> #[trigger] final(self).sets()[i]
                    == old(self).sets()[i] && final(self).orders()[i] == old(self).orders()[i],
            forall|i: int, l: int|
                old(self).0.cells.len() <= i < spec.num_cells() && 0 <= l < LAYER_SETS ==> #[trigger] final(self).sets()[i][l]
                    == Set::<u64>::empty() && final(self).orders()[i][l] == Seq::<u64>::empty(),
    {
        self.0.resize_with(spec);
        proof {
            let d = choose|d: EntitySets|
                is_default_value(d) && forall|i: int|
                    old(self).0.cells.len() <= i < spec.num_cells() ==> cloned(d, #[trigger] self.0.cells@[i]);
            assert forall|i: int, l: int|
                old(self).0.cells.len() <= i < spec.num_cells() && 0 <= l < LAYER_SETS implies #[trigger] self.sets()[i][l]
                    == Set::<u64>::empty() && self.orders()[i][l] == Seq::<u64>::empty() by {
                assert(cloned(d, self.0.cells@[i]));
                assert(d.0@[l]@ == Set::<u64>::empty());
                assert(d.0@[l].order() == Seq::<u64>::empty());
            }
        }
    }
}

} // verus!

verus! {

/// `entity` is in the set of `layer` in exactly the cell `rowcol` (or in none,
/// when `rowcol` is `None`), the cells being laid out by `spec`.
pub open spec fn tracks(
    sets: GridSets,
    spec: SpatialGridSpec,
    entity: u64,
    layer: EntityGridLayer,
    rowcol: Option<RowCol>,
) -> bool {
    forall|i: int|
        0 <= i < sets.len() ==> (#[trigger] sets[i][layer.0 as int].contains(entity) <==> (
        rowcol matches Some(rc) && spec.flat_index_of(rc) == i))
}

/// `after` differs from `before` at most in whether `entity` is in the sets of
/// `layer`.
pub open spec fn only_entity_changed(before: GridSets, after: GridSets, entity: u64, layer: EntityGridLayer) -> bool {
    &&& after.len() == before.len()
    &&& forall|i: int| 0 <= i < before.len() ==> (#[trigger] after[i]).len() == before[i].len()
    &&& forall|i: int, l: int, e: u64|
        0 <= i < before.len() && 0 <= l < before[i].len() && (e != entity || l != layer.0)
            ==> (#[trigger] after[i][l].contains(e) <==> before[i][l].contains(e))
}

/// Component to track an entity in the grid.
/// Holds its cell position so it can move/remove itself from the grid.
#[derive(Copy, Clone, Debug, Default)]
pub struct GridEntity {
    pub rowcol: Option<RowCol>,
    pub layer: EntityGridLayer,
}

impl GridEntity {
    /// Moves `entity`, whose component this is, to the cell it now occupies, or
    /// off the grid when it occupies none. Returns the event to report, if any:
    /// entering a new cell, or leaving the grid from a cell the grid holds.
    pub fn update_cell(&mut self, entity: u64, rowcol: Option<RowCol>, grid: &mut EntitySetsGrid) -> (r:
        Option<EntityGridEvent>)
        requires
            match rowcol {
                Some(rc) => {
                    &&& old(self).rowcol != Some(rc) ==> old(grid).0.spec.flat_index_of(rc)
                        <= usize::MAX
                    &&& old(self).rowcol != Some(rc) ==> (old(self).rowcol matches Some(p) ==> old(
                        grid,
                    ).0.spec.flat_index_of(p) <= usize::MAX)
                    &&& old(grid).move_touches_sets(old(self).rowcol, rc) ==> old(self).layer.has_set()
                },
                None => old(self).rowcol matches Some(p) ==> {
                    &&& old(grid).0.spec.flat_index_of(p) <= usize::MAX
                    &&& old(grid).0.slot(p) is Some ==> old(self).layer.has_set()
                },
            },
        ensures
            final(self).layer == old(self).layer,
            final(grid).0.spec == old(grid).0.spec,
            final(grid).0.cells.len() == old(grid).0.cells.len(),
            match rowcol {
                Some(rc) => {
                    &&& final(grid).sets() == old(grid).sets_after_move(entity, old(self).layer, old(self).rowcol, rc)
                    &&& final(grid).orders() == old(grid).orders_after_move(entity, old(self).layer, old(self).rowcol, rc)
                    &&& r == old(grid).move_event(entity, old(self).layer, old(self).rowcol, rc)
                    &&& final(self).rowcol == (if r is Some { Some(rc) } else { old(self).rowcol })
                },
                None => {
                    &&& final(grid).sets() == old(grid).sets_after_leave(entity, old(self).layer, old(self).rowcol)
                    &&& final(grid).orders() == old(grid).orders_after_leave(entity, old(self).layer, old(self).rowcol)
                    &&& r == old(grid).leave_event(entity, old(self).layer, old(self).rowcol)
                    &&& final(self).rowcol is None
                },
            },
    {
        if let Some(rc) = rowcol {
            // If on the grid, update rowcol to match the position.
            if let Some(event) = grid.update(entity, self.layer, self.rowcol, rc) {
                self.rowcol = event.rowcol;
                return Some(event);
            }
        } else if let Some(prev_rowcol) = self.rowcol {
            // If off the grid, remove the entity from the grid and report it.
            let event = grid.remove(entity, self.layer, prev_rowcol);
            self.rowcol = None;
            return event;
        }
        None
    }

    /// Takes `entity`, whose component this is, out of the grid as the
    /// component goes away. Returns the event to report, if any; `None` also
    /// when the component recorded no cell.
    pub fn remove_from(&self, entity: u64, grid: &mut EntitySetsGrid) -> (r: Option<EntityGridEvent>)
        requires
            self.rowcol matches Some(p) ==> {
                &&& old(grid).0.spec.flat_index_of(p) <= usize::MAX
                &&& old(grid).0.slot(p) is Some ==> self.layer.has_set()
            },
        ensures
            final(grid).0.spec == old(grid).0.spec,
            final(grid).0.cells.len() == old(grid).0.cells.len(),
            final(grid).sets() == old(grid).sets_after_leave(entity, self.layer, self.rowcol),
            final(grid).orders() == old(grid).orders_after_leave(entity, self.layer, self.rowcol),
            r == old(grid).leave_event(entity, self.layer, self.rowcol),
    {
        if let Some(rowcol) = self.rowcol {
            grid.remove(entity, self.layer, rowcol)
        } else {
            None
        }
    }
}

} // verus!

verus! {

/// Moving a grid entity keeps the grid in agreement with its component: if the
/// entity was in exactly the cell its component recorded, then after
/// `GridEntity::update_cell` it is in exactly the cell the component now
/// records (none once it left the grid, or once `GridEntity::remove_from` took
/// it out), provided the grid holds the cell the entity moves to (as a grid
/// sized to its spec holds every in-bounds cell). Every other entity, and every
/// other layer, is untouched. An event
/// is reported exactly when the entity's cell changed (entering a new cell, or
/// leaving the grid from a cell the grid holds), and it names the old and the
/// new cell.
pub proof fn lemma_update_cell_keeps_tracking(
    grid: EntitySetsGrid,
    entity: u64,
    layer: EntityGridLayer,
    prev_rowcol: Option<RowCol>,
    rowcol: Option<RowCol>,
)
    requires
        layer.has_set(),
        rowcol matches Some(rc) ==> grid.0.slot(rc) is Some,
        tracks(grid.sets(), grid.0.spec, entity, layer, prev_rowcol),
    ensures
        match rowcol {
            Some(rc) => {
                let after = grid.sets_after_move(entity, layer, prev_rowcol, rc);
                let now = if grid.move_event(entity, layer, prev_rowcol, rc) is Some {
                    Some(rc)
                } else {
                    prev_rowcol
                };
                &&& now == Some(rc)
                &&& tracks(after, grid.0.spec, entity, layer, now)
                &&& only_entity_changed(grid.sets(), after, entity, layer)
                &&& (grid.move_event(entity, layer, prev_rowcol, rc) is Some) == (prev_rowcol != Some(rc))
                &&& grid.move_event(entity, layer, prev_rowcol, rc) matches Some(ev) ==> ev.entity
                    == entity && ev.layer == layer && ev.prev_rowcol == prev_rowcol && ev.rowcol == Some(rc)
            },
            None => {
                let after = grid.sets_after_leave(entity, layer, prev_rowcol);
                &&& tracks(after, grid.0.spec, entity, layer, None)
                &&& only_entity_changed(grid.sets(), after, entity, layer)
                &&& (grid.leave_event(entity, layer, prev_rowcol) is Some) == (prev_rowcol matches Some(
                    p,
                ) && grid.0.slot(p) is Some)
                &&& grid.leave_event(entity, layer, prev_rowcol) matches Some(ev) ==> ev.entity
                    == entity && ev.layer == layer && ev.prev_rowcol == prev_rowcol && ev.rowcol is None
            },
        },
{
    let sets = grid.sets();
    let l = layer.0 as int;
    if let Some(rc) = rowcol {
        let j = grid.0.spec.flat_index_of(rc);
        let left = grid.sets_after_leave(entity, layer, prev_rowcol);
        let after = grid.sets_after_move(entity, layer, prev_rowcol, rc);
        if prev_rowcol == Some(rc) {
            assert(after == sets);
        } else {
            assert(after == with_inserted(left, j, l, entity));
            assert forall|i: int| 0 <= i < after.len() implies (#[trigger] after[i][l].contains(
                entity) <==> grid.0.spec.flat_index_of(rc) == i) by {
                if i != j {
                    assert(after[i] == left[i]);
                    if let Some(p) = prev_rowcol {
                        let k = grid.0.spec.flat_index_of(p);
                        if i == k {
                            assert(!left[i][l].contains(entity));
                        } else {
                            assert(left[i] == sets[i]);
                        }
                    } else {
                        assert(left[i] == sets[i]);
                    }
                }
            }
        }
    } else {
        let after = grid.sets_after_leave(entity, layer, prev_rowcol);
        assert forall|i: int| 0 <= i < after.len() implies !(#[trigger] after[i][l].contains(
            entity)) by {
            if let Some(p) = prev_rowcol {
                let k = grid.0.spec.flat_index_of(p);
                if i != k {
                    assert(after[i] == sets[i]);
                }
            } else {
                assert(after[i] == sets[i]);
            }
        }
    }
}

/// Moving one grid entity keeps every other grid entity tracked: the grid
/// stays in agreement with all components while `GridEntity::update_cell`
/// runs over them one by one.
pub proof fn lemma_update_cell_keeps_others_tracked(
    before: GridSets,
    after: GridSets,
    spec: SpatialGridSpec,
    moved: u64,
    moved_layer: EntityGridLayer,
    other: u64,
    other_layer: EntityGridLayer,
    other_rowcol: Option<RowCol>,
)
    requires
        other != moved,
        other_layer.has_set(),
        forall|i: int| 0 <= i < before.len() ==> (#[trigger] before[i]).len() == LAYER_SETS,
        only_entity_changed(before, after, moved, moved_layer),
        tracks(before, spec, other, other_layer, other_rowcol),
    ensures
        tracks(after, spec, other, other_layer, other_rowcol),
{
    assert forall|i: int| 0 <= i < after.len() implies (#[trigger] after[i][other_layer.0 as int].contains(
        other,
    ) <==> (other_rowcol matches Some(rc) && spec.flat_index_of(rc) == i)) by {
        assert(after[i][other_layer.0 as int].contains(other) <==> before[i][other_layer.0 as int].contains(other));
    }
}

/// Removing an entity right after `update` put it into a cell that lacked it
/// restores the grid: `remove` undoes `update`.
pub proof fn lemma_remove_undoes_update(
    before: EntitySetsGrid,
    after: EntitySetsGrid,
    entity: u64,
    layer: EntityGridLayer,
    rowcol: RowCol,
)
    requires
        layer.has_set(),
        before.0.slot(rowcol) matches Some(i) && !before.sets()[i][layer.0 as int].contains(entity),
        after.0.spec == before.0.spec,
        after.0.cells.len() == before.0.cells.len(),
        after.sets() == before.sets_after_move(entity, layer, None, rowcol),
    ensures
        after.sets_after_remove(entity, layer, rowcol) == before.sets(),
{
    let i = before.0.slot(rowcol).unwrap();
    let l = layer.0 as int;
    let inner = before.sets()[i][l].insert(entity).remove(entity);
    assert(inner =~= before.sets()[i][l]);
    assert(after.sets_after_remove(entity, layer, rowcol) =~~= before.sets());
}

} // verus!

verus! {

/// The (entity, layer) pairs of a cell for the layers `layers[from..]`, layer
/// by layer, each layer's entities in its set's order.
pub open spec fn cell_layer_entries(cell: EntitySets, layers: Seq<EntityGridLayer>, from: int) -> Seq<
    (u64, EntityGridLayer),
>
    decreases layers.len() - from,
{
    if 0 <= from < layers.len() {
        cell.0@[layers[from].0 as int].order().map_values(|e: u64| (e, layers[from]))
            + cell_layer_entries(cell, layers, from + 1)
    } else {
        Seq::empty()
    }
}

/// Every layer of `layers[from..]` that a walk through a cell's layers reaches
/// (all those after empty ones) has a set.
pub open spec fn reached_layers_valid(cell: EntitySets, layers: Seq<EntityGridLayer>, from: int) -> bool
    decreases layers.len() - from,
{
    if 0 <= from < layers.len() {
        &&& layers[from].has_set()
        &&& cell.0@[layers[from].0 as int].order().len() == 0 ==> reached_layers_valid(
            cell,
            layers,
            from + 1,
        )
    } else {
        true
    }
}

/// The (entity, layer) pairs a cell yields for `layers`: none when the cell
/// lies outside the grid or the grid does not hold it.
pub open spec fn cell_entries(grid: EntitySetsGrid, rowcol: RowCol, layers: Seq<EntityGridLayer>) -> Seq<
    (u64, EntityGridLayer),
> {
    if !grid.0.spec.contains_cell(rowcol) {
        Seq::empty()
    } else {
        match grid.0.slot(rowcol) {
            Some(i) => cell_layer_entries(grid.0.cells@[i], layers, 0),
            None => Seq::empty(),
        }
    }
}

/// The (entity, layer) pairs of the cells `cells[from..]`, cell by cell.
pub open spec fn cells_entries(
    grid: EntitySetsGrid,
    cells: Seq<RowCol>,
    layers: Seq<EntityGridLayer>,
    from: int,
) -> Seq<(u64, EntityGridLayer)>
    decreases cells.len() - from,
{
    if 0 <= from < cells.len() {
        cell_entries(grid, cells[from], layers) + cells_entries(grid, cells, layers, from + 1)
    } else {
        Seq::empty()
    }
}

/// Walking on from cell `cells[from]` up to the next pair indexes only cells
/// the grid holds and layers that have sets; cells outside the grid are passed
/// over.
pub open spec fn walk_ok(grid: EntitySetsGrid, cells: Seq<RowCol>, layers: Seq<EntityGridLayer>, from: int) -> bool
    decreases cells.len() - from,
{
    if 0 <= from < cells.len() {
        &&& layers.len() > 0 && grid.0.spec.contains_cell(cells[from]) ==> {
            &&& grid.0.slot(cells[from]) is Some
            &&& reached_layers_valid(grid.0.cells@[grid.0.slot(cells[from]).unwrap()], layers, 0)
        }
        &&& cell_entries(grid, cells[from], layers).len() == 0 ==> walk_ok(grid, cells, layers, from + 1)
    } else {
        true
    }
}

/// What a walk through a cell's layers from some layer on meets first.
#[derive(Copy, Clone, Debug, PartialEq, Eq, Structural)]
enum LayerScan {
    /// A layer without a set.
    Invalid,
    /// An entity.
    Found,
    /// Nothing: every layer has an empty set.
    Empty,
}

/// Walks a cell's layers from `from` on, as the walk would, up to the first
/// entity or the first layer without a set.
fn scan_layers(cell: &EntitySets, layers: &Vec<EntityGridLayer>, from: usize) -> (r: LayerScan)
    requires
        from <= layers.len(),
    ensures
        (r == LayerScan::Invalid) == !reached_layers_valid(*cell, layers@, from as int),
        (r == LayerScan::Found) == (reached_layers_valid(*cell, layers@, from as int)
            && cell_layer_entries(*cell, layers@, from as int).len() > 0),
        (r == LayerScan::Empty) == (reached_layers_valid(*cell, layers@, from as int)
            && cell_layer_entries(*cell, layers@, from as int).len() == 0),
{
    let mut l = from;
    while l < layers.len()
        invariant
            from <= l <= layers.len(),
            reached_layers_valid(*cell, layers@, from as int) == reached_layers_valid(
                *cell,
                layers@,
                l as int,
            ),
            cell_layer_entries(*cell, layers@, from as int) == cell_layer_entries(
                *cell,
                layers@,
                l as int,
            ),
        decreases layers.len() - l,
    {
        let layer = layers[l];
        if layer.0 >= LAYER_SETS {
            return LayerScan::Invalid;
        }
        let empty = cell.index(layer).is_empty();
        proof {
            let here = cell.0@[layer.0 as int].order().map_values(|e: u64| (e, layer));
            assert(cell_layer_entries(*cell, layers@, l as int) == here + cell_layer_entries(
                *cell,
                layers@,
                l + 1,
            ));
            if empty {
                assert(here =~= Seq::<(u64, EntityGridLayer)>::empty());
                assert(cell_layer_entries(*cell, layers@, l as int) =~= cell_layer_entries(
                    *cell,
                    layers@,
                    l + 1,
                ));
            }
        }
        if !empty {
            return LayerScan::Found;
        }
        l = l + 1;
    }
    LayerScan::Empty
}

/// Walks the entities of given layers in a sequence of cells: cell by cell,
/// layer by layer in the given order, each layer's entities in order. Cells
/// outside the grid are passed over.
pub struct EntityLayerRadiusIterator {
    layers: Vec<EntityGridLayer>,
    cells: Vec<RowCol>,
    next_cell: usize,
    rowcol: RowCol,
    layer: EntityGridLayer,
    next_layer: usize,
    entities: Vec<u64>,
    next_entity: usize,
}

impl EntityLayerRadiusIterator {
    pub closed spec fn wf(self) -> bool {
        &&& self.next_layer <= self.layers.len()
        &&& self.next_entity <= self.entities.len()
        &&& self.next_cell <= self.cells.len()
    }

    /// The layers walked in each cell.
    pub closed spec fn layers(self) -> Seq<EntityGridLayer> {
        self.layers@
    }

    /// The cells walked.
    pub closed spec fn cells(self) -> Seq<RowCol> {
        self.cells@
    }

    /// Position in `cells()` of the next cell to enter.
    pub closed spec fn next_cell(self) -> int {
        self.next_cell as int
    }

    /// The cell being walked.
    pub closed spec fn rowcol(self) -> RowCol {
        self.rowcol
    }

    /// The pairs still to come from the layer being walked.
    pub closed spec fn layer_rest(self) -> Seq<(u64, EntityGridLayer)> {
        self.entities@.skip(self.next_entity as int).map_values(|e: u64| (e, self.layer))
    }

    /// Position of the walked layer list not yet started.
    pub closed spec fn next_layer(self) -> int {
        self.next_layer as int
    }

    /// The pairs still to come from the current cell, given the grid walked.
    pub open spec fn pending(self, grid: EntitySetsGrid) -> Seq<(u64, EntityGridLayer)> {
        match grid.0.slot(self.rowcol()) {
            Some(i) => self.layer_rest() + cell_layer_entries(
                grid.0.cells@[i],
                self.layers(),
                self.next_layer(),
            ),
            None => self.layer_rest(),
        }
    }

    /// Every pair still to come, given the grid walked.
    pub open spec fn remaining(self, grid: EntitySetsGrid) -> Seq<(u64, EntityGridLayer)> {
        self.pending(grid) + cells_entries(grid, self.cells(), self.layers(), self.next_cell())
    }

    /// The next step within the current cell can be taken without indexing out
    /// of the grid or of a cell's layers.
    pub open spec fn can_step(self, grid: EntitySetsGrid) -> bool {
        self.layer_rest().len() == 0 && self.next_layer() < self.layers().len() ==> {
            &&& grid.0.slot(self.rowcol()) is Some
            &&& reached_layers_valid(
                grid.0.cells@[grid.0.slot(self.rowcol()).unwrap()],
                self.layers(),
                self.next_layer(),
            )
        }
    }

    /// Walking on to the next pair (or to the end) indexes only cells the grid
    /// holds and layers that have sets.
    pub open spec fn can_walk(self, grid: EntitySetsGrid) -> bool {
        &&& self.can_step(grid)
        &&& self.pending(grid).len() == 0 ==> walk_ok(grid, self.cells(), self.layers(), self.next_cell())
    }

    /// Every walked layer has a set, and the grid holds the cell being walked
    /// (while layers of it are left) and every cell still to come that lies
    /// inside the grid.
    pub open spec fn walk_safe(self, grid: EntitySetsGrid) -> bool {
        &&& forall|m: int| 0 <= m < self.layers().len() ==> (#[trigger] self.layers()[m]).has_set()
        &&& forall|k: int|
            self.next_cell() <= k < self.cells().len() && grid.0.spec.contains_cell(#[trigger] self.cells()[k])
                ==> grid.0.slot(self.cells()[k]) is Some
        &&& self.next_layer() < self.layers().len() ==> grid.0.slot(self.rowcol()) is Some
    }

    /// Creates a walker over `layers` in each of `cells`, in order.
    pub fn new(layers: Vec<EntityGridLayer>, cells: Vec<RowCol>) -> (r: Self)
        ensures
            r.wf(),
            r.layers() == layers@,
            r.cells() == cells@,
            r.next_cell() == 0,
            r.layer_rest().len() == 0,
            r.next_layer() == layers@.len(),
            forall|grid: EntitySetsGrid| #[trigger] r.remaining(grid) == cells_entries(grid, cells@, layers@, 0),
            forall|grid: EntitySetsGrid| #[trigger] r.can_walk(grid) == walk_ok(grid, cells@, layers@, 0),
            forall|grid: EntitySetsGrid| #[trigger] r.walk_safe(grid) == {
                &&& forall|m: int| 0 <= m < layers@.len() ==> (#[trigger] layers@[m]).has_set()
                &&& forall|k: int|
                    0 <= k < cells@.len() && grid.0.spec.contains_cell(#[trigger] cells@[k]) ==> grid.0.slot(
                        cells@[k],
                    ) is Some
            },
    {
        let n = layers.len();
        let r = EntityLayerRadiusIterator {
            layers,
            cells,
            next_cell: 0,
            layer: EntityGridLayer(0),
            rowcol: (0, 0),
            next_layer: n,
            entities: Vec::new(),
            next_entity: 0,
        };
        assert(r.layer_rest().len() == 0);
        assert forall|grid: EntitySetsGrid| #[trigger] r.remaining(grid) == cells_entries(grid, r.cells@, r.layers@, 0) by {
            assert(r.pending(grid) =~= Seq::<(u64, EntityGridLayer)>::empty());
            assert(r.remaining(grid) =~= cells_entries(grid, r.cells@, r.layers@, 0));
        }
        assert forall|grid: EntitySetsGrid| #[trigger] r.can_walk(grid) == walk_ok(grid, r.cells@, r.layers@, 0) by {
            assert(r.pending(grid) =~= Seq::<(u64, EntityGridLayer)>::empty());
        }
        r
    }

    /// The next (entity, layer) pair of the walk, or `None` once it is over.
    pub fn next(&mut self, grid: &EntitySetsGrid) -> (r: Option<(u64, EntityGridLayer)>)
        requires
            old(self).wf(),
            old(self).can_walk(*grid),
        ensures
            final(self).wf(),
            final(self).layers() == old(self).layers(),
            final(self).cells() == old(self).cells(),
            old(self).remaining(*grid).len() == 0 ==> r is None && final(self).remaining(*grid).len() == 0,
            old(self).remaining(*grid).len() > 0 ==> {
                &&& r == Some(old(self).remaining(*grid)[0])
                &&& final(self).remaining(*grid) == old(self).remaining(*grid).drop_first()
            },
            old(self).walk_safe(*grid) ==> final(self).walk_safe(*grid) && final(self).can_walk(*grid),
    {
        let ghost start = self.remaining(*grid);
        loop
            invariant
                self.wf(),
                self.layers@ == old(self).layers@,
                self.cells@ == old(self).cells@,
                self.remaining(*grid) == start,
                start == old(self).remaining(*grid),
                self.can_walk(*grid),
                old(self).walk_safe(*grid) ==> self.walk_safe(*grid),
            decreases self.cells.len() - self.next_cell,
        {
            let ghost before = self.pending(*grid);
            if let Some(x) = self.next_in_cell(grid) {
                proof {
                    let rest = cells_entries(*grid, self.cells@, self.layers@, self.next_cell as int);
                    assert(start == before + rest);
                    assert(start[0] == before[0]);
                    assert(start.drop_first() =~= before.drop_first() + rest);
                    if old(self).walk_safe(*grid) {
                        lemma_safe_walk_can_walk(*self, *grid);
                    }
                }
                return Some(x);
            }
            if self.next_cell < self.cells.len() {
                let rowcol = self.cells[self.next_cell];
                let ghost k = self.next_cell as int;
                proof {
                    assert(before.len() == 0);
                    assert(cells_entries(*grid, self.cells@, self.layers@, k) == cell_entries(
                        *grid,
                        rowcol,
                        self.layers@,
                    ) + cells_entries(*grid, self.cells@, self.layers@, k + 1));
                    assert(walk_ok(*grid, self.cells@, self.layers@, k));
                }
                self.next_cell = self.next_cell + 1;
                if grid.0.spec.in_bounds(rowcol) {
                    self.enter_cell(rowcol);
                    proof {
                        assert(self.layer_rest().len() == 0);
                        if self.layers@.len() > 0 {
                            assert(self.pending(*grid) =~= cell_entries(*grid, rowcol, self.layers@));
                        } else {
                            if let Some(i) = grid.0.slot(rowcol) {
                                assert(cell_layer_entries(grid.0.cells@[i], self.layers@, 0) =~= Seq::<(u64, EntityGridLayer)>::empty());
                                assert(self.pending(*grid) =~= Seq::<(u64, EntityGridLayer)>::empty());
                            } else {
                                assert(self.pending(*grid) =~= Seq::<(u64, EntityGridLayer)>::empty());
                            }
                            assert(cell_entries(*grid, rowcol, self.layers@) =~= Seq::<(u64, EntityGridLayer)>::empty());
                        }
                        assert(self.remaining(*grid) =~= start);
                    }
                } else {
                    proof {
                        assert(cell_entries(*grid, rowcol, self.layers@) =~= Seq::<(u64, EntityGridLayer)>::empty());
                        assert(self.remaining(*grid) =~= start);
                    }
                }
                continue;
            }
            proof {
                assert(cells_entries(*grid, self.cells@, self.layers@, self.next_cell as int).len() == 0);
                assert(start.len() == 0);
                if old(self).walk_safe(*grid) {
                    lemma_safe_walk_can_walk(*self, *grid);
                }
            }
            return None;
        }
    }

    /// Returns true iff `next` may be called: walking on to the next pair (or
    /// to the end) indexes only cells the grid holds and layers that have sets.
    pub fn can_advance(&self, grid: &EntitySetsGrid) -> (r: bool)
        requires
            self.wf(),
        ensures
            r == self.can_walk(*grid),
    {
        if self.next_entity < self.entities.len() {
            proof {
                assert(self.layer_rest().len() > 0);
            }
            return true;
        }
        proof {
            assert(self.layer_rest() =~= Seq::<(u64, EntityGridLayer)>::empty());
        }
        if self.next_layer < self.layers.len() {
            if !grid.0.holds(self.rowcol) {
                return false;
            }
            let cell = grid.0.index(self.rowcol);
            match scan_layers(cell, &self.layers, self.next_layer) {
                LayerScan::Invalid => {
                    return false;
                },
                LayerScan::Found => {
                    return true;
                },
                LayerScan::Empty => {},
            }
        }
        proof {
            if self.next_layer < self.layers.len() {
                assert(self.pending(*grid).len() == 0);
            } else {
                assert(self.pending(*grid) =~= Seq::<(u64, EntityGridLayer)>::empty());
            }
        }
        let mut k = self.next_cell;
        while k < self.cells.len()
            invariant
                self.wf(),
                self.next_cell <= k <= self.cells.len(),
                self.can_walk(*grid) == walk_ok(*grid, self.cells@, self.layers@, k as int),
            decreases self.cells.len() - k,
        {
            let rowcol = self.cells[k];
            if self.layers.len() > 0 && grid.0.spec.in_bounds(rowcol) {
                if !grid.0.holds(rowcol) {
                    return false;
                }
                let cell = grid.0.index(rowcol);
                match scan_layers(cell, &self.layers, 0) {
                    LayerScan::Invalid => {
                        return false;
                    },
                    LayerScan::Found => {
                        return true;
                    },
                    LayerScan::Empty => {},
                }
            } else {
                proof {
                    if self.layers.len() == 0 {
                        if let Some(i) = grid.0.slot(rowcol) {
                            assert(cell_layer_entries(grid.0.cells@[i], self.layers@, 0) =~= Seq::<(u64, EntityGridLayer)>::empty());
                        }
                    }
                    assert(cell_entries(*grid, rowcol, self.layers@).len() == 0);
                }
            }
            k = k + 1;
        }
        true
    }

    /// Moves on to a cell; its layers are walked from the first.
    fn enter_cell(&mut self, rowcol: RowCol)
        requires
            old(self).wf(),
        ensures
            final(self).wf(),
            final(self).layers() == old(self).layers(),
            final(self).cells() == old(self).cells(),
            final(self).next_cell() == old(self).next_cell(),
            final(self).rowcol() == rowcol,
            final(self).layer_rest() == old(self).layer_rest(),
            final(self).next_layer() == 0,
    {
        self.rowcol = rowcol;
        self.next_layer = 0;
    }

    /// The next (entity, layer) pair in the current cell, or `None` once the
    /// cell's layers are all walked.
    fn next_in_cell(&mut self, grid: &EntitySetsGrid) -> (r: Option<(u64, EntityGridLayer)>)
        requires
            old(self).wf(),
            old(self).can_step(*grid),
        ensures
            final(self).wf(),
            final(self).layers() == old(self).layers(),
            final(self).cells() == old(self).cells(),
            final(self).next_cell() == old(self).next_cell(),
            final(self).rowcol() == old(self).rowcol(),
            final(self).next_layer() >= old(self).next_layer(),
            old(self).pending(*grid).len() == 0 ==> {
                &&& r is None
                &&& final(self).layer_rest().len() == 0
                &&& final(self).next_layer() == final(self).layers().len()
            },
            old(self).pending(*grid).len() > 0 ==> {
                &&& r == Some(old(self).pending(*grid)[0])
                &&& final(self).pending(*grid) == old(self).pending(*grid).drop_first()
            },
    {
        let ghost start = self.pending(*grid);
        loop
            invariant
                self.wf(),
                self.layers == old(self).layers,
                self.cells == old(self).cells,
                self.next_cell == old(self).next_cell,
                self.rowcol == old(self).rowcol,
                self.next_layer >= old(self).next_layer,
                self.pending(*grid) == start,
                start == old(self).pending(*grid),
                self.can_step(*grid),
            decreases self.layers.len() - self.next_layer,
        {
            if self.next_entity < self.entities.len() {
                let entity = self.entities[self.next_entity];
                let ghost before = self.pending(*grid);
                self.next_entity = self.next_entity + 1;
                proof {
                    assert(before[0] == (entity, self.layer));
                    assert(before.drop_first() =~= self.pending(*grid));
                }
                return Some((entity, self.layer));
            }
            if self.next_layer < self.layers.len() {
                let layer = self.layers[self.next_layer];
                let ghost slot = grid.0.slot(self.rowcol).unwrap();
                let ghost from = self.next_layer as int;
                self.next_layer = self.next_layer + 1;
                self.layer = layer;
                self.entities = grid.0.index(self.rowcol).index(layer).to_vec();
                self.next_entity = 0;
                proof {
                    let cell = grid.0.cells@[slot];
                    assert(self.entities@.skip(0) =~= self.entities@);
                    assert(cell_layer_entries(cell, self.layers@, from) == cell.0@[layer.0 as int].order().map_values(|e: u64| (e, layer)) + cell_layer_entries(cell, self.layers@, from + 1));
                    assert(self.pending(*grid) =~= start);
                }
                continue;
            }
            proof {
                assert(self.pending(*grid) =~= self.layer_rest());
            }
            return None;
        }
    }
}


} // verus!

verus! {

/// A walk through a cell's layers from `from` on reaches only layers that have
/// sets when every walked layer has one.
proof fn lemma_layers_with_sets_reached_valid(cell: EntitySets, layers: Seq<EntityGridLayer>, from: int)
    requires
        forall|m: int| 0 <= m < layers.len() ==> (#[trigger] layers[m]).has_set(),
    ensures
        reached_layers_valid(cell, layers, from),
    decreases layers.len() - from,
{
    if 0 <= from < layers.len() {
        lemma_layers_with_sets_reached_valid(cell, layers, from + 1);
    }
}

/// Walking on from `cells[from]` indexes only held cells and layers with sets
/// when every walked layer has a set and the grid holds every cell of
/// `cells[from..]` that lies inside it.
proof fn lemma_held_cells_walk_ok(
    grid: EntitySetsGrid,
    cells: Seq<RowCol>,
    layers: Seq<EntityGridLayer>,
    from: int,
)
    requires
        forall|m: int| 0 <= m < layers.len() ==> (#[trigger] layers[m]).has_set(),
        forall|k: int|
            from <= k < cells.len() && grid.0.spec.contains_cell(#[trigger] cells[k]) ==> grid.0.slot(cells[k]) is Some,
    ensures
        walk_ok(grid, cells, layers, from),
    decreases cells.len() - from,
{
    if 0 <= from < cells.len() {
        lemma_held_cells_walk_ok(grid, cells, layers, from + 1);
        if grid.0.spec.contains_cell(cells[from]) {
            assert(grid.0.slot(cells[from]) is Some);
            lemma_layers_with_sets_reached_valid(
                grid.0.cells@[grid.0.slot(cells[from]).unwrap()],
                layers,
                0,
            );
        }
    }
}

/// A walk whose layers all have sets, over a grid that holds every cell of it
/// inside the grid, can always be walked on: `next` never needs a check.
pub proof fn lemma_safe_walk_can_walk(walk: EntityLayerRadiusIterator, grid: EntitySetsGrid)
    requires
        walk.walk_safe(grid),
    ensures
        walk.can_walk(grid),
{
    lemma_held_cells_walk_ok(grid, walk.cells(), walk.layers(), walk.next_cell());
    if walk.next_layer() < walk.layers().len() {
        lemma_layers_with_sets_reached_valid(
            grid.0.cells@[grid.0.slot(walk.rowcol()).unwrap()],
            walk.layers(),
            walk.next_layer(),
        );
    }
}

/// The pairs of one cell come each once, each from one of the walked layers.
proof fn lemma_cell_entries_unique(cell: EntitySets, layers: Seq<EntityGridLayer>, from: int)
    requires
        0 <= from <= layers.len(),
        layers.no_duplicates(),
        forall|m: int| from <= m < layers.len() ==> (#[trigger] layers[m]).has_set(),
    ensures
        cell_layer_entries(cell, layers, from).no_duplicates(),
        forall|x: (u64, EntityGridLayer)|
            #[trigger] cell_layer_entries(cell, layers, from).contains(x) ==> exists|m: int|
                from <= m < layers.len() && layers[m] == x.1 && cell.0@[x.1.0 as int].order().contains(x.0),
    decreases layers.len() - from,
{
    if from < layers.len() {
        lemma_cell_entries_unique(cell, layers, from + 1);
        let layer = layers[from];
        let order = cell.0@[layer.0 as int].order();
        lemma_order_unique(cell.0@[layer.0 as int]);
        let f = |e: u64| (e, layer);
        let a = order.map_values(f);
        let b = cell_layer_entries(cell, layers, from + 1);
        assert(cell_layer_entries(cell, layers, from) == a + b);
        assert(vstd::relations::injective(f)) by {
            assert forall|x: u64, y: u64| #[trigger] f(x) == #[trigger] f(y) implies x == y by {
                assert(f(x).0 == x);
                assert(f(y).0 == y);
            }
        }
        order.lemma_no_duplicates_injective(f);
        assert forall|i: int, j: int| 0 <= i < a.len() && 0 <= j < b.len() implies a[i] != b[j] by {
            assert(b.contains(b[j]));
            let m = choose|m: int| from + 1 <= m < layers.len() && layers[m] == b[j].1 && cell.0@[b[j].1.0 as int].order().contains(b[j].0);
            assert(a[i].1 == layer);
            assert(layers[m] != layers[from]);
        }
        vstd::seq_lib::lemma_no_dup_in_concat(a, b);
        assert forall|x: (u64, EntityGridLayer)| #[trigger] (a + b).contains(x) implies exists|m: int|
            from <= m < layers.len() && layers[m] == x.1 && cell.0@[x.1.0 as int].order().contains(x.0) by {
            vstd::seq_lib::lemma_seq_concat_contains_all_elements(a, b, x);
            if a.contains(x) {
                let i = choose|i: int| 0 <= i < a.len() && a[i] == x;
                assert(order[i] == x.0);
                assert(order.contains(x.0));
                assert(layers[from] == x.1);
            } else {
                assert(b.contains(x));
            }
        }
    } else {
        assert(cell_layer_entries(cell, layers, from) =~= Seq::<(u64, EntityGridLayer)>::empty());
    }
}

/// The pairs of the cells `cells[from..]` come each once, each from one of the
/// walked layers and one of the walked cells inside the grid.
proof fn lemma_cells_entries_unique(
    grid: EntitySetsGrid,
    cells: Seq<RowCol>,
    layers: Seq<EntityGridLayer>,
    from: int,
)
    requires
        0 <= from <= cells.len(),
        layers.no_duplicates(),
        cells.no_duplicates(),
        forall|m: int| 0 <= m < layers.len() ==> (#[trigger] layers[m]).has_set(),
        forall|k: int|
            from <= k < cells.len() && grid.0.spec.contains_cell(#[trigger] cells[k]) ==> grid.0.slot(cells[k]) is Some,
        forall|i: int, j: int, l: int, e: u64|
            0 <= i < grid.orders().len() && 0 <= j < grid.orders().len() && i != j && 0 <= l < LAYER_SETS
                && #[trigger] grid.orders()[i][l].contains(e) ==> !(#[trigger] grid.orders()[j][l].contains(e)),
    ensures
        cells_entries(grid, cells, layers, from).no_duplicates(),
        forall|x: (u64, EntityGridLayer)|
            #[trigger] cells_entries(grid, cells, layers, from).contains(x) ==> exists|k: int, m: int|
                from <= k < cells.len() && 0 <= m < layers.len() && layers[m] == x.1
                    && grid.0.spec.contains_cell(cells[k])
                    && grid.orders()[grid.0.slot(cells[k]).unwrap()][x.1.0 as int].contains(x.0),
    decreases cells.len() - from,
{
    if from < cells.len() {
        lemma_cells_entries_unique(grid, cells, layers, from + 1);
        let a = cell_entries(grid, cells[from], layers);
        let b = cells_entries(grid, cells, layers, from + 1);
        assert(cells_entries(grid, cells, layers, from) == a + b);
        if !grid.0.spec.contains_cell(cells[from]) {
            assert(a + b =~= b);
        } else {
            let i = grid.0.slot(cells[from]).unwrap();
            let cell = grid.0.cells@[i];
            lemma_cell_entries_unique(cell, layers, 0);
            assert forall|p: int, q: int| 0 <= p < a.len() && 0 <= q < b.len() implies a[p] != b[q] by {
                assert(a.contains(a[p]));
                assert(b.contains(b[q]));
                if a[p] == b[q] {
                    let x = a[p];
                    let m = choose|m: int| 0 <= m < layers.len() && layers[m] == x.1 && cell.0@[x.1.0 as int].order().contains(x.0);
                    let (k, m2) = choose|k: int, m2: int|
                        from + 1 <= k < cells.len() && 0 <= m2 < layers.len() && layers[m2] == x.1
                            && grid.0.spec.contains_cell(cells[k])
                            && grid.orders()[grid.0.slot(cells[k]).unwrap()][x.1.0 as int].contains(x.0);
                    let j = grid.0.slot(cells[k]).unwrap();
                    assert(cells[k] != cells[from]);
                    lemma_flat_index_in_range_and_unique(grid.0.spec, cells[k], cells[from]);
                    assert(j != i);
                    assert(layers[m].has_set());
                    assert(grid.orders()[i][x.1.0 as int] == cell.0@[x.1.0 as int].order());
                    assert(grid.orders()[i][x.1.0 as int].contains(x.0));
                    assert(grid.orders()[j][x.1.0 as int].contains(x.0));
                }
            }
            vstd::seq_lib::lemma_no_dup_in_concat(a, b);
            assert forall|x: (u64, EntityGridLayer)| #[trigger] (a + b).contains(x) implies exists|k: int, m: int|
                from <= k < cells.len() && 0 <= m < layers.len() && layers[m] == x.1
                    && grid.0.spec.contains_cell(cells[k])
                    && grid.orders()[grid.0.slot(cells[k]).unwrap()][x.1.0 as int].contains(x.0) by {
                vstd::seq_lib::lemma_seq_concat_contains_all_elements(a, b, x);
                if a.contains(x) {
                    let m = choose|m: int| 0 <= m < layers.len() && layers[m] == x.1 && cell.0@[x.1.0 as int].order().contains(x.0);
                    assert(grid.orders()[i][x.1.0 as int] == cell.0@[x.1.0 as int].order());
                    assert(from <= from < cells.len() && 0 <= m < layers.len() && layers[m] == x.1
                        && grid.0.spec.contains_cell(cells[from])
                        && grid.orders()[grid.0.slot(cells[from]).unwrap()][x.1.0 as int].contains(x.0));
                } else {
                    assert(b.contains(x));
                }
            }
        }
    } else {
        assert(cells_entries(grid, cells, layers, from) =~= Seq::<(u64, EntityGridLayer)>::empty());
    }
}

/// A walk over distinct cells and distinct layers that have sets, through a
/// grid that holds every walked cell inside it, yields each (entity, layer)
/// pair at most once when every entity is in at most one cell per layer;
/// every pair comes from a walked layer and the set of that layer in a walked
/// cell inside the grid.
pub proof fn lemma_walk_yields_each_pair_once(
    grid: EntitySetsGrid,
    cells: Seq<RowCol>,
    layers: Seq<EntityGridLayer>,
)
    requires
        layers.no_duplicates(),
        cells.no_duplicates(),
        forall|m: int| 0 <= m < layers.len() ==> (#[trigger] layers[m]).has_set(),
        forall|k: int|
            0 <= k < cells.len() && grid.0.spec.contains_cell(#[trigger] cells[k]) ==> grid.0.slot(cells[k]) is Some,
        forall|i: int, j: int, l: int, e: u64|
            0 <= i < grid.orders().len() && 0 <= j < grid.orders().len() && i != j && 0 <= l < LAYER_SETS
                && #[trigger] grid.orders()[i][l].contains(e) ==> !(#[trigger] grid.orders()[j][l].contains(e)),
    ensures
        cells_entries(grid, cells, layers, 0).no_duplicates(),
        forall|x: (u64, EntityGridLayer)|
            #[trigger] cells_entries(grid, cells, layers, 0).contains(x) ==> exists|k: int, m: int|
                0 <= k < cells.len() && 0 <= m < layers.len() && layers[m] == x.1
                    && grid.0.spec.contains_cell(cells[k])
                    && grid.orders()[grid.0.slot(cells[k]).unwrap()][x.1.0 as int].contains(x.0),
{
    lemma_cells_entries_unique(grid, cells, layers, 0);
}

/// The pairs of a cell's layers from `from` on include every member of every
/// walked layer from there.
proof fn lemma_cell_layer_entries_has(cell: EntitySets, layers: Seq<EntityGridLayer>, from: int, m: int, e: u64)
    requires
        0 <= from <= m < layers.len(),
        cell.0@[layers[m].0 as int].order().contains(e),
    ensures
        cell_layer_entries(cell, layers, from).contains((e, layers[m])),
    decreases m - from,
{
    let here = cell.0@[layers[from].0 as int].order().map_values(|x: u64| (x, layers[from]));
    let rest = cell_layer_entries(cell, layers, from + 1);
    assert(cell_layer_entries(cell, layers, from) == here + rest);
    if m == from {
        let order = cell.0@[layers[m].0 as int].order();
        let k = choose|k: int| 0 <= k < order.len() && order[k] == e;
        assert((here + rest)[k] == (e, layers[m]));
    } else {
        lemma_cell_layer_entries_has(cell, layers, from + 1, m, e);
        let k = choose|k: int| 0 <= k < rest.len() && rest[k] == (e, layers[m]);
        assert((here + rest)[here.len() + k] == (e, layers[m]));
    }
}

/// The pairs of the cells `cells[from..]` include those of each of them.
proof fn lemma_cells_entries_has(
    grid: EntitySetsGrid,
    cells: Seq<RowCol>,
    layers: Seq<EntityGridLayer>,
    from: int,
    k: int,
    x: (u64, EntityGridLayer),
)
    requires
        0 <= from <= k < cells.len(),
        cell_entries(grid, cells[k], layers).contains(x),
    ensures
        cells_entries(grid, cells, layers, from).contains(x),
    decreases k - from,
{
    let here = cell_entries(grid, cells[from], layers);
    let rest = cells_entries(grid, cells, layers, from + 1);
    assert(cells_entries(grid, cells, layers, from) == here + rest);
    if k == from {
        let j = choose|j: int| 0 <= j < here.len() && here[j] == x;
        assert((here + rest)[j] == x);
    } else {
        lemma_cells_entries_has(grid, cells, layers, from + 1, k, x);
        let j = choose|j: int| 0 <= j < rest.len() && rest[j] == x;
        assert((here + rest)[here.len() + j] == x);
    }
}

/// A walk meets every member of every walked layer in every cell still to
/// come that lies inside the grid, however many cells it walks: each such
/// (entity, layer) pair is among the pairs still to come.
pub proof fn lemma_walk_meets_every_pair(
    walk: EntityLayerRadiusIterator,
    grid: EntitySetsGrid,
    k: int,
    m: int,
    entity: u64,
)
    requires
        walk.next_cell() <= k < walk.cells().len(),
        grid.0.spec.contains_cell(walk.cells()[k]),
        grid.0.slot(walk.cells()[k]) is Some,
        0 <= m < walk.layers().len(),
        walk.layers()[m].has_set(),
        grid.sets()[grid.0.slot(walk.cells()[k]).unwrap()][walk.layers()[m].0 as int].contains(entity),
    ensures
        walk.remaining(grid).contains((entity, walk.layers()[m])),
{
    let i = grid.0.slot(walk.cells()[k]).unwrap();
    let cell = grid.0.cells@[i];
    let set = cell.0@[walk.layers()[m].0 as int];
    lemma_view_is_order_members(set);
    assert(set.order().contains(entity));
    lemma_cell_layer_entries_has(cell, walk.layers(), 0, m, entity);
    let x = (entity, walk.layers()[m]);
    lemma_cells_entries_has(grid, walk.cells(), walk.layers(), walk.next_cell(), k, x);
    let p = walk.pending(grid);
    let rest = cells_entries(grid, walk.cells(), walk.layers(), walk.next_cell());
    let j = choose|j: int| 0 <= j < rest.len() && rest[j] == x;
    assert((p + rest)[p.len() + j] == x);
}

/// The event of a move into a held cell names the entity, its layer and both
/// cells, and reports the old cell emptied exactly when that cell's set of the
/// entity's layer held no other entity (whatever other layers hold); it never
/// does so when the entity came from no cell or from one the grid lacks.
pub proof fn lemma_move_event_reports_layer_emptied(
    grid: EntitySetsGrid,
    entity: u64,
    layer: EntityGridLayer,
    prev_rowcol: Option<RowCol>,
    rowcol: RowCol,
)
    requires
        layer.has_set(),
        prev_rowcol != Some(rowcol),
        grid.0.slot(rowcol) is Some,
    ensures
        grid.move_event(entity, layer, prev_rowcol, rowcol) matches Some(ev) && {
            &&& ev.entity == entity
            &&& ev.layer == layer
            &&& ev.prev_rowcol == prev_rowcol
            &&& ev.rowcol == Some(rowcol)
            &&& ev.prev_empty <==> (prev_rowcol matches Some(p) && grid.0.slot(p) matches Some(i) && forall|e: u64|
                e != entity ==> !(#[trigger] grid.sets()[i][layer.0 as int].contains(e)))
        },
{
    if let Some(p) = prev_rowcol {
        if let Some(i) = grid.0.slot(p) {
            let before = grid.sets()[i][layer.0 as int];
            let after = grid.sets_after_leave(entity, layer, prev_rowcol)[i][layer.0 as int];
            assert(after == before.remove(entity));
            if after == Set::<u64>::empty() {
                assert forall|e: u64| e != entity implies !(#[trigger] before.contains(e)) by {
                    assert(!after.contains(e));
                }
            }
            if forall|e: u64| e != entity ==> !(#[trigger] before.contains(e)) {
                assert(after =~= Set::<u64>::empty());
            }
        }
    }
}

/// The event of a removal from a held cell names the entity, its layer and
/// the cell, and reports the cell emptied exactly when its set of that layer
/// held no other entity (whatever other layers hold); a cell the grid lacks
/// reports nothing.
pub proof fn lemma_remove_event_reports_layer_emptied(
    grid: EntitySetsGrid,
    entity: u64,
    layer: EntityGridLayer,
    rowcol: RowCol,
)
    requires
        layer.has_set(),
    ensures
        grid.0.slot(rowcol) is None ==> grid.remove_event(entity, layer, rowcol) is None,
        grid.0.slot(rowcol) matches Some(i) ==> grid.remove_event(entity, layer, rowcol) matches Some(ev) && {
            &&& ev.entity == entity
            &&& ev.layer == layer
            &&& ev.prev_rowcol == Some(rowcol)
            &&& ev.rowcol is None
            &&& ev.prev_empty <==> forall|e: u64|
                e != entity ==> !(#[trigger] grid.sets()[i][layer.0 as int].contains(e))
        },
{
    if let Some(i) = grid.0.slot(rowcol) {
        let before = grid.sets()[i][layer.0 as int];
        let after = grid.sets_after_remove(entity, layer, rowcol)[i][layer.0 as int];
        assert(after == before.remove(entity));
        if after == Set::<u64>::empty() {
            assert forall|e: u64| e != entity implies !(#[trigger] before.contains(e)) by {
                assert(!after.contains(e));
            }
        }
        if forall|e: u64| e != entity ==> !(#[trigger] before.contains(e)) {
            assert(after =~= Set::<u64>::empty());
        }
    }
}

} // verus!
