use vstd::prelude::*;

use crate::rowcol::RowCol;
use crate::spec::{lemma_flat_index_in_range_and_unique, SpatialGridSpec};

verus! {

/// A value that `T::default()` may return.
pub open spec fn is_default_value<T: Default>(value: T) -> bool {
    call_ensures(T::default, (), value)
}

/// 2D Grid containing arbitrary data, one value per cell in row-major order.
#[derive(Clone, Debug, Default)]
pub struct SpatialGrid2<T: Sized + Default + Clone> {
    pub spec: SpatialGridSpec,
    pub cells: Vec<T>,
}

impl<T: Sized + Default + Clone> SpatialGrid2<T> {
    /// Resets the grid to all default values.
    pub fn reset(&mut self)
        ensures
            final(self).spec == old(self).spec,
            final(self).cells.len() == old(self).cells.len(),
            exists|d: T|
                is_default_value(d) && forall|i: int|
                    0 <= i < final(self).cells.len() ==> cloned(d, #[trigger] final(self).cells@[i]),
    {
        let make_default = T::default;
        let d = make_default();
        let ghost dv = d;
        assert(is_default_value(dv));
        let n = self.cells.len();
        self.cells = vec![d; n];
        assert(forall|i: int| 0 <= i < self.cells.len() ==> cloned(dv, #[trigger] self.cells@[i]));
    }

    /// Position in `cells` of a cell, if that position exists.
    pub open spec fn slot(self, rowcol: RowCol) -> Option<int> {
        let i = self.spec.flat_index_of(rowcol);
        if i < self.cells.len() { Some(i) } else { None }
    }

    /// Returns true iff the grid holds the cell.
    pub fn holds(&self, rowcol: RowCol) -> (r: bool)
        ensures
            r == (self.slot(rowcol) is Some),
    {
        let (row, col) = rowcol;
        assert(row as u64 * self.spec.cols as u64 <= u32::MAX as u64 * u32::MAX as u64) by (nonlinear_arith)
            requires
                row <= u32::MAX,
                self.spec.cols <= u32::MAX,
        ;
        let index: u64 = row as u64 * self.spec.cols as u64 + col as u64;
        index < self.cells.len() as u64
    }

    /// Resize the grid to match the given spec.
    pub fn resize_with(&mut self, spec: SpatialGridSpec)
        requires
            spec.num_cells() <= usize::MAX,
        ensures
            final(self).spec == spec,
            final(self).cells.len() == spec.num_cells(),
            forall|i: int|
                0 <= i < old(self).cells.len() && i < spec.num_cells() ==> #[trigger] final(self).cells@[i] == old(self).cells@[i],
            exists|d: T|
                is_default_value(d) && forall|i: int|
                    old(self).cells.len() <= i < spec.num_cells() ==> cloned(d, #[trigger] final(self).cells@[i]),
    {
        self.spec = spec;
        self.resize();
    }

    /// Resize the grid to hold one value per cell of its spec, keeping the
    /// values of the cells that remain and filling new ones with defaults.
    pub fn resize(&mut self)
        requires
            old(self).spec.num_cells() <= usize::MAX,
        ensures
            final(self).spec == old(self).spec,
            final(self).cells.len() == old(self).spec.num_cells(),
            forall|i: int|
                0 <= i < old(self).cells.len() && i < old(self).spec.num_cells() ==> #[trigger] final(self).cells@[i] == old(self).cells@[i],
            exists|d: T|
                is_default_value(d) && forall|i: int|
                    old(self).cells.len() <= i < old(self).spec.num_cells() ==> cloned(d, #[trigger] final(self).cells@[i]),
    {
        let ghost before = self.cells@;
        let num_cells = self.spec.rows as usize * self.spec.cols as usize;
        let make_default = T::default;
        let d = make_default();
        let ghost dv = d;
        assert(is_default_value(dv));
        self.cells.resize(num_cells, d);
        proof {
            if num_cells <= before.len() {
                assert forall|i: int| 0 <= i < before.len() && i < num_cells implies #[trigger] self.cells@[i] == before[i] by {
                }
            } else {
                assert forall|i: int| 0 <= i < before.len() && i < num_cells implies #[trigger] self.cells@[i] == before[i] by {
                    assert(self.cells@.subrange(0, before.len() as int)[i] == self.cells@[i]);
                }
            }
        }
    }

    /// Returns the value of a cell, if the grid holds it.
    pub fn get(&self, rowcol: RowCol) -> (r: Option<&T>)
        requires
            self.spec.flat_index_of(rowcol) <= usize::MAX,
        ensures
            match self.slot(rowcol) {
                Some(i) => r == Some(&self.cells@[i]),
                None => r is None,
            },
    {
        let index = self.spec.flat_index(rowcol);
        if index < self.cells.len() {
            Some(&self.cells[index])
        } else {
            None
        }
    }

    /// Returns the value of a cell for modification, if the grid holds it.
    pub fn get_mut(&mut self, rowcol: RowCol) -> (r: Option<&mut T>)
        requires
            old(self).spec.flat_index_of(rowcol) <= usize::MAX,
        ensures
            match old(self).slot(rowcol) {
                Some(i) => {
                    &&& r matches Some(v)
                    &&& *v == old(self).cells@[i]
                    &&& final(self).spec == old(self).spec
                    &&& final(self).cells@ == old(self).cells@.update(i, *final(v))
                },
                None => r is None && *final(self) == *old(self),
            },
    {
        let index = self.spec.flat_index(rowcol);
        if index < self.cells.len() {
            Some(&mut self.cells[index])
        } else {
            None
        }
    }

    /// The value of a cell; the cell must be held by the grid.
    pub fn index(&self, rowcol: RowCol) -> (r: &T)
        requires
            self.spec.flat_index_of(rowcol) < self.cells.len(),
        ensures
            *r == self.cells@[self.spec.flat_index_of(rowcol)],
    {
        &self.cells[self.spec.flat_index(rowcol)]
    }

    /// The value of a cell, for modification; the cell must be held by the grid.
    pub fn index_mut(&mut self, rowcol: RowCol) -> (r: &mut T)
        requires
            old(self).spec.flat_index_of(rowcol) < old(self).cells.len(),
        ensures
            *r == old(self).cells@[old(self).spec.flat_index_of(rowcol)],
            final(self).spec == old(self).spec,
            final(self).cells@ == old(self).cells@.update(
                old(self).spec.flat_index_of(rowcol),
                *final(r),
            ),
    {
        let flat_i = self.spec.flat_index(rowcol);
        &mut self.cells[flat_i]
    }
}

} // verus!

verus! {

/// Once a grid has been sized to its spec, it holds every in-bounds cell, each
/// in a slot of its own.
pub proof fn lemma_sized_grid_holds_cells<T: Sized + Default + Clone>(
    grid: SpatialGrid2<T>,
    a: RowCol,
    b: RowCol,
)
    requires
        grid.cells.len() == grid.spec.num_cells(),
        grid.spec.contains_cell(a),
        grid.spec.contains_cell(b),
    ensures
        grid.slot(a) is Some,
        a != b ==> grid.slot(a) != grid.slot(b),
{
    lemma_flat_index_in_range_and_unique(grid.spec, a, b);
    lemma_flat_index_in_range_and_unique(grid.spec, b, a);
}

} // verus!
