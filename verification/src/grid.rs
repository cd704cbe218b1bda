//! A regular 2D binning container: one accumulator value per grid cell,
//! laid out row-major over a [`GridGeometry`].
//!
//! The container is generic over the accumulator type, so one
//! implementation serves both the value-sum grids and the sample-count
//! grids. It never resizes after construction.

use vstd::prelude::*;

use crate::geometry::GridGeometry;

verus! {

/// A grid of per-cell accumulators. The view is the row-major sequence
/// of the cell values.
pub struct GridMap<T> {
    geom: GridGeometry,
    cells: Vec<T>,
}

impl<T> View for GridMap<T> {
    type V = Seq<T>;

    closed spec fn view(&self) -> Seq<T> {
        self.cells@
    }
}

impl<T: Copy> GridMap<T> {
    /// Well-formed: the geometry is, and there is exactly one cell per
    /// (row, column) pair of the geometry.
    pub open spec fn wf(self) -> bool {
        &&& self.spec_geom().wf()
        &&& self@.len() == self.spec_geom().spec_n_cells()
    }

    /// The geometry the grid was built over.
    pub closed spec fn spec_geom(self) -> GridGeometry {
        self.geom
    }

    /// Build a grid over `geom` with every cell holding `zero`.
    pub fn new(geom: GridGeometry, zero: T) -> (r: GridMap<T>)
        requires
            geom.wf(),
        ensures
            r.wf(),
            r.spec_geom() == geom,
            r@ =~= Seq::new(geom.spec_n_cells() as nat, |i: int| zero),
    {
        let n = geom.n_cells();
        let mut cells: Vec<T> = Vec::new();
        let mut i: usize = 0;
        while i < n
            invariant
                i <= n,
                cells@.len() == i,
                forall|j: int| 0 <= j < i ==> cells@[j] == zero,
            decreases n - i,
        {
            cells.push(zero);
            i = i + 1;
        }
        GridMap { geom, cells }
    }

    /// The geometry, for callers that align several grids.
    pub fn geom(&self) -> (r: GridGeometry)
        ensures
            r == self.spec_geom(),
    {
        self.geom
    }

    /// Read the accumulator of cell `i`.
    pub fn get(&self, i: usize) -> (r: T)
        requires
            i < self@.len(),
        ensures
            r == self@[i as int],
    {
        self.cells[i]
    }

    /// Replace the accumulator of cell `i`.
    pub fn set(&mut self, i: usize, v: T)
        requires
            i < old(self)@.len(),
        ensures
            final(self)@ =~= old(self)@.update(i as int, v),
            final(self).spec_geom() == old(self).spec_geom(),
    {
        self.cells.set(i, v);
    }

    /// Read the accumulator owning the point `(x, y)`, if the point lies
    /// inside the grid's rectangle.
    pub fn value_at(&self, x: i64, y: i64) -> (r: Option<T>)
        requires
            self.wf(),
        ensures
            self.spec_geom().in_range(x as int, y as int) ==> r == Some(
                self@[self.spec_geom().index_of(x as int, y as int)],
            ),
            !self.spec_geom().in_range(x as int, y as int) ==> r is None,
    {
        match self.geom.cell_index(x, y) {
            Some(i) => Some(self.cells[i]),
            None => None,
        }
    }
}

} // verus!
