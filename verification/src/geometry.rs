//! Geometry of a regular 2D grid: an axis-aligned rectangle split into
//! cells of a fixed size per axis, with the mapping from a continuous
//! coordinate to its cell index.
//!
//! Coordinates are fixed-point integers (micro-units). The rectangle is
//! half-open: a point is inside when `min <= c < max` on both axes.

use vstd::prelude::*;

verus! {

/// Largest number of cells a grid may hold, so that every index and
/// every reduction over the cells stays within machine integers.
pub const MAX_CELLS: u64 = 0x1000_0000;

/// Why a grid could not be built.
#[derive(Clone, Copy, Debug, PartialEq, Eq, Structural)]
pub enum GridError {
    /// `min > max` on some axis.
    InvertedRange,
    /// A cell size that is zero or negative.
    NonPositiveCellSize,
    /// The rectangle and cell size would give more than `MAX_CELLS` cells.
    TooManyCells,
}

/// Ceiling of `a / b` for a non-negative `a` and positive `b`.
pub open spec fn ceil_div(a: int, b: int) -> int
    recommends
        a >= 0,
        b > 0,
{
    (a + b - 1) / b
}

/// The rectangle and cell sizes of a grid. All four grids of one run
/// share a single value of this type, so their cells correspond 1:1.
#[derive(Clone, Copy, Debug, PartialEq, Eq, Structural)]
pub struct GridGeometry {
    /// Lower x bound (inclusive), micro-units.
    pub xmin: i64,
    /// Upper x bound (exclusive), micro-units.
    pub xmax: i64,
    /// Lower y bound (inclusive), micro-units.
    pub ymin: i64,
    /// Upper y bound (exclusive), micro-units.
    pub ymax: i64,
    /// Cell width, micro-units.
    pub binx: i64,
    /// Cell height, micro-units.
    pub biny: i64,
    /// Number of columns.
    pub nx: usize,
    /// Number of rows.
    pub ny: usize,
}

impl GridGeometry {
    /// Well-formedness: the ranges are ordered, the cell sizes positive,
    /// and the cell counts are the ceilings the rectangle demands.
    pub open spec fn wf(self) -> bool {
        &&& self.xmin <= self.xmax
        &&& self.ymin <= self.ymax
        &&& self.binx > 0
        &&& self.biny > 0
        &&& self.nx == ceil_div(self.xmax - self.xmin, self.binx as int)
        &&& self.ny == ceil_div(self.ymax - self.ymin, self.biny as int)
        &&& self.nx <= MAX_CELLS
        &&& self.ny <= MAX_CELLS
        &&& self.nx * self.ny <= MAX_CELLS
    }

    /// Total number of cells.
    pub open spec fn spec_n_cells(self) -> int {
        self.nx * self.ny
    }

    /// Whether a point lies inside the half-open rectangle.
    pub open spec fn in_range(self, x: int, y: int) -> bool {
        &&& self.xmin <= x < self.xmax
        &&& self.ymin <= y < self.ymax
    }

    /// Column of an in-range x coordinate.
    pub open spec fn col_of(self, x: int) -> int {
        (x - self.xmin) / (self.binx as int)
    }

    /// Row of an in-range y coordinate.
    pub open spec fn row_of(self, y: int) -> int {
        (y - self.ymin) / (self.biny as int)
    }

    /// Row-major cell index of an in-range point: rows are y, columns x,
    /// and x varies fastest.
    pub open spec fn index_of(self, x: int, y: int) -> int {
        self.row_of(y) * self.nx + self.col_of(x)
    }

    /// Build the geometry. Fails exactly on an inverted range, a
    /// non-positive cell size, or a grid beyond `MAX_CELLS` cells;
    /// otherwise the cell counts are the ceilings the rectangle demands.
    pub fn new(xmin: i64, xmax: i64, ymin: i64, ymax: i64, binx: i64, biny: i64) -> (r: Result<
        GridGeometry,
        GridError,
    >)
        ensures
            xmin > xmax || ymin > ymax ==> r == Err::<GridGeometry, GridError>(
                GridError::InvertedRange,
            ),
            xmin <= xmax && ymin <= ymax && (binx <= 0 || biny <= 0) ==> r == Err::<
                GridGeometry,
                GridError,
            >(GridError::NonPositiveCellSize),
            (xmin <= xmax && ymin <= ymax && binx > 0 && biny > 0) ==> {
                let nx = ceil_div(xmax - xmin, binx as int);
                let ny = ceil_div(ymax - ymin, biny as int);
                if nx > MAX_CELLS || ny > MAX_CELLS || nx * ny > MAX_CELLS {
                    r == Err::<GridGeometry, GridError>(GridError::TooManyCells)
                } else {
                    r == Ok::<GridGeometry, GridError>(
                        GridGeometry { xmin, xmax, ymin, ymax, binx, biny, nx: nx as usize, ny: ny as usize },
                    )
                }
            },
            r matches Ok(g) ==> g.wf(),
    {
        if xmin > xmax || ymin > ymax {
            return Err(GridError::InvertedRange);
        }
        if binx <= 0 || biny <= 0 {
            return Err(GridError::NonPositiveCellSize);
        }
        let rx: u128 = (xmax as i128 - xmin as i128) as u128;
        let ry: u128 = (ymax as i128 - ymin as i128) as u128;
        let nxw: u128 = (rx + binx as u128 - 1) / (binx as u128);
        let nyw: u128 = (ry + biny as u128 - 1) / (biny as u128);
        if nxw > MAX_CELLS as u128 || nyw > MAX_CELLS as u128 {
            return Err(GridError::TooManyCells);
        }
        proof {
            vstd::arithmetic::mul::lemma_mul_upper_bound(
                nxw as int,
                MAX_CELLS as int,
                nyw as int,
                MAX_CELLS as int,
            );
        }
        if nxw * nyw > MAX_CELLS as u128 {
            return Err(GridError::TooManyCells);
        }
        Ok(GridGeometry { xmin, xmax, ymin, ymax, binx, biny, nx: nxw as usize, ny: nyw as usize })
    }

    /// Total number of cells, as the executable sees it.
    pub fn n_cells(&self) -> (r: usize)
        requires
            self.wf(),
        ensures
            r == self.spec_n_cells(),
    {
        proof {
            lemma_axis_count_nonneg(self.xmax - self.xmin, self.binx as int);
            lemma_axis_count_nonneg(self.ymax - self.ymin, self.biny as int);
            vstd::arithmetic::mul::lemma_mul_nonnegative(self.nx as int, self.ny as int);
        }
        self.nx * self.ny
    }

    /// Cell index of a point: `Some` with the row-major index exactly for
    /// points inside the half-open rectangle, `None` for all others.
    pub fn cell_index(&self, x: i64, y: i64) -> (r: Option<usize>)
        requires
            self.wf(),
        ensures
            self.in_range(x as int, y as int) ==> r == Some(
                self.index_of(x as int, y as int) as usize,
            ) && 0 <= self.index_of(x as int, y as int) < self.spec_n_cells(),
            !self.in_range(x as int, y as int) ==> r is None,
    {
        if x < self.xmin || x >= self.xmax || y < self.ymin || y >= self.ymax {
            return None;
        }
        let col: u128 = ((x as i128 - self.xmin as i128) as u128) / (self.binx as u128);
        let row: u128 = ((y as i128 - self.ymin as i128) as u128) / (self.biny as u128);
        proof {
            self.lemma_index_in_bounds(x as int, y as int);
        }
        Some((row as usize) * self.nx + (col as usize))
    }

    /// Every in-range point maps to an index inside the cell array, so
    /// each in-range coordinate has exactly one owning cell.
    pub proof fn lemma_index_in_bounds(self, x: int, y: int)
        requires
            self.wf(),
            self.in_range(x, y),
        ensures
            0 <= self.col_of(x) < self.nx,
            0 <= self.row_of(y) < self.ny,
            0 <= self.index_of(x, y) < self.spec_n_cells(),
    {
        lemma_floor_in_axis_range(x - self.xmin, self.xmax - self.xmin, self.binx as int);
        lemma_floor_in_axis_range(y - self.ymin, self.ymax - self.ymin, self.biny as int);
        let row = self.row_of(y);
        let col = self.col_of(x);
        assert(row * self.nx <= (self.ny - 1) * self.nx) by {
            vstd::arithmetic::mul::lemma_mul_inequality(row, self.ny - 1, self.nx as int);
        }
        assert((self.ny - 1) * self.nx == self.ny * self.nx - 1 * self.nx) by {
            vstd::arithmetic::mul::lemma_mul_is_distributive_sub_other_way(
                self.nx as int,
                self.ny as int,
                1,
            );
        }
        assert(1 * self.nx == self.nx) by {
            vstd::arithmetic::mul::lemma_mul_basics(self.nx as int);
        }
        assert(self.nx * self.ny == self.ny * self.nx) by {
            vstd::arithmetic::mul::lemma_mul_is_commutative(self.nx as int, self.ny as int);
        }
        assert(row * self.nx >= 0) by {
            vstd::arithmetic::mul::lemma_mul_nonnegative(row, self.nx as int);
        }
    }

    /// The half-open boundary policy: a point on the `max` boundary of
    /// either axis lies outside the grid, while the `(xmin, ymin)` corner
    /// of a non-empty grid lies in cell 0.
    pub proof fn lemma_half_open_boundaries(self)
        requires
            self.wf(),
        ensures
            forall|x: int, y: int| x == self.xmax || y == self.ymax ==> !self.in_range(x, y),
            self.xmin < self.xmax && self.ymin < self.ymax ==> self.in_range(
                self.xmin as int,
                self.ymin as int,
            ) && self.index_of(self.xmin as int, self.ymin as int) == 0,
    {
        if self.xmin < self.xmax && self.ymin < self.ymax {
            assert(self.col_of(self.xmin as int) == 0) by {
                vstd::arithmetic::div_mod::lemma_div_of0(self.binx as int);
            }
            assert(self.row_of(self.ymin as int) == 0) by {
                vstd::arithmetic::div_mod::lemma_div_of0(self.biny as int);
            }
            assert(0 * self.nx == 0) by {
                vstd::arithmetic::mul::lemma_mul_basics(self.nx as int);
            }
        }
    }
}

/// An axis's cell count `ceil(d / b)` is non-negative for `d >= 0, b > 0`.
proof fn lemma_axis_count_nonneg(d: int, b: int)
    requires
        d >= 0,
        b > 0,
    ensures
        ceil_div(d, b) >= 0,
{
    vstd::arithmetic::div_mod::lemma_div_pos_is_pos(d + b - 1, b);
}

/// For `0 <= c < d` and `b > 0`: `0 <= c / b < ceil(d / b)`.
proof fn lemma_floor_in_axis_range(c: int, d: int, b: int)
    requires
        0 <= c < d,
        b > 0,
    ensures
        0 <= c / b < ceil_div(d, b),
{
    vstd::arithmetic::div_mod::lemma_div_pos_is_pos(c, b);
    assert(c / b <= (d - 1) / b) by {
        vstd::arithmetic::div_mod::lemma_div_is_ordered(c, d - 1, b);
    }
    assert((d - 1 + b) / b == (d - 1) / b + 1) by {
        vstd::arithmetic::div_mod::lemma_div_plus_one(d - 1, b);
    }
}

} // verus!
