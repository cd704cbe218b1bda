//! Configuration checks: everything rejected before any trajectory work,
//! with one error per rejected condition.

use vstd::prelude::*;

use crate::accum::ThicknessMap;
use crate::accum::empty_state;
use crate::geometry::GridError;
use crate::geometry::GridGeometry;
use crate::geometry::MAX_CELLS;
use crate::geometry::ceil_div;

verus! {

/// A configuration the run refuses before any input is read.
#[derive(Clone, Copy, Debug, PartialEq, Eq, Structural)]
pub enum SetupError {
    /// The minimum sample count must be at least one.
    ZeroNanLimit,
    /// The grid rectangle or cell size is unusable.
    Grid(GridError),
}

/// Check the configuration and build the empty accumulator over the
/// requested rectangle. Fails exactly on a zero sample threshold, an
/// inverted range, a non-positive cell size, or a grid beyond
/// `MAX_CELLS` cells.
pub fn prepare_map(
    nan_limit: u64,
    xmin: i64,
    xmax: i64,
    ymin: i64,
    ymax: i64,
    binx: i64,
    biny: i64,
) -> (r: Result<ThicknessMap, SetupError>)
    ensures
        nan_limit == 0 ==> r == Err::<ThicknessMap, SetupError>(SetupError::ZeroNanLimit),
        nan_limit >= 1 && (xmin > xmax || ymin > ymax) ==> r == Err::<ThicknessMap, SetupError>(
            SetupError::Grid(GridError::InvertedRange),
        ),
        nan_limit >= 1 && xmin <= xmax && ymin <= ymax && (binx <= 0 || biny <= 0) ==> r == Err::<
            ThicknessMap,
            SetupError,
        >(SetupError::Grid(GridError::NonPositiveCellSize)),
        nan_limit >= 1 && xmin <= xmax && ymin <= ymax && binx > 0 && biny > 0 && (ceil_div(
            xmax - xmin,
            binx as int,
        ) > MAX_CELLS || ceil_div(ymax - ymin, biny as int) > MAX_CELLS || ceil_div(
            xmax - xmin,
            binx as int,
        ) * ceil_div(ymax - ymin, biny as int) > MAX_CELLS) ==> r == Err::<
            ThicknessMap,
            SetupError,
        >(SetupError::Grid(GridError::TooManyCells)),
        nan_limit >= 1 && xmin <= xmax && ymin <= ymax && binx > 0 && biny > 0 && ceil_div(
            xmax - xmin,
            binx as int,
        ) <= MAX_CELLS && ceil_div(ymax - ymin, biny as int) <= MAX_CELLS && ceil_div(
            xmax - xmin,
            binx as int,
        ) * ceil_div(ymax - ymin, biny as int) <= MAX_CELLS ==> r is Ok,
        r matches Ok(m) ==> {
            &&& nan_limit >= 1
            &&& m.wf()
            &&& m@ == empty_state(m.geom)
            &&& m.geom.xmin == xmin && m.geom.xmax == xmax
            &&& m.geom.ymin == ymin && m.geom.ymax == ymax
            &&& m.geom.binx == binx && m.geom.biny == biny
        },
{
    if nan_limit == 0 {
        return Err(SetupError::ZeroNanLimit);
    }
    match GridGeometry::new(xmin, xmax, ymin, ymax, binx, biny) {
        Ok(geom) => Ok(ThicknessMap::new(geom)),
        Err(e) => Err(SetupError::Grid(e)),
    }
}

} // verus!
