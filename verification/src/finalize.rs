//! Finalization: reduce the four accumulated grids to one thickness
//! value per cell under the significance threshold, and the global
//! average over the defined cells.
//!
//! A cell's thickness is defined only when both leaflets reached the
//! configured minimum sample count; otherwise the cell is undefined
//! (rendered as a non-value). Averages are floor divisions in
//! micro-units, so every value is exact.

use vstd::prelude::*;

use crate::accum::ThicknessMap;
use crate::accum::ThicknessState;
use crate::geometry::MAX_CELLS;

verus! {

/// A finalized, read-only cell: its center and its thickness, all in
/// micro-units. An undefined thickness is `None`.
#[derive(Clone, Copy, Debug, PartialEq, Eq, Structural)]
pub struct CellValue {
    /// x coordinate of the cell center.
    pub cx: i128,
    /// y coordinate of the cell center.
    pub cy: i128,
    /// Thickness, or `None` where a leaflet lacks samples.
    pub thickness: Option<i128>,
}

/// The mathematical content of a finalized cell.
#[verifier::ext_equal]
pub ghost struct FinalCell {
    /// x coordinate of the cell center.
    pub cx: int,
    /// y coordinate of the cell center.
    pub cy: int,
    /// Thickness, or `None` where a leaflet lacks samples.
    pub thickness: Option<int>,
}

impl View for CellValue {
    type V = FinalCell;

    open spec fn view(&self) -> FinalCell {
        FinalCell {
            cx: self.cx as int,
            cy: self.cy as int,
            thickness: match self.thickness {
                Some(t) => Some(t as int),
                None => None,
            },
        }
    }
}

/// Center of the cell with index `i` along one axis: `min + (i + 1/2) * bin`,
/// rounded down to a micro-unit.
pub open spec fn spec_center(min: int, bin: int, i: int) -> int {
    min + ((2 * i + 1) * bin) / 2
}

/// Thickness of one cell: defined exactly when both leaflets hold at
/// least `nan_limit` samples, and then the difference of the two
/// leaflets' average offsets (floor divisions).
pub open spec fn spec_cell_thickness(
    us: int,
    uc: nat,
    ls: int,
    lc: nat,
    nan_limit: nat,
) -> Option<int>
    recommends
        nan_limit >= 1,
{
    if uc < nan_limit || lc < nan_limit {
        None
    } else {
        Some(us / (uc as int) - ls / (lc as int))
    }
}

/// The finalized cell with row-major index `j` of an accumulated state.
pub open spec fn spec_final_cell(s: ThicknessState, nan_limit: nat, j: int) -> FinalCell {
    let col = j % (s.geom.nx as int);
    let row = j / (s.geom.nx as int);
    FinalCell {
        cx: spec_center(s.geom.xmin as int, s.geom.binx as int, col),
        cy: spec_center(s.geom.ymin as int, s.geom.biny as int, row),
        thickness: spec_cell_thickness(
            s.upper_sum[j],
            s.upper_count[j],
            s.lower_sum[j],
            s.lower_count[j],
            nan_limit,
        ),
    }
}

/// All finalized cells, in the canonical row-major order shared by the
/// four grids.
pub open spec fn spec_finalized(s: ThicknessState, nan_limit: nat) -> Seq<FinalCell> {
    Seq::new(s.geom.spec_n_cells() as nat, |j: int| spec_final_cell(s, nan_limit, j))
}

/// Sum of the defined thickness values of a cell sequence.
pub open spec fn sum_defined(cells: Seq<FinalCell>) -> int
    decreases cells.len(),
{
    if cells.len() == 0 {
        0
    } else {
        sum_defined(cells.drop_last()) + (match cells.last().thickness {
            Some(t) => t,
            None => 0,
        })
    }
}

/// Number of cells with a defined thickness.
pub open spec fn count_defined(cells: Seq<FinalCell>) -> nat
    decreases cells.len(),
{
    if cells.len() == 0 {
        0
    } else {
        count_defined(cells.drop_last()) + (if cells.last().thickness is Some {
            1nat
        } else {
            0nat
        })
    }
}

/// The global average: the floor mean of the defined thickness values,
/// or `None` when no cell is defined.
pub open spec fn spec_global_average(cells: Seq<FinalCell>) -> Option<int> {
    if count_defined(cells) == 0 {
        None
    } else {
        Some(sum_defined(cells) / (count_defined(cells) as int))
    }
}

/// The mathematical value of a machine optional thickness.
pub open spec fn opt_int(o: Option<i128>) -> Option<int> {
    match o {
        Some(t) => Some(t as int),
        None => None,
    }
}

/// Floor division of `a` by a positive `b` (the Euclidean quotient).
fn floor_div(a: i128, b: i128) -> (r: i128)
    requires
        b > 0,
        a > i128::MIN,
    ensures
        r == a as int / b as int,
{
    if a >= 0 {
        let q = (a as u128) / (b as u128);
        proof {
            assert(q as int == a as int / b as int);
        }
        q as i128
    } else {
        let na = (-a) as u128;
        let q = na / (b as u128);
        let rem = na % (b as u128);
        proof {
            let ai = a as int;
            let bi = b as int;
            let qi = q as int;
            let ri = rem as int;
            vstd::arithmetic::div_mod::lemma_fundamental_div_mod(na as int, bi);
            assert(na as int == bi * qi + ri);
            if ri == 0 {
                assert(ai == (-qi) * bi + 0) by {
                    vstd::arithmetic::mul::lemma_mul_unary_negation(qi, bi);
                    vstd::arithmetic::mul::lemma_mul_is_commutative(qi, bi);
                }
                vstd::arithmetic::div_mod::lemma_fundamental_div_mod_converse(ai, bi, -qi, 0);
            } else {
                assert(ai == (-qi - 1) * bi + (bi - ri)) by {
                    vstd::arithmetic::mul::lemma_mul_is_distributive_sub_other_way(bi, -qi, 1);
                    vstd::arithmetic::mul::lemma_mul_unary_negation(qi, bi);
                    vstd::arithmetic::mul::lemma_mul_is_commutative(qi, bi);
                    vstd::arithmetic::mul::lemma_mul_basics(bi);
                }
                vstd::arithmetic::div_mod::lemma_fundamental_div_mod_converse(
                    ai,
                    bi,
                    -qi - 1,
                    bi - ri,
                );
            }
        }
        if rem == 0 {
            -(q as i128)
        } else {
            -(q as i128) - 1
        }
    }
}

/// Thickness of one cell from its four accumulators, under the
/// significance policy: `None` unless both leaflets hold at least
/// `nan_limit` samples, else the difference of the leaflet averages.
pub fn cell_thickness(us: i128, uc: u64, ls: i128, lc: u64, nan_limit: u64) -> (r: Option<i128>)
    requires
        nan_limit >= 1,
        (uc as int) * (i64::MIN as int) <= us as int <= (uc as int) * (i64::MAX as int),
        (lc as int) * (i64::MIN as int) <= ls as int <= (lc as int) * (i64::MAX as int),
    ensures
        opt_int(r) == spec_cell_thickness(
            us as int,
            uc as nat,
            ls as int,
            lc as nat,
            nan_limit as nat,
        ),
        r matches Some(t) ==> -0x1_0000_0000_0000_0000 <= t <= 0x1_0000_0000_0000_0000,
{
    if uc < nan_limit || lc < nan_limit {
        return None;
    }
    proof {
        lemma_avg_in_offset_range(us as int, uc as nat);
        lemma_avg_in_offset_range(ls as int, lc as nat);
    }
    let ua = floor_div(us, uc as i128);
    let la = floor_div(ls, lc as i128);
    Some(ua - la)
}

/// The average of `c >= 1` offsets, each a machine offset, is itself in
/// the machine offset range.
proof fn lemma_avg_in_offset_range(s: int, c: nat)
    requires
        1 <= c <= u64::MAX,
        (c as int) * (i64::MIN as int) <= s <= (c as int) * (i64::MAX as int),
    ensures
        i64::MIN as int <= s / (c as int) <= i64::MAX as int,
        s > i128::MIN,
{
    let ci = c as int;
    assert((ci * (i64::MIN as int)) / ci == i64::MIN as int) by {
        vstd::arithmetic::div_mod::lemma_div_multiples_vanish(i64::MIN as int, ci);
    }
    assert((ci * (i64::MAX as int)) / ci == i64::MAX as int) by {
        vstd::arithmetic::div_mod::lemma_div_multiples_vanish(i64::MAX as int, ci);
    }
    vstd::arithmetic::div_mod::lemma_div_is_ordered(ci * (i64::MIN as int), s, ci);
    vstd::arithmetic::div_mod::lemma_div_is_ordered(s, ci * (i64::MAX as int), ci);
}

/// Center of the cell with index `idx` along one axis.
fn center_coord(min: i64, bin: i64, idx: usize) -> (r: i128)
    requires
        bin > 0,
        idx <= MAX_CELLS,
    ensures
        r == spec_center(min as int, bin as int, idx as int),
        -1_000_000_000_000_000_000_000_000_000_000 < r < 1_000_000_000_000_000_000_000_000_000_000,
{
    proof {
        vstd::arithmetic::mul::lemma_mul_upper_bound(
            2 * (idx as int) + 1,
            2 * (MAX_CELLS as int) + 1,
            bin as int,
            i64::MAX as int,
        );
        vstd::arithmetic::mul::lemma_mul_nonnegative(2 * (idx as int) + 1, bin as int);
    }
    let num: u128 = ((2 * (idx as u128)) + 1) * (bin as u128);
    let half: u128 = num / 2;
    (min as i128) + (half as i128)
}

/// Reduce an accumulated map to its finalized cells, in row-major order.
pub fn finalize_cells(map: &ThicknessMap, nan_limit: u64) -> (r: Vec<CellValue>)
    requires
        map.wf(),
        nan_limit >= 1,
    ensures
        r@.len() == spec_finalized(map@, nan_limit as nat).len(),
        forall|j: int|
            0 <= j < r@.len() ==> #[trigger] r@[j]@ == spec_finalized(map@, nan_limit as nat)[j],
        forall|j: int|
            0 <= j < r@.len() ==> {
                &&& -1_000_000_000_000_000_000_000_000_000_000 < (#[trigger] r@[j]@).cx
                    < 1_000_000_000_000_000_000_000_000_000_000
                &&& -1_000_000_000_000_000_000_000_000_000_000 < r@[j]@.cy
                    < 1_000_000_000_000_000_000_000_000_000_000
                &&& (r@[j]@.thickness matches Some(t) ==> -0x1_0000_0000_0000_0000 <= t
                    <= 0x1_0000_0000_0000_0000)
            },
    {
    let n = map.geom.n_cells();
    let nx = map.geom.nx;
    let mut out: Vec<CellValue> = Vec::new();
    let mut j: usize = 0;
    while j < n
        invariant
            j <= n,
            map.wf(),
            nan_limit >= 1,
            n == map.geom.spec_n_cells(),
            nx == map.geom.nx,
            out@.len() == j,
            forall|i: int|
                0 <= i < j ==> #[trigger] out@[i]@ == spec_finalized(map@, nan_limit as nat)[i],
            forall|i: int|
                0 <= i < j ==> {
                    &&& -1_000_000_000_000_000_000_000_000_000_000 < (#[trigger] out@[i]@).cx
                        < 1_000_000_000_000_000_000_000_000_000_000
                    &&& -1_000_000_000_000_000_000_000_000_000_000 < out@[i]@.cy
                        < 1_000_000_000_000_000_000_000_000_000_000
                    &&& (out@[i]@.thickness matches Some(t) ==> -0x1_0000_0000_0000_0000 <= t
                        <= 0x1_0000_0000_0000_0000)
                },
        decreases n - j,
    {
        proof {
            if nx == 0 {
                assert(map.geom.spec_n_cells() == 0) by {
                    vstd::arithmetic::mul::lemma_mul_basics(map.geom.ny as int);
                }
            }
            vstd::arithmetic::div_mod::lemma_remainder_lower(j as int, nx as int);
            vstd::arithmetic::div_mod::lemma_mod_bound(j as int, nx as int);
            vstd::arithmetic::div_mod::lemma_div_pos_is_pos(j as int, nx as int);
            assert(j as int / (nx as int) <= j as int) by {
                vstd::arithmetic::div_mod::lemma_div_nonincreasing(j as int, nx as int);
            }
        }
        let col = j % nx;
        let row = j / nx;
        let cx = center_coord(map.geom.xmin, map.geom.binx, col);
        let cy = center_coord(map.geom.ymin, map.geom.biny, row);
        let t = cell_thickness(
            map.upper_sum.get(j),
            map.upper_count.get(j),
            map.lower_sum.get(j),
            map.lower_count.get(j),
            nan_limit,
        );
        out.push(CellValue { cx, cy, thickness: t });
        j = j + 1;
    }
    out
}

/// The floor mean of the defined thickness values of `cells`, or `None`
/// when no cell has a defined thickness. Undefined cells contribute to
/// neither the numerator nor the denominator.
pub fn global_average(cells: &Vec<CellValue>) -> (r: Option<i128>)
    requires
        cells@.len() <= MAX_CELLS,
        forall|j: int|
            0 <= j < cells@.len() ==> ((#[trigger] cells@[j]@.thickness) matches Some(t)
                ==> -0x1_0000_0000_0000_0000 <= t <= 0x1_0000_0000_0000_0000),
    ensures
        r is Some <==> spec_global_average(cells@.map_values(|c: CellValue| c@)) is Some,
        r matches Some(v) ==> spec_global_average(cells@.map_values(|c: CellValue| c@)) == Some(
            v as int,
        ) && -0x1_0000_0000_0000_0000 <= v <= 0x1_0000_0000_0000_0000,
{
    let ghost model = cells@.map_values(|c: CellValue| c@);
    let n = cells.len();
    let mut sum: i128 = 0;
    let mut cnt: u64 = 0;
    let mut j: usize = 0;
    proof {
        assert(model.subrange(0, 0) =~= Seq::<FinalCell>::empty());
    }
    while j < n
        invariant
            j <= n,
            n == cells@.len(),
            n <= MAX_CELLS,
            model == cells@.map_values(|c: CellValue| c@),
            forall|i: int|
                0 <= i < n ==> ((#[trigger] model[i].thickness) matches Some(t)
                    ==> -0x1_0000_0000_0000_0000 <= t <= 0x1_0000_0000_0000_0000),
            cnt <= j,
            sum as int == sum_defined(model.subrange(0, j as int)),
            cnt as int == count_defined(model.subrange(0, j as int)),
            -(cnt as int) * 0x1_0000_0000_0000_0000 <= sum as int <= (cnt as int)
                * 0x1_0000_0000_0000_0000,
        decreases n - j,
    {
        let c = cells[j];
        proof {
            let sub1 = model.subrange(0, j + 1);
            assert(sub1.drop_last() =~= model.subrange(0, j as int));
            assert(sub1.last() == model[j as int]);
        }
        match c.thickness {
            Some(t) => {
                proof {
                    assert(model[j as int].thickness == Some(t as int));
                }
                sum = sum + t;
                cnt = cnt + 1;
            },
            None => {
                proof {
                    assert(model[j as int].thickness is None);
                }
            },
        }
        j = j + 1;
    }
    proof {
        assert(model.subrange(0, n as int) =~= model);
    }
    if cnt == 0 {
        None
    } else {
        proof {
            lemma_avg_in_value_range(sum as int, cnt as nat);
        }
        Some(floor_div(sum, cnt as i128))
    }
}

/// The floor mean of `c >= 1` bounded values is itself bounded.
proof fn lemma_avg_in_value_range(s: int, c: nat)
    requires
        1 <= c <= MAX_CELLS,
        -(c as int) * 0x1_0000_0000_0000_0000 <= s <= (c as int) * 0x1_0000_0000_0000_0000,
    ensures
        -0x1_0000_0000_0000_0000 <= s / (c as int) <= 0x1_0000_0000_0000_0000,
        s > i128::MIN,
{
    let ci = c as int;
    let b: int = 0x1_0000_0000_0000_0000;
    assert((ci * (-b)) / ci == -b) by {
        vstd::arithmetic::div_mod::lemma_div_multiples_vanish(-b, ci);
    }
    assert((ci * b) / ci == b) by {
        vstd::arithmetic::div_mod::lemma_div_multiples_vanish(b, ci);
    }
    assert(-(ci) * b == ci * (-b)) by {
        vstd::arithmetic::mul::lemma_mul_unary_negation(ci, b);
    }
    vstd::arithmetic::div_mod::lemma_div_is_ordered(ci * (-b), s, ci);
    vstd::arithmetic::div_mod::lemma_div_is_ordered(s, ci * b, ci);
}

} // verus!
