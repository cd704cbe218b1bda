//! End-to-end tests of the thickness-map library. All coordinates and
//! values are fixed-point micro-units: 1_000_000 stands for 1.0.

use memthick::CellValue;
use memthick::GridError;
use memthick::GridGeometry;
use memthick::Leaflet;
use memthick::Observation;
use memthick::SetupError;
use memthick::ThicknessMap;
use memthick::cell_thickness;
use memthick::finalize_cells;
use memthick::global_average;
use memthick::leaflet_of;
use memthick::min_image_z;
use memthick::parse_map;
use memthick::prepare_map;
use memthick::render_map;

const U: i64 = 1_000_000;

fn grid_10_by_10() -> ThicknessMap {
    prepare_map(30, 0, 10 * U, 0, 10 * U, 5 * U, 5 * U).unwrap()
}

#[test]
fn cell_counts_are_ceilings() {
    // 10 / 3 rounds up to 4 cells per axis.
    let g = GridGeometry::new(0, 10 * U, 0, 10 * U, 3 * U, 3 * U).unwrap();
    assert_eq!(g.nx, 4);
    assert_eq!(g.ny, 4);
    assert_eq!(g.n_cells(), 16);

    // An exact fit: 10 / 5 = 2.
    let g = GridGeometry::new(0, 10 * U, 0, 10 * U, 5 * U, 5 * U).unwrap();
    assert_eq!(g.nx, 2);
    assert_eq!(g.ny, 2);
}

#[test]
fn every_in_range_point_has_one_cell() {
    let g = GridGeometry::new(0, 10 * U, 0, 10 * U, 5 * U, 5 * U).unwrap();
    assert_eq!(g.cell_index(0, 0), Some(0));
    assert_eq!(g.cell_index(4 * U, 4 * U), Some(0));
    assert_eq!(g.cell_index(5 * U, 0), Some(1));
    assert_eq!(g.cell_index(0, 5 * U), Some(2));
    assert_eq!(g.cell_index(9 * U, 9 * U), Some(3));
}

#[test]
fn max_boundary_is_excluded_min_is_cell_zero() {
    let g = GridGeometry::new(0, 10 * U, 0, 10 * U, 5 * U, 5 * U).unwrap();
    // Half-open on both axes: the max boundary is outside.
    assert_eq!(g.cell_index(10 * U, 5 * U), None);
    assert_eq!(g.cell_index(5 * U, 10 * U), None);
    // The min corner belongs to cell 0.
    assert_eq!(g.cell_index(0, 0), Some(0));
}

#[test]
fn inverted_range_is_rejected() {
    assert_eq!(
        GridGeometry::new(10 * U, 0, 0, 10 * U, U, U),
        Err(GridError::InvertedRange)
    );
    assert_eq!(
        GridGeometry::new(0, 10 * U, 10 * U, 0, U, U),
        Err(GridError::InvertedRange)
    );
}

#[test]
fn non_positive_cell_size_is_rejected() {
    assert_eq!(
        GridGeometry::new(0, 10 * U, 0, 10 * U, 0, U),
        Err(GridError::NonPositiveCellSize)
    );
    assert_eq!(
        GridGeometry::new(0, 10 * U, 0, 10 * U, U, -U),
        Err(GridError::NonPositiveCellSize)
    );
}

#[test]
fn oversized_grid_is_rejected() {
    assert_eq!(
        GridGeometry::new(0, i64::MAX, 0, i64::MAX, 1, 1),
        Err(GridError::TooManyCells)
    );
}

#[test]
fn zero_nan_limit_is_rejected() {
    match prepare_map(0, 0, 10 * U, 0, 10 * U, 5 * U, 5 * U) {
        Err(e) => assert_eq!(e, SetupError::ZeroNanLimit),
        Ok(_) => panic!("a zero sample threshold must be rejected"),
    }
}

#[test]
fn leaflet_by_sign_midplane_is_lower() {
    assert_eq!(leaflet_of(1), Leaflet::Upper);
    assert_eq!(leaflet_of(0), Leaflet::Lower);
    assert_eq!(leaflet_of(-1), Leaflet::Lower);
}

#[test]
fn min_image_wraps_into_half_box() {
    // 9 - 1 = 8 in a box of 10 wraps to -2.
    assert_eq!(min_image_z(9 * U, 1 * U, 10 * U), -2 * U);
    // 1 - 9 = -8 wraps to +2.
    assert_eq!(min_image_z(1 * U, 9 * U, 10 * U), 2 * U);
    // Small offsets are kept as they are.
    assert_eq!(min_image_z(6 * U, 5 * U, 10 * U), 1 * U);
    assert_eq!(min_image_z(0, 0, 10 * U), 0);
    // The tie at exactly half the box goes to the positive side.
    assert_eq!(min_image_z(5 * U, 0, 10 * U), 5 * U);
}

#[test]
fn accumulation_is_order_independent() {
    let obs = vec![
        Observation { x: 1 * U, y: 1 * U, z: 2 * U },
        Observation { x: 1 * U, y: 1 * U, z: -1 * U },
        Observation { x: 7 * U, y: 2 * U, z: 3 * U },
        Observation { x: 2 * U, y: 8 * U, z: -2 * U },
        Observation { x: 9 * U, y: 9 * U, z: 1 * U },
    ];
    let mut forward = grid_10_by_10();
    for o in obs.iter() {
        forward.accumulate(*o);
    }
    let mut backward = grid_10_by_10();
    for o in obs.iter().rev() {
        backward.accumulate(*o);
    }
    assert_eq!(forward.total, backward.total);
    for x in [1 * U, 7 * U, 2 * U, 9 * U] {
        for y in [1 * U, 2 * U, 8 * U, 9 * U] {
            assert_eq!(forward.upper_sum.value_at(x, y), backward.upper_sum.value_at(x, y));
            assert_eq!(forward.upper_count.value_at(x, y), backward.upper_count.value_at(x, y));
            assert_eq!(forward.lower_sum.value_at(x, y), backward.lower_sum.value_at(x, y));
            assert_eq!(forward.lower_count.value_at(x, y), backward.lower_count.value_at(x, y));
        }
    }
}

#[test]
fn below_threshold_cell_is_undefined() {
    // Large sums make no difference when a count is below the limit.
    assert_eq!(cell_thickness(1_000_000_000, 29, -1_000_000_000, 50, 30), None);
    assert_eq!(cell_thickness(1_000_000_000, 50, -1_000_000_000, 29, 30), None);
    assert_eq!(
        cell_thickness(60 * U as i128, 30, -30 * U as i128, 30, 30),
        Some(3 * U as i128)
    );
}

#[test]
fn global_average_is_mean_of_defined_only() {
    let cells = vec![
        CellValue { cx: 0, cy: 0, thickness: Some(2 * U as i128) },
        CellValue { cx: 0, cy: 0, thickness: None },
        CellValue { cx: 0, cy: 0, thickness: Some(4 * U as i128) },
    ];
    assert_eq!(global_average(&cells), Some(3 * U as i128));
}

#[test]
fn global_average_of_no_defined_cells_is_undefined() {
    let empty: Vec<CellValue> = Vec::new();
    assert_eq!(global_average(&empty), None);
    let undefined = vec![
        CellValue { cx: 0, cy: 0, thickness: None },
        CellValue { cx: 0, cy: 0, thickness: None },
    ];
    assert_eq!(global_average(&undefined), None);
}

#[test]
fn scenario_two_by_two_grid() {
    // 2 x 2 grid over [0,10) x [0,10): 30 upper samples of 2.0 and 30
    // lower samples of -1.0, all at (1,1), threshold 30.
    let mut map = grid_10_by_10();
    for _ in 0..30 {
        map.accumulate(Observation { x: 1 * U, y: 1 * U, z: 2 * U });
        map.accumulate(Observation { x: 1 * U, y: 1 * U, z: -1 * U });
    }
    let cells = finalize_cells(&map, 30);
    assert_eq!(cells.len(), 4);
    let c = |v: i64| v as i128;
    assert_eq!(cells[0].cx, c(2_500_000));
    assert_eq!(cells[0].cy, c(2_500_000));
    assert_eq!(cells[1].cx, c(7_500_000));
    assert_eq!(cells[1].cy, c(2_500_000));
    assert_eq!(cells[2].cx, c(2_500_000));
    assert_eq!(cells[2].cy, c(7_500_000));
    assert_eq!(cells[3].cx, c(7_500_000));
    assert_eq!(cells[3].cy, c(7_500_000));
    // Thickness 3.0 in the populated cell, undefined in the rest.
    assert_eq!(cells[0].thickness, Some(3 * U as i128));
    assert_eq!(cells[1].thickness, None);
    assert_eq!(cells[2].thickness, None);
    assert_eq!(cells[3].thickness, None);
    assert_eq!(global_average(&cells), Some(3 * U as i128));
}

#[test]
fn out_of_range_marker_is_dropped() {
    let mut map = grid_10_by_10();
    map.accumulate(Observation { x: 5 * U, y: 5 * U, z: 1 * U });
    let before: Vec<_> = (0..4).map(|i| {
        (
            map.upper_sum.get(i),
            map.upper_count.get(i),
            map.lower_sum.get(i),
            map.lower_count.get(i),
        )
    }).collect();
    let total_before = map.total;
    // x = -1 lies left of xmin = 0: silently dropped.
    map.accumulate(Observation { x: -1 * U, y: 5 * U, z: 1 * U });
    let after: Vec<_> = (0..4).map(|i| {
        (
            map.upper_sum.get(i),
            map.upper_count.get(i),
            map.lower_sum.get(i),
            map.lower_count.get(i),
        )
    }).collect();
    assert_eq!(before, after);
    assert_eq!(map.total, total_before);
}

#[test]
fn marker_on_max_boundary_is_dropped() {
    let mut map = grid_10_by_10();
    map.accumulate(Observation { x: 10 * U, y: 5 * U, z: 1 * U });
    assert_eq!(map.total, 0);
    map.accumulate(Observation { x: 0, y: 0, z: 1 * U });
    assert_eq!(map.total, 1);
    assert_eq!(map.upper_count.get(0), 1);
}

#[test]
fn frame_accumulation_classifies_markers() {
    let mut map = grid_10_by_10();
    let markers = vec![
        memthick::MarkerPos { x: 1 * U, y: 1 * U, z: 7 * U },
        memthick::MarkerPos { x: 1 * U, y: 1 * U, z: 3 * U },
    ];
    // Center at z = 5 in a box of height 10: offsets +2 and -2.
    map.accumulate_frame(&markers, 5 * U, 10 * U);
    assert_eq!(map.upper_sum.value_at(1 * U, 1 * U), Some(2 * U as i128));
    assert_eq!(map.upper_count.value_at(1 * U, 1 * U), Some(1));
    assert_eq!(map.lower_sum.value_at(1 * U, 1 * U), Some(-2 * U as i128));
    assert_eq!(map.lower_count.value_at(1 * U, 1 * U), Some(1));
}

#[test]
fn rendered_map_has_exact_text() {
    let cells = vec![
        CellValue { cx: 2_500_000, cy: 2_500_000, thickness: Some(3 * U as i128) },
        CellValue { cx: 7_500_000, cy: 2_500_000, thickness: None },
        CellValue { cx: -1_500_000, cy: 0, thickness: Some(-1_500_000) },
    ];
    let headers = vec![b"# thickness map".to_vec(), b"@ xlabel x".to_vec()];
    let out = render_map(&headers, &cells, Some(750_000));
    // Twelve-character right-aligned fields: centers at six decimals,
    // thickness at four, `NaN` for an undefined cell, and a labelled
    // trailing average.
    let expect = "# thickness map\n@ xlabel x\n\
                  \u{20}   2.500000     2.500000       3.0000\n\
                  \u{20}   7.500000     2.500000          NaN\n\
                  \u{20}  -1.500000     0.000000      -1.5000\n\
                  # Average membrane thickness:       0.7500 nm\n";
    assert_eq!(String::from_utf8(out).unwrap(), expect);
}

#[test]
fn thickness_is_rounded_to_four_decimals() {
    let cells = vec![CellValue { cx: 0, cy: 0, thickness: Some(1_234_567) }];
    let headers: Vec<Vec<u8>> = Vec::new();
    let out = render_map(&headers, &cells, None);
    let text = String::from_utf8(out).unwrap();
    // 1.234567 rounds to 1.2346 at four decimals, half away from zero.
    assert!(text.contains("      1.2346\n"));
    let parsed = parse_map(&text.into_bytes()).unwrap();
    assert_eq!(parsed[0].thickness, Some(1_234_600));
}

#[test]
fn parse_accepts_padded_fields() {
    let text = b"      1.5000     2.500000      -0.7500\n".to_vec();
    let parsed = parse_map(&text).unwrap();
    assert_eq!(parsed.len(), 1);
    assert_eq!(parsed[0].cx, 1_500_000);
    assert_eq!(parsed[0].cy, 2_500_000);
    assert_eq!(parsed[0].thickness, Some(-750_000));
}

#[test]
fn round_trip_preserves_triples() {
    let mut map = grid_10_by_10();
    for _ in 0..30 {
        map.accumulate(Observation { x: 1 * U, y: 1 * U, z: 2 * U });
        map.accumulate(Observation { x: 1 * U, y: 1 * U, z: -1 * U });
        map.accumulate(Observation { x: 8 * U, y: 8 * U, z: -3 * U });
        map.accumulate(Observation { x: 8 * U, y: 8 * U, z: 4 * U });
    }
    let cells = finalize_cells(&map, 30);
    let avg = global_average(&cells);
    let headers = vec![b"# generated map".to_vec()];
    let avg128 = avg;
    let text = render_map(&headers, &cells, avg128);
    let parsed = parse_map(&text).unwrap();
    assert_eq!(parsed, cells);
}

#[test]
fn parse_rejects_malformed_lines() {
    assert_eq!(parse_map(&b"not a data line\n".to_vec()), None);
    assert_eq!(parse_map(&b"1.000000 2.000000\n".to_vec()), None);
    assert_eq!(parse_map(&b"1.000000 2.000000 3.\n".to_vec()), None);
    assert_eq!(parse_map(&b"1.0000000 2.000000 3.0\n".to_vec()), None);
    // Comments and blank lines alone parse to an empty map.
    assert_eq!(
        parse_map(&b"# nothing here\n\n@ directive\n".to_vec()),
        Some(Vec::new())
    );
}

#[test]
fn empty_range_grid_has_no_cells() {
    // A degenerate rectangle holds no half-open point, so no cells.
    let g = GridGeometry::new(0, 0, 0, 10 * U, U, U).unwrap();
    assert_eq!(g.nx, 0);
    assert_eq!(g.n_cells(), 0);
    assert_eq!(g.cell_index(0, 5 * U), None);
    let map = prepare_map(30, 0, 0, 0, 0, U, U).unwrap();
    let cells = memthick::finalize_cells(&map, 30);
    assert!(cells.is_empty());
    assert_eq!(memthick::global_average(&cells), None);
}
