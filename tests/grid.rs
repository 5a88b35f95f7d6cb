use climate_grid::grid::{LonLatCell, MICRODEGREES_PER_CELL};

fn cell(lon: i16, lat: i16) -> LonLatCell {
    LonLatCell { half_degrees_lon_start: lon, half_degrees_lat_start: lat }
}

#[test]
fn containing_negative_coordinates_round_down() {
    assert_eq!(LonLatCell::containing(-100_000, -100_000), cell(-1, -1));
}

#[test]
fn containing_positive_coordinates() {
    // 13.4 degrees east, 52.5 degrees north
    assert_eq!(LonLatCell::containing(13_400_000, 52_500_000), cell(26, 105));
    assert_eq!(LonLatCell::containing(0, 0), cell(0, 0));
    assert_eq!(LonLatCell::containing(499_999, 499_999), cell(0, 0));
    assert_eq!(LonLatCell::containing(500_000, -500_000), cell(1, -1));
    assert_eq!(LonLatCell::containing(-500_001, -180_000_000), cell(-2, -360));
}

#[test]
fn containing_extreme_inputs_stay_in_range() {
    assert_eq!(LonLatCell::containing(i32::MIN, i32::MAX), cell(-4295, 4294));
}

#[test]
fn every_point_of_a_cell_projects_back_onto_it() {
    let start = LonLatCell::containing(-73_935_242, 40_730_610);
    assert_eq!(start, cell(-148, 81));
    let lon0 = start.half_degrees_lon_start as i32 * MICRODEGREES_PER_CELL;
    let lat0 = start.half_degrees_lat_start as i32 * MICRODEGREES_PER_CELL;
    for d in [0, 1, 250_000, 499_999] {
        for e in [0, 7, 499_999] {
            assert_eq!(LonLatCell::containing(lon0 + d, lat0 + e), start);
        }
    }
    assert_ne!(LonLatCell::containing(lon0 + 500_000, lat0), start);
    assert_ne!(LonLatCell::containing(lon0, lat0 - 1), start);
}
