//! Projection of geographic coordinates onto half-degree grid cells.
use vstd::prelude::*;

verus! {

/// Millionths of a degree in one grid step (half a degree).
pub const MICRODEGREES_PER_CELL: i32 = 500_000;

/// The cell index along one axis: the floor of a coordinate, given in
/// millionths of a degree, divided by half a degree.
pub open spec fn cell_index(microdegrees: int) -> int {
    microdegrees / (MICRODEGREES_PER_CELL as int)
}

/// Half degree resolution cells, named by the lower corner.
#[derive(Debug, Clone, Copy, PartialEq, Eq, Structural)]
pub struct LonLatCell {
    pub half_degrees_lon_start: i16,
    pub half_degrees_lat_start: i16,
}

impl LonLatCell {
    /// The cell holding the point (`lon`, `lat`), in millionths of a degree.
    pub open spec fn containing_spec(lon: int, lat: int) -> LonLatCell {
        LonLatCell {
            half_degrees_lon_start: cell_index(lon) as i16,
            half_degrees_lat_start: cell_index(lat) as i16,
        }
    }

    /// The cell holding the point (`lon`, `lat`), both in millionths of a degree.
    /// Negative coordinates round down, so -0.1 degrees lies in cell -1.
    pub fn containing(lon: i32, lat: i32) -> (r: LonLatCell)
        ensures
            r == Self::containing_spec(lon as int, lat as int),
            r.half_degrees_lon_start as int == cell_index(lon as int),
            r.half_degrees_lat_start as int == cell_index(lat as int),
    {
        LonLatCell {
            half_degrees_lon_start: axis_index(lon),
            half_degrees_lat_start: axis_index(lat),
        }
    }

    /// Lower bound of the cell along the longitude axis, in millionths of a degree.
    pub open spec fn lon_start(self) -> int {
        self.half_degrees_lon_start as int * MICRODEGREES_PER_CELL as int
    }

    /// Lower bound of the cell along the latitude axis, in millionths of a degree.
    pub open spec fn lat_start(self) -> int {
        self.half_degrees_lat_start as int * MICRODEGREES_PER_CELL as int
    }
}

proof fn lemma_cell_index_bounds(x: i32)
    ensures
        -4295 <= cell_index(x as int) <= 4294,
{
    assert(-4295 <= (x as int) / 500_000int <= 4294) by (nonlinear_arith)
        requires
            -2147483648 <= x as int <= 2147483647,
    ;
}

fn axis_index(x: i32) -> (r: i16)
    ensures
        r as int == cell_index(x as int),
{
    proof {
        lemma_cell_index_bounds(x);
    }
    let q = x.checked_div_euclid(MICRODEGREES_PER_CELL);
    match q {
        Some(q) => q as i16,
        None => 0,
    }
}

/// Every point of the half-open square that a cell covers projects back onto
/// that cell: projecting a point and then any other point of its cell gives the
/// same cell.
pub proof fn lemma_containing_idempotent(lon: int, lat: int, lon2: int, lat2: int)
    requires
        i32::MIN <= lon <= i32::MAX,
        i32::MIN <= lat <= i32::MAX,
        LonLatCell::containing_spec(lon, lat).lon_start() <= lon2,
        lon2 < LonLatCell::containing_spec(lon, lat).lon_start() + MICRODEGREES_PER_CELL as int,
        LonLatCell::containing_spec(lon, lat).lat_start() <= lat2,
        lat2 < LonLatCell::containing_spec(lon, lat).lat_start() + MICRODEGREES_PER_CELL as int,
    ensures
        LonLatCell::containing_spec(lon2, lat2) == LonLatCell::containing_spec(lon, lat),
{
    lemma_cell_index_bounds(lon as i32);
    lemma_cell_index_bounds(lat as i32);
    lemma_floor_in_cell(cell_index(lon), lon2);
    lemma_floor_in_cell(cell_index(lat), lat2);
}

proof fn lemma_floor_in_cell(c: int, x: int)
    requires
        c * 500_000 <= x < c * 500_000 + 500_000,
    ensures
        cell_index(x) == c,
{
    vstd::arithmetic::div_mod::lemma_fundamental_div_mod_converse(x, 500_000, c, x - c * 500_000);
}

} // verus!
