//! Ingestion of a gridded temperature source into observations, and the
//! per-cell time series drawn from them.
use vstd::prelude::*;

use crate::grid::LonLatCell;
use crate::temperature::{average_spec, AverageErr, Temperature};
use crate::time::Time;

verus! {

/// Declares `netcdf3::ReadError`, the error that netcdf3's `FileReader`
/// returns when a file or a variable cannot be read, so that such failures
/// pass through ingestion unchanged. Nothing is assumed about its values.
#[verifier::external_type_specification]
#[verifier::external_body]
pub struct ExReadError(netcdf3::ReadError);

/// One grid sample: its cell, its time, and its reading unless the source
/// marked it as missing.
pub type Observation = (LonLatCell, Time, Option<Temperature>);

/// What was read from a gridded source, with every value in the library's
/// units: coordinates in millionths of a degree, times in days since
/// 1 January 1900, temperatures in thousandths of a degree Celsius.
pub struct TemperatureSource {
    /// Dimension names of the `tmp` variable; `None` where the source has no
    /// such variable.
    pub tmp_dim_names: Option<Vec<String>>,
    /// The `missing_value` attribute of the `tmp` variable; `None` where the
    /// variable has no such attribute.
    pub missing_value: Option<Vec<i32>>,
    /// The flat `tmp` array, in the source's own order.
    pub tmp: Result<Vec<i32>, netcdf3::ReadError>,
    /// The `time` coordinate array.
    pub time: Result<Vec<u32>, netcdf3::ReadError>,
    /// The `lat` coordinate array.
    pub lat: Result<Vec<i32>, netcdf3::ReadError>,
    /// The `lon` coordinate array.
    pub lon: Result<Vec<i32>, netcdf3::ReadError>,
}

#[derive(Debug)]
pub enum TemperatureDatasetReadErr {
    /// The source could not be opened as a NetCDF file.
    CantReadFile(netcdf3::ReadError),
    /// The `tmp` variable is not laid out as `[time, lat, lon]`.
    UnexpectedDimensions(Vec<String>),
    /// The source has no `tmp` variable.
    TemperatureVariableMissing,
    /// A variable's values could not be read.
    CantReadVariable(&'static str, netcdf3::ReadError),
    /// The `tmp` variable carries no `missing_value` attribute.
    MissingMissingValueAttribute,
    /// The `tmp` array does not hold one sample per (time, lat, lon).
    GridShapeMismatch { samples: usize, times: usize, lats: usize, lons: usize },
}

/// The dimension order that ingestion relies on.
pub open spec fn is_expected_layout(dims: Seq<String>) -> bool {
    &&& dims.len() == 3
    &&& dims[0]@ == "time"@
    &&& dims[1]@ == "lat"@
    &&& dims[2]@ == "lon"@
}

/// The value that marks a missing sample: the first value of the attribute.
pub open spec fn sentinel_of(missing_value: Option<Vec<i32>>) -> Option<i32> {
    match missing_value {
        Some(v) => if v@.len() > 0 {
            Some(v@[0])
        } else {
            None
        },
        None => None,
    }
}

/// Position, in a flat array laid out as `[time, lat, lon]`, of the sample at
/// time index `t`, latitude index `a` and longitude index `o`.
pub open spec fn grid_index(t: int, a: int, o: int, n_lat: int, n_lon: int) -> int {
    (t * n_lat + a) * n_lon + o
}

/// The observation made of one sample and its coordinates: absent exactly
/// where the sample equals the sentinel.
pub open spec fn observation_of(time: u32, lat: i32, lon: i32, sample: i32, sentinel: i32) -> Observation {
    (
        LonLatCell::containing_spec(lon as int, lat as int),
        Time { days_since_jan_1_1900: time },
        if sample == sentinel {
            None
        } else {
            Some(Temperature { millicelsius: sample })
        },
    )
}

/// `obs` holds one observation per (time, lat, lon), in the source's order,
/// each paired with its coordinates and checked against the sentinel.
pub open spec fn is_grid_decoding(
    obs: Seq<Observation>,
    times: Seq<u32>,
    lats: Seq<i32>,
    lons: Seq<i32>,
    samples: Seq<i32>,
    sentinel: i32,
) -> bool {
    &&& obs.len() == times.len() * lats.len() * lons.len()
    &&& forall|t: int, a: int, o: int|
        0 <= t < times.len() && 0 <= a < lats.len() && 0 <= o < lons.len() ==> obs[#[trigger] grid_index(t, a, o, lats.len() as int, lons.len() as int)]
            == observation_of(times[t], lats[a], lons[o], samples[grid_index(t, a, o, lats.len() as int, lons.len() as int)], sentinel)
}

/// The (time, reading) pairs of the observations in `cell`, in storage order.
pub open spec fn series_spec(obs: Seq<Observation>, cell: LonLatCell) -> Seq<(Time, Option<Temperature>)>
    decreases obs.len(),
{
    if obs.len() == 0 {
        Seq::empty()
    } else {
        let prev = series_spec(obs.drop_last(), cell);
        if obs.last().0 == cell {
            prev.push((obs.last().1, obs.last().2))
        } else {
            prev
        }
    }
}

/// (t2, a2, o2) comes before (t, a, o) in time-major, then latitude, then
/// longitude order.
pub open spec fn precedes(t2: int, a2: int, o2: int, t: int, a: int, o: int) -> bool {
    t2 < t || (t2 == t && (a2 < a || (a2 == a && o2 < o)))
}

proof fn lemma_mixed_radix_lt(u2: int, d2: int, u: int, d: int, base: int)
    requires
        0 <= d2 < base,
        0 <= d,
        u2 < u,
    ensures
        u2 * base + d2 < u * base + d,
{
    assert(u2 * base + base <= u * base) by (nonlinear_arith)
        requires
            u2 + 1 <= u,
            base > 0,
    ;
}

proof fn lemma_grid_index_lt(t2: int, a2: int, o2: int, t: int, a: int, o: int, n_lat: int, n_lon: int)
    requires
        0 <= a2 < n_lat,
        0 <= a < n_lat,
        0 <= o2 < n_lon,
        0 <= o < n_lon,
        precedes(t2, a2, o2, t, a, o),
    ensures
        grid_index(t2, a2, o2, n_lat, n_lon) < grid_index(t, a, o, n_lat, n_lon),
{
    if t2 < t {
        lemma_mixed_radix_lt(t2, a2, t, a, n_lat);
        lemma_mixed_radix_lt(t2 * n_lat + a2, o2, t * n_lat + a, o, n_lon);
    } else if a2 < a {
        lemma_mixed_radix_lt(t * n_lat + a2, o2, t * n_lat + a, o, n_lon);
    }
}

/// Pairs the flat sample array, in its own order, with the coordinates of the
/// `[time, lat, lon]` grid (time outermost, longitude innermost), and marks
/// every sample equal to `sentinel` as missing.
pub fn decode_grid(
    times: &Vec<u32>,
    lats: &Vec<i32>,
    lons: &Vec<i32>,
    samples: &Vec<i32>,
    sentinel: i32,
) -> (r: Vec<Observation>)
    requires
        samples@.len() == times@.len() * lats@.len() * lons@.len(),
    ensures
        is_grid_decoding(r@, times@, lats@, lons@, samples@, sentinel),
{
    let n_t = times.len();
    let n_a = lats.len();
    let n_o = lons.len();
    let mut obs: Vec<Observation> = Vec::new();
    if n_a == 0 || n_o == 0 {
        proof {
            assert(n_t * n_a * n_o == 0) by (nonlinear_arith)
                requires
                    n_a == 0 || n_o == 0,
            ;
        }
        return obs;
    }
    let mut t: usize = 0;
    let mut a: usize = 0;
    let mut o: usize = 0;
    proof {
        assert(grid_index(0, 0, 0, n_a as int, n_o as int) == 0) by (nonlinear_arith);
    }
    while t < n_t
        invariant
            n_t == times@.len(),
            n_a == lats@.len(),
            n_o == lons@.len(),
            samples@.len() == n_t * n_a * n_o,
            0 < n_a,
            0 < n_o,
            t <= n_t,
            a < n_a,
            o < n_o,
            t == n_t ==> a == 0 && o == 0,
            obs@.len() == grid_index(t as int, a as int, o as int, n_a as int, n_o as int),
            forall|t2: int, a2: int, o2: int|
                0 <= t2 < n_t && 0 <= a2 < n_a && 0 <= o2 < n_o && precedes(t2, a2, o2, t as int, a as int, o as int)
                    ==> obs@[#[trigger] grid_index(t2, a2, o2, n_a as int, n_o as int)] == observation_of(
                    times@[t2],
                    lats@[a2],
                    lons@[o2],
                    samples@[grid_index(t2, a2, o2, n_a as int, n_o as int)],
                    sentinel,
                ),
        decreases n_t - t, n_a - a, n_o - o,
    {
        proof {
            lemma_grid_index_lt(t as int, a as int, o as int, n_t as int, 0, 0, n_a as int, n_o as int);
            assert(grid_index(n_t as int, 0, 0, n_a as int, n_o as int) == n_t * n_a * n_o) by (nonlinear_arith);
        }
        let ghost old_obs = obs@;
        let sample = samples[obs.len()];
        let cell = LonLatCell::containing(lons[o], lats[a]);
        let time = Time::new(times[t]);
        if sample == sentinel {
            obs.push((cell, time, None));
        } else {
            obs.push((cell, time, Some(Temperature::new(sample))));
        }
        let ghost (pt, pa, po) = (t as int, a as int, o as int);
        if o + 1 < n_o {
            o = o + 1;
        } else if a + 1 < n_a {
            o = 0;
            a = a + 1;
        } else {
            o = 0;
            a = 0;
            t = t + 1;
        }
        proof {
            assert(obs@.len() == grid_index(t as int, a as int, o as int, n_a as int, n_o as int)) by (nonlinear_arith)
                requires
                    obs@.len() == grid_index(pt, pa, po, n_a as int, n_o as int) + 1,
                    (o == po + 1 && a == pa && t == pt) || (o == 0 && po == n_o - 1 && a == pa + 1 && t == pt)
                        || (o == 0 && po == n_o - 1 && a == 0 && pa == n_a - 1 && t == pt + 1),
            ;
            assert forall|t2: int, a2: int, o2: int|
                0 <= t2 < n_t && 0 <= a2 < n_a && 0 <= o2 < n_o && precedes(t2, a2, o2, t as int, a as int, o as int)
                    implies obs@[#[trigger] grid_index(t2, a2, o2, n_a as int, n_o as int)] == observation_of(
                    times@[t2],
                    lats@[a2],
                    lons@[o2],
                    samples@[grid_index(t2, a2, o2, n_a as int, n_o as int)],
                    sentinel,
                ) by {
                if precedes(t2, a2, o2, pt, pa, po) {
                    lemma_grid_index_lt(t2, a2, o2, pt, pa, po, n_a as int, n_o as int);
                    assert(obs@[grid_index(t2, a2, o2, n_a as int, n_o as int)] == old_obs[grid_index(t2, a2, o2, n_a as int, n_o as int)]);
                } else {
                    assert(t2 == pt && a2 == pa && o2 == po);
                }
            }
        }
    }
    proof {
        assert(grid_index(n_t as int, 0, 0, n_a as int, n_o as int) == n_t * n_a * n_o) by (nonlinear_arith);
    }
    obs
}

/// The `tmp` variable exists and is laid out as `[time, lat, lon]`.
pub open spec fn layout_ok(source: TemperatureSource) -> bool {
    source.tmp_dim_names is Some && is_expected_layout(source.tmp_dim_names->Some_0@)
}

/// All four arrays were read.
pub open spec fn reads_ok(source: TemperatureSource) -> bool {
    source.tmp is Ok && source.time is Ok && source.lat is Ok && source.lon is Ok
}

/// The `tmp` array holds exactly one sample per (time, lat, lon).
pub open spec fn shape_ok(source: TemperatureSource) -> bool {
    source.tmp->Ok_0@.len() == source.time->Ok_0@.len() * source.lat->Ok_0@.len() * source.lon->Ok_0@.len()
}

fn has_expected_layout(dims: &Vec<String>) -> (r: bool)
    ensures
        r == is_expected_layout(dims@),
{
    dims.len() == 3 && dims[0] == "time".to_owned() && dims[1] == "lat".to_owned() && dims[2] == "lon".to_owned()
}

#[derive(Debug)]
pub struct TemperatureDataset {
    observations: Vec<Observation>,
}

impl View for TemperatureDataset {
    type V = Seq<Observation>;

    closed spec fn view(&self) -> Seq<Observation> {
        self.observations@
    }
}

impl TemperatureDataset {
    /// Checks what was read from a source and pairs every sample with its
    /// grid coordinates. The checks run in this order, and the first that
    /// fails decides the error: the `tmp` variable exists; its dimensions are
    /// `[time, lat, lon]`; it has a `missing_value` attribute with a value;
    /// `tmp`, `time`, `lat` and `lon` were read; `tmp` holds one sample per
    /// grid point. No dataset is built unless all of them pass.
    pub fn new(source: TemperatureSource) -> (r: Result<TemperatureDataset, TemperatureDatasetReadErr>)
        ensures
            source.tmp_dim_names is None ==> r matches Err(TemperatureDatasetReadErr::TemperatureVariableMissing),
            source.tmp_dim_names is Some && !layout_ok(source) ==> (r matches Err(
                TemperatureDatasetReadErr::UnexpectedDimensions(d),
            ) && d@ == source.tmp_dim_names->Some_0@),
            layout_ok(source) && sentinel_of(source.missing_value) is None ==> r matches Err(
                TemperatureDatasetReadErr::MissingMissingValueAttribute,
            ),
            layout_ok(source) && sentinel_of(source.missing_value) is Some && source.tmp is Err ==> (r matches Err(
                TemperatureDatasetReadErr::CantReadVariable(name, e),
            ) && name@ == "tmp"@ && e == source.tmp->Err_0),
            layout_ok(source) && sentinel_of(source.missing_value) is Some && source.tmp is Ok && source.time is Err
                ==> (r matches Err(TemperatureDatasetReadErr::CantReadVariable(name, e)) && name@ == "time"@ && e
                == source.time->Err_0),
            layout_ok(source) && sentinel_of(source.missing_value) is Some && source.tmp is Ok && source.time is Ok
                && source.lat is Err ==> (r matches Err(TemperatureDatasetReadErr::CantReadVariable(name, e)) && name@
                == "lat"@ && e == source.lat->Err_0),
            layout_ok(source) && sentinel_of(source.missing_value) is Some && source.tmp is Ok && source.time is Ok
                && source.lat is Ok && source.lon is Err ==> (r matches Err(
                TemperatureDatasetReadErr::CantReadVariable(name, e),
            ) && name@ == "lon"@ && e == source.lon->Err_0),
            layout_ok(source) && sentinel_of(source.missing_value) is Some && reads_ok(source) && !shape_ok(source) ==> (r
                matches Err(TemperatureDatasetReadErr::GridShapeMismatch { samples, times, lats, lons }) && samples
                == source.tmp->Ok_0@.len() && times == source.time->Ok_0@.len() && lats == source.lat->Ok_0@.len() && lons
                == source.lon->Ok_0@.len()),
            r is Ok <==> layout_ok(source) && sentinel_of(source.missing_value) is Some && reads_ok(source) && shape_ok(
                source,
            ),
            r matches Ok(ds) ==> is_grid_decoding(
                ds@,
                source.time->Ok_0@,
                source.lat->Ok_0@,
                source.lon->Ok_0@,
                source.tmp->Ok_0@,
                sentinel_of(source.missing_value)->Some_0,
            ),
    {
        let TemperatureSource { tmp_dim_names, missing_value, tmp, time, lat, lon } = source;
        let dims = match tmp_dim_names {
            Some(dims) => dims,
            None => {
                return Err(TemperatureDatasetReadErr::TemperatureVariableMissing);
            },
        };
        if !has_expected_layout(&dims) {
            return Err(TemperatureDatasetReadErr::UnexpectedDimensions(dims));
        }
        let sentinel = match missing_value {
            Some(values) => {
                if values.len() == 0 {
                    return Err(TemperatureDatasetReadErr::MissingMissingValueAttribute);
                }
                values[0]
            },
            None => {
                return Err(TemperatureDatasetReadErr::MissingMissingValueAttribute);
            },
        };
        let samples = match tmp {
            Ok(v) => v,
            Err(e) => {
                return Err(TemperatureDatasetReadErr::CantReadVariable("tmp", e));
            },
        };
        let times = match time {
            Ok(v) => v,
            Err(e) => {
                return Err(TemperatureDatasetReadErr::CantReadVariable("time", e));
            },
        };
        let lats = match lat {
            Ok(v) => v,
            Err(e) => {
                return Err(TemperatureDatasetReadErr::CantReadVariable("lat", e));
            },
        };
        let lons = match lon {
            Ok(v) => v,
            Err(e) => {
                return Err(TemperatureDatasetReadErr::CantReadVariable("lon", e));
            },
        };
        let points: Option<usize> = if times.len() == 0 || lats.len() == 0 || lons.len() == 0 {
            Some(0)
        } else {
            match times.len().checked_mul(lats.len()) {
                Some(n) => n.checked_mul(lons.len()),
                None => None,
            }
        };
        proof {
            let (nt, na, no) = (times@.len() as int, lats@.len() as int, lons@.len() as int);
            if nt == 0 || na == 0 || no == 0 {
                assert(nt * na * no == 0) by (nonlinear_arith)
                    requires
                        nt == 0 || na == 0 || no == 0,
                ;
            } else {
                assert(nt * na <= nt * na * no) by (nonlinear_arith)
                    requires
                        nt > 0,
                        na > 0,
                        no > 0,
                ;
            }
        }
        let fits = match points {
            Some(n) => n == samples.len(),
            None => false,
        };
        if !fits {
            return Err(
                TemperatureDatasetReadErr::GridShapeMismatch {
                    samples: samples.len(),
                    times: times.len(),
                    lats: lats.len(),
                    lons: lons.len(),
                },
            );
        }
        Ok(TemperatureDataset { observations: decode_grid(&times, &lats, &lons, &samples, sentinel) })
    }

    /// The observations, in the source's order.
    pub fn observations(&self) -> (r: &Vec<Observation>)
        ensures
            r@ == self@,
    {
        &self.observations
    }

    /// The (time, reading) pairs of every observation in `geo`, in storage
    /// order, neither sorted nor deduplicated.
    pub fn temperature_series_at(&self, geo: LonLatCell) -> (r: Vec<(Time, Option<Temperature>)>)
        ensures
            r@ == series_spec(self@, geo),
    {
        let mut series: Vec<(Time, Option<Temperature>)> = Vec::new();
        let mut i: usize = 0;
        while i < self.observations.len()
            invariant
                i <= self.observations@.len(),
                series@ == series_spec(self.observations@.subrange(0, i as int), geo),
            decreases self.observations.len() - i,
        {
            let (cell, time, temp) = self.observations[i];
            proof {
                assert(self.observations@.subrange(0, i + 1).drop_last() =~= self.observations@.subrange(0, i as int));
            }
            if cell == geo {
                series.push((time, temp));
            }
            i = i + 1;
        }
        proof {
            assert(self.observations@.subrange(0, i as int) =~= self.observations@);
        }
        series
    }

    /// The strict average of the series of `geo`.
    pub fn average_temperature_at(&self, geo: LonLatCell) -> (r: Result<Temperature, AverageErr>)
        ensures
            r == average_spec(series_spec(self@, geo)),
    {
        Temperature::average(&self.temperature_series_at(geo))
    }
}

/// Some observation of `obs` lies in `cell` and carries `pair`.
pub open spec fn observed_in(obs: Seq<Observation>, cell: LonLatCell, pair: (Time, Option<Temperature>)) -> bool {
    exists|j: int| 0 <= j < obs.len() && (#[trigger] obs[j]).0 == cell && pair == (obs[j].1, obs[j].2)
}

/// Every pair in the series of a cell comes from an observation of that very
/// cell, for every cell.
pub proof fn lemma_series_only_from_cell(obs: Seq<Observation>, cell: LonLatCell)
    ensures
        forall|k: int| 0 <= k < series_spec(obs, cell).len() ==> observed_in(obs, cell, #[trigger] series_spec(obs, cell)[k]),
    decreases obs.len(),
{
    if obs.len() > 0 {
        let prev = obs.drop_last();
        lemma_series_only_from_cell(prev, cell);
        assert forall|k: int| 0 <= k < series_spec(obs, cell).len() implies observed_in(obs, cell, #[trigger] series_spec(obs, cell)[k]) by {
            if k < series_spec(prev, cell).len() {
                assert(observed_in(prev, cell, series_spec(prev, cell)[k]));
                let j = choose|j: int| 0 <= j < prev.len() && (#[trigger] prev[j]).0 == cell && series_spec(prev, cell)[k] == (prev[j].1, prev[j].2);
                assert(obs[j] == prev[j]);
            } else {
                assert(obs[obs.len() - 1] == obs.last());
            }
        }
    }
}

} // verus!
