//! Temperatures and the strict average of a time series of them.
use vstd::prelude::*;

use crate::time::Time;

verus! {

/// A temperature reading in thousandths of a degree Celsius.
#[derive(Debug, Clone, Copy, PartialEq, Eq, Structural)]
pub struct Temperature {
    pub millicelsius: i32,
}

/// Why a series has no average.
#[derive(Debug, Clone, Copy, PartialEq, Eq, Structural)]
pub enum AverageErr {
    /// The first sample, in series order, that holds no reading.
    MissingData(Time),
    /// The series holds no sample at all.
    EmptySeries,
}

/// Sum of the readings, in thousandths of a degree.
pub open spec fn total(temps: Seq<Temperature>) -> int
    decreases temps.len(),
{
    if temps.len() == 0 {
        0
    } else {
        total(temps.drop_last()) + temps.last().millicelsius as int
    }
}

/// The time of the first sample that holds no reading, if there is one.
pub open spec fn first_missing(series: Seq<(Time, Option<Temperature>)>) -> Option<Time>
    decreases series.len(),
{
    if series.len() == 0 {
        None
    } else {
        match first_missing(series.drop_last()) {
            Some(t) => Some(t),
            None => if series.last().1 is None {
                Some(series.last().0)
            } else {
                None
            },
        }
    }
}

/// Sum of the readings that the samples hold, in thousandths of a degree.
pub open spec fn series_total(series: Seq<(Time, Option<Temperature>)>) -> int
    decreases series.len(),
{
    if series.len() == 0 {
        0
    } else {
        series_total(series.drop_last()) + match series.last().1 {
            Some(t) => t.millicelsius as int,
            None => 0,
        }
    }
}

/// The strict average of a series: the first missing sample if there is one,
/// else the mean of all readings rounded down to a thousandth of a degree.
pub open spec fn average_spec(series: Seq<(Time, Option<Temperature>)>) -> Result<Temperature, AverageErr> {
    match first_missing(series) {
        Some(t) => Err(AverageErr::MissingData(t)),
        None => if series.len() == 0 {
            Err(AverageErr::EmptySeries)
        } else {
            Ok(Temperature { millicelsius: (series_total(series) / series.len() as int) as i32 })
        },
    }
}

proof fn lemma_first_missing_kept(series: Seq<(Time, Option<Temperature>)>, i: int, j: int)
    requires
        0 <= i <= j <= series.len(),
        first_missing(series.subrange(0, i)) is Some,
    ensures
        first_missing(series.subrange(0, j)) == first_missing(series.subrange(0, i)),
    decreases j - i,
{
    if j > i {
        lemma_first_missing_kept(series, i, j - 1);
        assert(series.subrange(0, j).drop_last() =~= series.subrange(0, j - 1));
    }
}

proof fn lemma_total_bounds(temps: Seq<Temperature>)
    ensures
        temps.len() * (i32::MIN as int) <= total(temps) <= temps.len() * (i32::MAX as int),
    decreases temps.len(),
{
    if temps.len() > 0 {
        lemma_total_bounds(temps.drop_last());
        assert(temps.len() * (i32::MIN as int) == (temps.len() - 1) * (i32::MIN as int) + i32::MIN as int) by (nonlinear_arith);
        assert(temps.len() * (i32::MAX as int) == (temps.len() - 1) * (i32::MAX as int) + i32::MAX as int) by (nonlinear_arith);
    }
}

proof fn lemma_mean_in_range(sum: int, n: int)
    requires
        n > 0,
        n * (i32::MIN as int) <= sum <= n * (i32::MAX as int),
    ensures
        i32::MIN <= sum / n <= i32::MAX,
{
    vstd::arithmetic::div_mod::lemma_div_is_ordered(n * (i32::MIN as int), sum, n);
    vstd::arithmetic::div_mod::lemma_div_is_ordered(sum, n * (i32::MAX as int), n);
    vstd::arithmetic::div_mod::lemma_div_multiples_vanish(i32::MIN as int, n);
    vstd::arithmetic::div_mod::lemma_div_multiples_vanish(i32::MAX as int, n);
}

proof fn lemma_all_present(series: Seq<(Time, Option<Temperature>)>)
    requires
        forall|j: int| 0 <= j < series.len() ==> (#[trigger] series[j]).1 is Some,
    ensures
        first_missing(series) is None,
    decreases series.len(),
{
    if series.len() > 0 {
        lemma_all_present(series.drop_last());
    }
}

/// A series with a single sample lacking a reading, at whatever position and
/// among however many present samples, averages to a missing-data failure
/// naming that sample's time.
pub proof fn lemma_single_absent_sample(series: Seq<(Time, Option<Temperature>)>, k: int)
    requires
        0 <= k < series.len(),
        series[k].1 is None,
        forall|j: int| 0 <= j < series.len() && j != k ==> (#[trigger] series[j]).1 is Some,
    ensures
        average_spec(series) == Err::<Temperature, AverageErr>(AverageErr::MissingData(series[k].0)),
{
    let before = series.subrange(0, k);
    assert forall|j: int| 0 <= j < before.len() implies (#[trigger] before[j]).1 is Some by {
        assert(before[j] == series[j]);
    }
    lemma_all_present(before);
    assert(series.subrange(0, k + 1).drop_last() =~= before);
    lemma_first_missing_kept(series, k + 1, series.len() as int);
    assert(series.subrange(0, series.len() as int) =~= series);
}

impl Temperature {
    pub fn new(millicelsius: i32) -> (r: Temperature)
        ensures
            r.millicelsius == millicelsius,
    {
        Temperature { millicelsius }
    }

    /// Sum of the readings, in thousandths of a degree; it cannot overflow.
    pub fn sum(temps: &Vec<Temperature>) -> (r: i128)
        ensures
            r == total(temps@),
    {
        let mut acc: i128 = 0;
        let mut i: usize = 0;
        while i < temps.len()
            invariant
                i <= temps.len(),
                acc == total(temps@.subrange(0, i as int)),
            decreases temps.len() - i,
        {
            proof {
                lemma_total_bounds(temps@.subrange(0, i as int));
                assert(i * (i32::MAX as int) < 0x8000_0000_0000_0000_0000_0000_0000 - 0x8000_0000) by (nonlinear_arith)
                    requires
                        i < 0x1_0000_0000_0000_0000int,
                ;
                assert(i * (i32::MIN as int) > -0x8000_0000_0000_0000_0000_0000_0000 + 0x8000_0000) by (nonlinear_arith)
                    requires
                        i < 0x1_0000_0000_0000_0000int,
                ;
                assert(temps@.subrange(0, i + 1).drop_last() =~= temps@.subrange(0, i as int));
            }
            acc = acc + temps[i].millicelsius as i128;
            i = i + 1;
        }
        assert(temps@.subrange(0, i as int) =~= temps@);
        acc
    }

    /// The mean of `count` readings that add up to `sum`, rounded down.
    pub fn div(sum: i128, count: usize) -> (r: Temperature)
        requires
            count > 0,
            count * (i32::MIN as int) <= sum <= count * (i32::MAX as int),
        ensures
            r.millicelsius == sum as int / count as int,
    {
        proof {
            lemma_mean_in_range(sum as int, count as int);
        }
        let q = sum.checked_div_euclid(count as i128);
        match q {
            Some(q) => Temperature { millicelsius: q as i32 },
            None => Temperature { millicelsius: 0 },
        }
    }

    /// The strict average of a series: fails on the first sample without a
    /// reading, and on an empty series; else the mean of the readings, rounded
    /// down to a thousandth of a degree.
    pub fn average(series: &Vec<(Time, Option<Temperature>)>) -> (r: Result<Temperature, AverageErr>)
        ensures
            r == average_spec(series@),
    {
        let mut temperatures: Vec<Temperature> = Vec::new();
        let mut i: usize = 0;
        while i < series.len()
            invariant
                i <= series.len(),
                first_missing(series@.subrange(0, i as int)) is None,
                temperatures@.len() == i,
                total(temperatures@) == series_total(series@.subrange(0, i as int)),
            decreases series.len() - i,
        {
            let (time, temp) = series[i];
            proof {
                assert(series@.subrange(0, i + 1).drop_last() =~= series@.subrange(0, i as int));
            }
            match temp {
                None => {
                    proof {
                        lemma_first_missing_kept(series@, i + 1, series@.len() as int);
                        assert(series@.subrange(0, series@.len() as int) =~= series@);
                    }
                    return Err(AverageErr::MissingData(time));
                },
                Some(t) => {
                    proof {
                        assert(temperatures@.push(t).drop_last() =~= temperatures@);
                    }
                    temperatures.push(t);
                },
            }
            i = i + 1;
        }
        assert(series@.subrange(0, i as int) =~= series@);
        if temperatures.len() == 0 {
            return Err(AverageErr::EmptySeries);
        }
        let sum = Temperature::sum(&temperatures);
        proof {
            lemma_total_bounds(temperatures@);
        }
        Ok(Temperature::div(sum, temperatures.len()))
    }
}

} // verus!
