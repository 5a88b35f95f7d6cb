//! Per-cell temporal averages over a gridded, time-indexed temperature dataset.
//!
//! Coordinates are held in millionths of a degree, times as whole days since
//! 1 January 1900, and temperatures in thousandths of a degree Celsius, so that
//! every step from ingestion to averaging is exact integer arithmetic.
use vstd::prelude::*;

pub mod dataset;
pub mod grid;
pub mod temperature;
pub mod time;
