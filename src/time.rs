//! Discrete time samples of the dataset.
use vstd::prelude::*;

verus! {

/// A time sample: whole days since 1 January 1900.
#[derive(Debug, Clone, Copy, PartialEq, Eq, Structural)]
pub struct Time {
    pub days_since_jan_1_1900: u32,
}

impl Time {
    pub fn new(days_since_jan_1_1900: u32) -> (r: Time)
        ensures
            r.days_since_jan_1_1900 == days_since_jan_1_1900,
    {
        Time { days_since_jan_1_1900 }
    }
}

} // verus!
