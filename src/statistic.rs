//! The statistics a column footer can show, and how an integer code selects one.
use vstd::prelude::*;

verus! {

/// The summary statistic shown in a column footer.
#[derive(Clone, Copy, Debug, PartialEq, Eq, Structural)]
pub enum Statistic {
    Average,
    Max,
    Median,
    Min,
    Sum,
}

/// The statistic selected by an integer code; any unknown code selects `Average`.
pub open spec fn statistic_of_code(code: i64) -> Statistic {
    if code == 1 {
        Statistic::Max
    } else if code == 2 {
        Statistic::Median
    } else if code == 3 {
        Statistic::Min
    } else if code == 4 {
        Statistic::Sum
    } else {
        Statistic::Average
    }
}

impl Statistic {
    /// Decodes an integer code: 0 Average, 1 Max, 2 Median, 3 Min, 4 Sum,
    /// anything else Average.
    pub fn from_code(code: i64) -> (r: Statistic)
        ensures
            r == statistic_of_code(code),
    {
        if code == 1 {
            Statistic::Max
        } else if code == 2 {
            Statistic::Median
        } else if code == 3 {
            Statistic::Min
        } else if code == 4 {
            Statistic::Sum
        } else {
            Statistic::Average
        }
    }
}

} // verus!
