//! The calculation service: from the numeric values read out of a column's cells
//! to the outcome for one statistic.
use vstd::prelude::*;

use crate::order::{greatest, greatest_value, least, least_value, sort_ascending, sorted};
use crate::order::{is_sorting_of, lemma_greatest_unique, lemma_least_unique};
use crate::order::lemma_sorting_unique;
use crate::statistic::{Statistic, statistic_of_code};

verus! {

/// The sample: the values of the cells that have a numeric reading, in cell
/// order. A cell is `None` when it is absent or has no numeric reading.
pub open spec fn sample_of(cells: Seq<Option<u64>>) -> Seq<u64> {
    cells.filter_map(|c: Option<u64>| c)
}

/// What a statistic comes to, before the floating-point work that yields the
/// number to display, which is then written with five digits after the point.
#[derive(Clone, Debug, PartialEq, Eq)]
pub enum Outcome {
    /// The sample was empty: this text is shown as it is.
    Text(String),
    /// The sum of these values, added in this order.
    Total(Vec<u64>),
    /// The sum of these values, added in this order, divided by their count.
    Mean(Vec<u64>),
    /// This value itself.
    Exact(u64),
    /// Half the sum of these two values.
    Midpoint(u64, u64),
}

/// The mathematical model of an [`Outcome`].
pub enum OutcomeModel {
    Text(Seq<char>),
    Total(Seq<u64>),
    Mean(Seq<u64>),
    Exact(u64),
    Midpoint(u64, u64),
}

impl View for Outcome {
    type V = OutcomeModel;

    open spec fn view(&self) -> OutcomeModel {
        match self {
            Outcome::Text(s) => OutcomeModel::Text(s@),
            Outcome::Total(v) => OutcomeModel::Total(v@),
            Outcome::Mean(v) => OutcomeModel::Mean(v@),
            Outcome::Exact(x) => OutcomeModel::Exact(*x),
            Outcome::Midpoint(a, b) => OutcomeModel::Midpoint(*a, *b),
        }
    }
}

/// The text shown for an empty sample: `"0"` for the average, nothing otherwise.
pub open spec fn fallback_text(statistic: Statistic) -> Seq<char> {
    if statistic == Statistic::Average {
        seq!['0']
    } else {
        seq![]
    }
}

/// The median of a non-empty ascending sequence: the middle element, or, for
/// an even count, the midpoint of the two elements round the middle.
pub open spec fn median_of(t: Seq<u64>) -> OutcomeModel {
    if t.len() % 2 == 0 {
        OutcomeModel::Midpoint(t[t.len() / 2 - 1], t[(t.len() / 2) as int])
    } else {
        OutcomeModel::Exact(t[(t.len() / 2) as int])
    }
}

/// What `statistic` comes to on `sample`.
pub open spec fn outcome_of(statistic: Statistic, sample: Seq<u64>) -> OutcomeModel {
    if sample.len() == 0 {
        OutcomeModel::Text(fallback_text(statistic))
    } else {
        match statistic {
            Statistic::Average => OutcomeModel::Mean(sample),
            Statistic::Sum => OutcomeModel::Total(sample),
            Statistic::Min => OutcomeModel::Exact(least(sample)),
            Statistic::Max => OutcomeModel::Exact(greatest(sample)),
            Statistic::Median => median_of(sorted(sample)),
        }
    }
}

/// Computes column statistics; it holds no state.
pub struct CalculationsService {}

impl CalculationsService {
    pub fn new() -> (r: Self) {
        CalculationsService {  }
    }

    /// The outcome of the statistic with code `calculation_type` (unknown codes
    /// select the average) over the numeric readings of a column's cells.
    pub fn calculate(&self, calculation_type: i64, values: Vec<Option<u64>>) -> (r: Outcome)
        ensures
            r@ == outcome_of(statistic_of_code(calculation_type), sample_of(values@)),
    {
        let statistic = Statistic::from_code(calculation_type);
        self.calculate_statistic(statistic, values)
    }

    /// The outcome of `statistic` over the numeric readings of a column's cells.
    pub fn calculate_statistic(&self, statistic: Statistic, values: Vec<Option<u64>>) -> (r:
        Outcome)
        ensures
            r@ == outcome_of(statistic, sample_of(values@)),
    {
        match statistic {
            Statistic::Average => self.calculate_average(values),
            Statistic::Max => self.calculate_max(values),
            Statistic::Median => self.calculate_median(values),
            Statistic::Min => self.calculate_min(values),
            Statistic::Sum => self.calculate_sum(values),
        }
    }

    fn empty_text(statistic: Statistic) -> (r: String)
        ensures
            r@ == fallback_text(statistic),
    {
        proof {
            reveal_strlit("0");
            reveal_strlit("");
        }
        if statistic == Statistic::Average {
            "0".to_owned()
        } else {
            "".to_owned()
        }
    }

    fn calculate_average(&self, values: Vec<Option<u64>>) -> (r: Outcome)
        ensures
            r@ == outcome_of(Statistic::Average, sample_of(values@)),
    {
        let sample = self.reduce_values(values);
        if sample.len() > 0 {
            Outcome::Mean(sample)
        } else {
            Outcome::Text(Self::empty_text(Statistic::Average))
        }
    }

    fn calculate_sum(&self, values: Vec<Option<u64>>) -> (r: Outcome)
        ensures
            r@ == outcome_of(Statistic::Sum, sample_of(values@)),
    {
        let sample = self.reduce_values(values);
        if sample.len() > 0 {
            Outcome::Total(sample)
        } else {
            Outcome::Text(Self::empty_text(Statistic::Sum))
        }
    }

    fn calculate_min(&self, values: Vec<Option<u64>>) -> (r: Outcome)
        ensures
            r@ == outcome_of(Statistic::Min, sample_of(values@)),
    {
        let sample = self.reduce_values(values);
        match least_value(&sample) {
            Some(x) => {
                proof {
                    lemma_least_unique(sample@, x, least(sample@));
                }
                Outcome::Exact(x)
            },
            None => Outcome::Text(Self::empty_text(Statistic::Min)),
        }
    }

    fn calculate_max(&self, values: Vec<Option<u64>>) -> (r: Outcome)
        ensures
            r@ == outcome_of(Statistic::Max, sample_of(values@)),
    {
        let sample = self.reduce_values(values);
        match greatest_value(&sample) {
            Some(x) => {
                proof {
                    lemma_greatest_unique(sample@, x, greatest(sample@));
                }
                Outcome::Exact(x)
            },
            None => Outcome::Text(Self::empty_text(Statistic::Max)),
        }
    }

    fn calculate_median(&self, values: Vec<Option<u64>>) -> (r: Outcome)
        ensures
            r@ == outcome_of(Statistic::Median, sample_of(values@)),
    {
        let sample = self.reduce_values(values);
        if sample.len() == 0 {
            return Outcome::Text(Self::empty_text(Statistic::Median));
        }
        let ordered = sort_ascending(&sample);
        proof {
            let t = sorted(sample@);
            assert(is_sorting_of(sample@, t));
            lemma_sorting_unique(ordered@, t);
            ordered@.to_multiset_ensures();
            sample@.to_multiset_ensures();
        }
        Self::median(&ordered)
    }

    /// The median of a non-empty ascending sequence.
    pub fn median(ordered: &Vec<u64>) -> (r: Outcome)
        requires
            ordered@.len() > 0,
        ensures
            r@ == median_of(ordered@),
    {
        let n = ordered.len();
        if n % 2 == 0 {
            Outcome::Midpoint(ordered[n / 2 - 1], ordered[n / 2])
        } else {
            Outcome::Exact(ordered[n / 2])
        }
    }

    /// The sample of the given cell readings: the present ones, in order.
    pub fn reduce_values(&self, values: Vec<Option<u64>>) -> (r: Vec<u64>)
        ensures
            r@ == sample_of(values@),
    {
        let mut sample: Vec<u64> = Vec::new();
        let mut i: usize = 0;
        while i < values.len()
            invariant
                i <= values@.len(),
                sample@ == sample_of(values@.subrange(0, i as int)),
            decreases values@.len() - i,
        {
            proof {
                let prefix = values@.subrange(0, i as int + 1);
                assert(prefix.drop_last() =~= values@.subrange(0, i as int));
                assert(prefix.last() == values@[i as int]);
            }
            if let Some(x) = values[i] {
                sample.push(x);
            }
            i = i + 1;
        }
        assert(values@.subrange(0, values@.len() as int) =~= values@);
        sample
    }
}

} // verus!
