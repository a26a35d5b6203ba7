//! Properties of the calculation that hold over all inputs.
use vstd::prelude::*;

use crate::order::{greatest, is_greatest, order_key, is_least, least, lemma_greatest_exists};
use crate::order::{lemma_greatest_unique, lemma_least_exists, lemma_least_unique};
use crate::order::{lemma_sorting_exists, lemma_sorting_unique, sorted};
use crate::service::{fallback_text, outcome_of, sample_of, OutcomeModel};
use crate::statistic::{Statistic, statistic_of_code};

verus! {

/// A column without cells shows `"0"` for the average and nothing for every
/// other statistic.
pub proof fn lemma_empty_column(statistic: Statistic)
    ensures
        outcome_of(statistic, sample_of(Seq::empty())) == OutcomeModel::Text(
            fallback_text(statistic),
        ),
        statistic == Statistic::Average ==> fallback_text(statistic) == seq!['0'],
        statistic != Statistic::Average ==> fallback_text(statistic) == Seq::<char>::empty(),
{
    assert(fallback_text(statistic) =~= if statistic == Statistic::Average {
        seq!['0']
    } else {
        Seq::<char>::empty()
    });
}

/// The cells that have a numeric reading, in order.
pub open spec fn numeric_cells(cells: Seq<Option<u64>>) -> Seq<Option<u64>> {
    cells.filter(|c: Option<u64>| c is Some)
}

/// Dropping the cells without a numeric reading leaves the sample as it was.
pub proof fn lemma_sample_of_numeric_cells(cells: Seq<Option<u64>>)
    ensures
        sample_of(numeric_cells(cells)) == sample_of(cells),
    decreases cells.len(),
{
    if cells.len() > 0 {
        let rest = cells.drop_last();
        lemma_sample_of_numeric_cells(rest);
        let kept = numeric_cells(rest);
        reveal_with_fuel(Seq::filter, 1);
        assert(numeric_cells(cells) == (if cells.last() is Some {
            kept.push(cells.last())
        } else {
            kept
        }));
        if cells.last() is Some {
            assert(kept.push(cells.last()).drop_last() =~= kept);
        }
    }
}

/// Cells that are absent or have no numeric reading do not count: every
/// statistic comes out as on the numeric cells alone.
pub proof fn lemma_unreadable_cells_ignored(statistic: Statistic, cells: Seq<Option<u64>>)
    ensures
        outcome_of(statistic, sample_of(cells)) == outcome_of(
            statistic,
            sample_of(numeric_cells(cells)),
        ),
{
    lemma_sample_of_numeric_cells(cells);
}

/// How often `v` occurs in the sample is how often a cell reads `v`.
pub proof fn lemma_sample_count(cells: Seq<Option<u64>>, v: u64)
    ensures
        sample_of(cells).to_multiset().count(v) == cells.to_multiset().count(Some(v)),
    decreases cells.len(),
{
    broadcast use vstd::multiset::group_multiset_axioms;

    if cells.len() > 0 {
        let rest = cells.drop_last();
        lemma_sample_count(rest, v);
        assert(rest.push(cells.last()) =~= cells);
        rest.to_multiset_ensures();
        assert(cells.to_multiset() == rest.to_multiset().insert(cells.last()));
        let s = sample_of(rest);
        s.to_multiset_ensures();
        if let Some(x) = cells.last() {
            assert(sample_of(cells) =~= s.push(x));
            assert(sample_of(cells).to_multiset() == s.to_multiset().insert(x));
        } else {
            assert(sample_of(cells) == s);
        }
    } else {
        cells.to_multiset_ensures();
        sample_of(cells).to_multiset_ensures();
        assert(cells.to_multiset().len() == 0);
        assert(sample_of(cells).to_multiset().len() == 0);
    }
}

/// Reordering the cells reorders the sample and changes none of its values:
/// the sum and the average add up the same values.
pub proof fn lemma_reorder_keeps_sample(a: Seq<Option<u64>>, b: Seq<Option<u64>>)
    requires
        a.to_multiset() == b.to_multiset(),
    ensures
        sample_of(a).to_multiset() == sample_of(b).to_multiset(),
{
    assert forall|v: u64| sample_of(a).to_multiset().count(v) == sample_of(b).to_multiset().count(
        v,
    ) by {
        lemma_sample_count(a, v);
        lemma_sample_count(b, v);
    }
    assert(sample_of(a).to_multiset() =~= sample_of(b).to_multiset());
}

/// Two sequences with the same elements, each as often, have the same least
/// element, greatest element and sorted form.
proof fn lemma_same_elements_same_order(sa: Seq<u64>, sb: Seq<u64>)
    requires
        sa.to_multiset() == sb.to_multiset(),
        sa.len() > 0,
    ensures
        least(sa) == least(sb),
        greatest(sa) == greatest(sb),
        sorted(sa) == sorted(sb),
{
    sa.to_multiset_ensures();
    sb.to_multiset_ensures();
    lemma_least_exists(sa);
    lemma_least_exists(sb);
    lemma_greatest_exists(sa);
    lemma_greatest_exists(sb);
    let lo = least(sa);
    let hi = greatest(sa);
    assert(sa.to_multiset().count(lo) > 0);
    assert(sa.to_multiset().count(hi) > 0);
    assert forall|i: int| 0 <= i < sb.len() implies order_key(lo) <= #[trigger] order_key(sb[i])
        && order_key(sb[i]) <= order_key(hi) by {
        assert(sb.contains(sb[i]));
        assert(sb.to_multiset().count(sb[i]) > 0);
        assert(sa.contains(sb[i]));
        let j = choose|j: int| 0 <= j < sa.len() && sa[j] == sb[i];
        assert(order_key(lo) <= order_key(sa[j]));
        assert(order_key(sa[j]) <= order_key(hi));
    }
    assert(is_least(sb, lo));
    assert(is_greatest(sb, hi));
    lemma_least_unique(sb, lo, least(sb));
    lemma_greatest_unique(sb, hi, greatest(sb));
    lemma_sorting_exists(sa);
    lemma_sorting_exists(sb);
    lemma_sorting_unique(sorted(sa), sorted(sb));
}

/// Reordering the cells leaves the minimum, the maximum and the median as
/// they were.
pub proof fn lemma_reorder_keeps_order_statistics(
    statistic: Statistic,
    a: Seq<Option<u64>>,
    b: Seq<Option<u64>>,
)
    requires
        a.to_multiset() == b.to_multiset(),
        statistic == Statistic::Min || statistic == Statistic::Max || statistic
            == Statistic::Median,
    ensures
        outcome_of(statistic, sample_of(a)) == outcome_of(statistic, sample_of(b)),
{
    let sa = sample_of(a);
    let sb = sample_of(b);
    lemma_reorder_keeps_sample(a, b);
    sa.to_multiset_ensures();
    sb.to_multiset_ensures();
    if sa.len() > 0 {
        lemma_same_elements_same_order(sa, sb);
    }
}

/// The outcome is a function of the statistic code and the cells alone: two
/// calculations on the same inputs agree.
pub proof fn lemma_calculation_deterministic(
    code: i64,
    cells: Seq<Option<u64>>,
    again: Seq<Option<u64>>,
)
    requires
        cells == again,
    ensures
        outcome_of(statistic_of_code(code), sample_of(cells)) == outcome_of(
            statistic_of_code(code),
            sample_of(again),
        ),
{
}

} // verus!
