use calculations::order::{greatest_value, least_value, precedes, sort_ascending};
use calculations::service::{CalculationsService, Outcome};
use calculations::statistic::Statistic;

const AVERAGE: i64 = 0;
const MAX: i64 = 1;
const MEDIAN: i64 = 2;
const MIN: i64 = 3;
const SUM: i64 = 4;

fn cells(values: &[Option<f64>]) -> Vec<Option<u64>> {
    values.iter().map(|v| v.map(f64::to_bits)).collect()
}

fn numbers(values: &[f64]) -> Vec<Option<u64>> {
    values.iter().map(|v| Some(v.to_bits())).collect()
}

fn shown(outcome: &Outcome) -> String {
    match outcome {
        Outcome::Text(text) => text.clone(),
        Outcome::Total(values) => {
            let sum: f64 = values.iter().map(|b| f64::from_bits(*b)).sum();
            format!("{:.5}", sum)
        }
        Outcome::Mean(values) => {
            let sum: f64 = values.iter().map(|b| f64::from_bits(*b)).sum();
            format!("{:.5}", sum / values.len() as f64)
        }
        Outcome::Exact(b) => format!("{:.5}", f64::from_bits(*b)),
        Outcome::Midpoint(a, b) => format!("{:.5}", (f64::from_bits(*a) + f64::from_bits(*b)) / 2.0),
    }
}

fn run(code: i64, values: Vec<Option<u64>>) -> String {
    shown(&CalculationsService::new().calculate(code, values))
}

#[test]
fn empty_column_gives_fallback_text() {
    assert_eq!(run(AVERAGE, vec![]), "0");
    assert_eq!(run(SUM, vec![]), "");
    assert_eq!(run(MIN, vec![]), "");
    assert_eq!(run(MAX, vec![]), "");
    assert_eq!(run(MEDIAN, vec![]), "");
}

#[test]
fn column_without_numeric_cells_gives_fallback_text() {
    assert_eq!(run(AVERAGE, vec![None, None]), "0");
    assert_eq!(run(MEDIAN, vec![None]), "");
    assert_eq!(
        CalculationsService::new().calculate(SUM, vec![None]),
        Outcome::Text(String::new())
    );
}

#[test]
fn median_of_odd_and_even_samples() {
    assert_eq!(run(MEDIAN, numbers(&[1.0, 2.0, 3.0])), "2.00000");
    assert_eq!(run(MEDIAN, numbers(&[1.0, 2.0, 3.0, 4.0])), "2.50000");
}

#[test]
fn median_sorts_the_sample_first() {
    assert_eq!(run(MEDIAN, numbers(&[3.0, 1.0, 2.0])), "2.00000");
    assert_eq!(
        CalculationsService::new().calculate(MEDIAN, numbers(&[4.0, -1.0, 3.0, 2.0])),
        Outcome::Midpoint(2.0f64.to_bits(), 3.0f64.to_bits())
    );
}

#[test]
fn min_and_max_of_sample() {
    assert_eq!(run(MIN, numbers(&[3.0, 1.0, 2.0])), "1.00000");
    assert_eq!(run(MAX, numbers(&[3.0, 1.0, 2.0])), "3.00000");
}

#[test]
fn min_and_max_with_negative_values() {
    assert_eq!(run(MIN, numbers(&[-2.5, 3.0, -10.0])), "-10.00000");
    assert_eq!(run(MAX, numbers(&[-2.5, -3.0, -10.0])), "-2.50000");
}

#[test]
fn average_of_sample() {
    assert_eq!(run(AVERAGE, numbers(&[1.0, 2.0, 3.0])), "2.00000");
    assert_eq!(run(AVERAGE, numbers(&[1.0, 2.0])), "1.50000");
}

#[test]
fn sum_of_sample_in_cell_order() {
    assert_eq!(run(SUM, numbers(&[1.5, 2.25, -1.0])), "2.75000");
    assert_eq!(
        CalculationsService::new().calculate(SUM, numbers(&[2.0, 1.0])),
        Outcome::Total(vec![2.0f64.to_bits(), 1.0f64.to_bits()])
    );
}

#[test]
fn sum_unchanged_by_reordering() {
    let forward = run(SUM, numbers(&[0.1, 0.2, 0.3, 10.0]));
    let backward = run(SUM, numbers(&[10.0, 0.3, 0.2, 0.1]));
    assert_eq!(forward, backward);
    assert_eq!(forward, "10.60000");
}

#[test]
fn unreadable_cells_are_excluded() {
    let mixed = cells(&[None, Some(4.0), None, None, Some(6.0)]);
    let plain = numbers(&[4.0, 6.0]);
    for code in [AVERAGE, MAX, MEDIAN, MIN, SUM] {
        let service = CalculationsService::new();
        assert_eq!(service.calculate(code, mixed.clone()), service.calculate(code, plain.clone()));
    }
    assert_eq!(run(AVERAGE, mixed), "5.00000");
}

#[test]
fn calculating_twice_gives_the_same_text() {
    let values = numbers(&[7.0, -1.0, 2.5]);
    for code in [AVERAGE, MAX, MEDIAN, MIN, SUM] {
        assert_eq!(run(code, values.clone()), run(code, values.clone()));
    }
}

#[test]
fn statistic_codes() {
    assert_eq!(Statistic::from_code(0), Statistic::Average);
    assert_eq!(Statistic::from_code(1), Statistic::Max);
    assert_eq!(Statistic::from_code(2), Statistic::Median);
    assert_eq!(Statistic::from_code(3), Statistic::Min);
    assert_eq!(Statistic::from_code(4), Statistic::Sum);
    assert_eq!(Statistic::from_code(5), Statistic::Average);
    assert_eq!(Statistic::from_code(-1), Statistic::Average);
}

#[test]
fn unknown_code_calculates_the_average() {
    assert_eq!(run(99, numbers(&[1.0, 2.0, 6.0])), "3.00000");
    assert_eq!(run(-3, vec![]), "0");
}

#[test]
fn statistic_selected_directly() {
    let service = CalculationsService::new();
    assert_eq!(
        service.calculate_statistic(Statistic::Max, numbers(&[1.0, 8.0])),
        Outcome::Exact(8.0f64.to_bits())
    );
    assert_eq!(
        service.calculate_statistic(Statistic::Average, numbers(&[1.0, 8.0])),
        Outcome::Mean(vec![1.0f64.to_bits(), 8.0f64.to_bits()])
    );
}

#[test]
fn total_order_on_bit_patterns() {
    let neg_zero = (-0.0f64).to_bits();
    let pos_zero = 0.0f64.to_bits();
    assert!(precedes(neg_zero, pos_zero));
    assert!(!precedes(pos_zero, neg_zero));
    assert!(precedes((-5.0f64).to_bits(), (-1.0f64).to_bits()));
    assert!(!precedes((-1.0f64).to_bits(), (-5.0f64).to_bits()));
    assert!(precedes(1.0f64.to_bits(), f64::NAN.to_bits()));
    assert!(precedes(3.0f64.to_bits(), 3.0f64.to_bits()));
}

#[test]
fn nan_sorts_above_every_number() {
    let values = vec![f64::NAN.to_bits(), 1.0f64.to_bits(), f64::INFINITY.to_bits()];
    assert_eq!(greatest_value(&values), Some(f64::NAN.to_bits()));
    assert_eq!(least_value(&values), Some(1.0f64.to_bits()));
    assert_eq!(least_value(&vec![]), None);
    assert_eq!(greatest_value(&vec![]), None);
}

#[test]
fn sort_ascending_orders_values() {
    let values: Vec<u64> = [2.0, -3.0, 0.5, -0.0, 2.0].iter().map(|v: &f64| v.to_bits()).collect();
    let expected: Vec<u64> = [-3.0, -0.0, 0.5, 2.0, 2.0].iter().map(|v: &f64| v.to_bits()).collect();
    assert_eq!(sort_ascending(&values), expected);
}

#[test]
fn median_of_sorted_values() {
    let odd = vec![1.0f64.to_bits(), 5.0f64.to_bits(), 9.0f64.to_bits()];
    assert_eq!(CalculationsService::median(&odd), Outcome::Exact(5.0f64.to_bits()));
    let even = vec![1.0f64.to_bits(), 5.0f64.to_bits()];
    assert_eq!(
        CalculationsService::median(&even),
        Outcome::Midpoint(1.0f64.to_bits(), 5.0f64.to_bits())
    );
}

#[test]
fn reduce_values_keeps_present_readings_in_order() {
    let service = CalculationsService::new();
    assert_eq!(service.reduce_values(vec![Some(3), None, Some(1), None]), vec![3, 1]);
    assert_eq!(service.reduce_values(vec![None]), Vec::<u64>::new());
}

#[test]
fn order_statistics_unchanged_by_reordering() {
    let forward = numbers(&[5.0, -2.0, 8.5, 0.0]);
    let shuffled = cells(&[Some(8.5), None, Some(0.0), Some(5.0), Some(-2.0)]);
    for code in [MAX, MEDIAN, MIN] {
        let service = CalculationsService::new();
        assert_eq!(service.calculate(code, forward.clone()), service.calculate(code, shuffled.clone()));
    }
    assert_eq!(run(MEDIAN, shuffled), "2.50000");
}
