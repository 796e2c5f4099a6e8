use sector_rotation::arithmetic::{ema, percent_change, perform, round2, round_to, zscore_vec, Operation};
use sector_rotation::number::{
    Double, HALF, HUNDRED, INFINITY_BITS, MINUS_HALF, MINUS_THREE_HALVES, NAN, ONE, THOUSAND, THREE_HALVES, TINY, TWO,
    ZERO,
};
use sector_rotation::order::{arrange, ascending_order, descending_order, rank_descending};

fn d(x: f64) -> Double {
    Double { bits: x.to_bits() }
}

fn f(x: Double) -> f64 {
    f64::from_bits(x.bits)
}

fn doubles(xs: &[f64]) -> Vec<Double> {
    xs.iter().map(|x| d(*x)).collect()
}

fn floats(xs: &[Double]) -> Vec<f64> {
    xs.iter().map(|x| f(*x)).collect()
}

fn float(op: Operation) -> Double {
    let r = match op {
        Operation::Add(a, b) => f(a) + f(b),
        Operation::Subtract(a, b) => f(a) - f(b),
        Operation::Multiply(a, b) => f(a) * f(b),
        Operation::Divide(a, b) => f(a) / f(b),
        Operation::MultiplyAdd(a, b, c) => f(a).mul_add(f(b), f(c)),
        Operation::Square(a) => f(a).powi(2),
        Operation::SquareRoot(a) => f(a).sqrt(),
        Operation::Round(a) => f(a).round(),
        Operation::Count(n) => n as f64,
    };
    if r.is_nan() { Double { bits: NAN } } else { d(r) }
}

#[test]
fn named_patterns_are_the_numbers() {
    let named = [
        (ZERO, 0.0),
        (HALF, 0.5),
        (MINUS_HALF, -0.5),
        (ONE, 1.0),
        (THREE_HALVES, 1.5),
        (MINUS_THREE_HALVES, -1.5),
        (TWO, 2.0),
        (HUNDRED, 100.0),
        (THOUSAND, 1000.0),
        (TINY, 1e-10),
        (INFINITY_BITS, f64::INFINITY),
    ];
    for (bits, x) in named {
        assert_eq!(bits, x.to_bits());
    }
    assert!(f64::from_bits(NAN).is_nan());
}

#[test]
fn comparisons_are_those_of_floats() {
    let xs = [
        0.0,
        -0.0,
        1.0,
        -1.0,
        1e-310,
        -1e-310,
        5e-324,
        f64::MIN_POSITIVE,
        f64::MAX,
        f64::MIN,
        f64::INFINITY,
        f64::NEG_INFINITY,
        f64::NAN,
        -f64::NAN,
        100.0,
        99.99999999999999,
        1e-10,
    ];
    for a in xs {
        assert_eq!(d(a).nan(), a.is_nan());
        assert_eq!(d(a).abs().bits, a.abs().to_bits());
        for b in xs {
            assert_eq!(d(a).less_than(d(b)), a < b, "{a} < {b}");
            assert_eq!(d(a).at_least(d(b)), a >= b, "{a} >= {b}");
        }
    }
}

#[test]
fn perform_hands_the_operation_over() {
    assert_eq!(f(perform(&float, Operation::MultiplyAdd(d(2.0), d(3.0), d(4.0)))), 10.0);
    assert_eq!(f(perform(&float, Operation::Count(7))), 7.0);
}

#[test]
fn rounding_goes_to_parts_of_one() {
    assert_eq!(f(round2(&float, d(1.005))), 1.0);
    assert_eq!(f(round2(&float, d(2.345678))), 2.35);
    assert_eq!(f(round2(&float, d(-2.345678))), -2.35);
    assert_eq!(f(round_to(&float, d(1.23456), THOUSAND)), 1.235);
}

#[test]
fn percent_change_is_relative_to_the_past() {
    assert_eq!(f(percent_change(&float, d(110.0), d(100.0))), 10.0);
    assert_eq!(f(percent_change(&float, d(75.0), d(100.0))), -25.0);
}

#[test]
fn ema_starts_at_the_mean() {
    let out = floats(&ema(&doubles(&[1.0, 2.0, 3.0, 6.0, 5.0]), 3, &float));
    // mean of 1, 2, 3 is 2; alpha is 1/2
    assert_eq!(out, vec![2.0, 2.0, 2.0, 4.0, 4.5]);
}

#[test]
fn ema_of_too_few_values_is_nan() {
    let short = ema(&doubles(&[1.0, 2.0]), 3, &float);
    assert_eq!(short.len(), 2);
    assert!(short.iter().all(|x| x.bits == NAN));
    let none = ema(&doubles(&[1.0, 2.0]), 0, &float);
    assert!(none.iter().all(|x| x.bits == NAN));
    assert_eq!(floats(&ema(&doubles(&[4.0]), 1, &float)), vec![4.0]);
    assert!(ema(&doubles(&[]), 3, &float).is_empty());
}

#[test]
fn zscores_are_in_standard_deviations() {
    // mean 5, deviation 2
    let out = floats(&zscore_vec(&doubles(&[2.0, 4.0, 4.0, 4.0, 5.0, 5.0, 7.0, 9.0]), &float));
    assert_eq!(out, vec![-1.5, -0.5, -0.5, -0.5, 0.0, 0.0, 1.0, 2.0]);
}

#[test]
fn zscores_of_level_or_lone_values_are_zero() {
    assert_eq!(floats(&zscore_vec(&doubles(&[3.0, 3.0, 3.0]), &float)), vec![0.0, 0.0, 0.0]);
    assert_eq!(floats(&zscore_vec(&doubles(&[3.0]), &float)), vec![0.0]);
    assert!(zscore_vec(&doubles(&[]), &float).is_empty());
    assert_eq!(floats(&zscore_vec(&doubles(&[1.0, 1.0 + 1e-11]), &float)), vec![0.0, 0.0]);
}

#[test]
fn ranks_count_from_the_greatest() {
    assert_eq!(rank_descending(&doubles(&[1.5, 9.0, -3.0, 4.0])), vec![3, 1, 4, 2]);
}

#[test]
fn equal_values_rank_as_they_come() {
    assert_eq!(rank_descending(&doubles(&[2.0, 5.0, 2.0, 5.0, 0.0, -0.0])), vec![3, 1, 4, 2, 5, 6]);
    assert_eq!(rank_descending(&doubles(&[f64::NAN, f64::NAN])), vec![1, 2]);
}

#[test]
fn a_rank_is_one_more_than_the_values_ahead() {
    let xs = [0.3, -1.0, 7.0, 0.3, 2.5, 7.0];
    let ranks = rank_descending(&doubles(&xs));
    for i in 0..xs.len() {
        let ahead = (0..xs.len()).filter(|j| xs[*j] > xs[i] || (xs[*j] == xs[i] && *j < i)).count();
        assert_eq!(ranks[i], 1 + ahead);
    }
}

#[test]
fn ranks_with_a_nan_are_still_ranks() {
    let mut ranks = rank_descending(&doubles(&[1.0, f64::NAN, 3.0, 2.0]));
    ranks.sort();
    assert_eq!(ranks, vec![1, 2, 3, 4]);
}

#[test]
fn orders_are_stable() {
    assert_eq!(ascending_order(&vec![2, 0, 1, 0, 2]), vec![1, 3, 2, 0, 4]);
    assert_eq!(descending_order(&doubles(&[1.0, 3.0, 1.0, 2.0])), vec![1, 3, 0, 2]);
    let order = ascending_order(&vec![3, 1, 2]);
    assert_eq!(arrange(vec!["c", "a", "b"], &order), vec!["a", "b", "c"]);
}
