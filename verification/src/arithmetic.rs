//! The arithmetic that the analytics ask for.
//!
//! Every operation on doubles is handed to a function of the caller's, one
//! [`Operation`] at a time.  The formulas built from those operations stand
//! here and in `compute`, as spec functions over the results that the
//! function gives.
use vstd::prelude::*;

use crate::number::{double, Double, HUNDRED, NAN, ONE, TINY, TWO, ZERO};

verus! {

/// One operation on doubles.
#[derive(Clone, Copy, Debug)]
pub enum Operation {
    /// `a + b`
    Add(Double, Double),
    /// `a - b`
    Subtract(Double, Double),
    /// `a * b`
    Multiply(Double, Double),
    /// `a / b`
    Divide(Double, Double),
    /// `a * b + c`, rounded once
    MultiplyAdd(Double, Double, Double),
    /// `a` squared
    Square(Double),
    /// the square root of `a`
    SquareRoot(Double),
    /// the nearest whole number, halves away from zero
    Round(Double),
    /// a count as a double
    Count(usize),
}

/// The function can be asked for every operation and gives each one result.
pub open spec fn computes<F: Fn(Operation) -> Double>(f: F) -> bool {
    &&& forall|op: Operation| #[trigger] call_requires(f, (op,))
    &&& forall|op: Operation, a: Double, b: Double|
        #[trigger] call_ensures(f, (op,), a) && #[trigger] call_ensures(f, (op,), b) ==> a == b
}

/// The result that the function gives for an operation.
pub open spec fn result<F: Fn(Operation) -> Double>(f: F, op: Operation) -> Double {
    choose|r: Double| call_ensures(f, (op,), r)
}

/// Has one operation performed.
pub fn perform<F: Fn(Operation) -> Double>(f: &F, op: Operation) -> (r: Double)
    requires
        computes(*f),
    ensures
        r == result(*f, op),
{
    f(op)
}

// ─── The operations, one by one ──────────────────────────────────────────────

pub open spec fn plus<F: Fn(Operation) -> Double>(f: F, a: Double, b: Double) -> Double {
    result(f, Operation::Add(a, b))
}

pub open spec fn minus<F: Fn(Operation) -> Double>(f: F, a: Double, b: Double) -> Double {
    result(f, Operation::Subtract(a, b))
}

pub open spec fn times<F: Fn(Operation) -> Double>(f: F, a: Double, b: Double) -> Double {
    result(f, Operation::Multiply(a, b))
}

pub open spec fn over<F: Fn(Operation) -> Double>(f: F, a: Double, b: Double) -> Double {
    result(f, Operation::Divide(a, b))
}

pub open spec fn count<F: Fn(Operation) -> Double>(f: F, n: usize) -> Double {
    result(f, Operation::Count(n))
}

// ─── Rounding and percentages ────────────────────────────────────────────────

/// `v` rounded to hundredths: `round(v * 100) / 100`.
pub open spec fn hundredths<F: Fn(Operation) -> Double>(f: F, v: Double) -> Double {
    rounded_to(f, v, HUNDRED)
}

/// `v` rounded to a part of one: `round(v * scale) / scale`.
pub open spec fn rounded_to<F: Fn(Operation) -> Double>(f: F, v: Double, scale: u64) -> Double {
    over(f, result(f, Operation::Round(times(f, v, double(scale)))), double(scale))
}

pub fn round_to<F: Fn(Operation) -> Double>(f: &F, v: Double, scale: u64) -> (r: Double)
    requires
        computes(*f),
    ensures
        r == rounded_to(*f, v, scale),
{
    let scaled = perform(f, Operation::Multiply(v, Double { bits: scale }));
    let whole = perform(f, Operation::Round(scaled));
    perform(f, Operation::Divide(whole, Double { bits: scale }))
}

/// Rounds to hundredths.
pub fn round2<F: Fn(Operation) -> Double>(f: &F, v: Double) -> (r: Double)
    requires
        computes(*f),
    ensures
        r == hundredths(*f, v),
{
    round_to(f, v, HUNDRED)
}

/// The change from `past` to `now` in percent: `(now - past) / past * 100`.
pub open spec fn percent<F: Fn(Operation) -> Double>(f: F, now: Double, past: Double) -> Double {
    times(f, over(f, minus(f, now, past), past), double(HUNDRED))
}

pub fn percent_change<F: Fn(Operation) -> Double>(f: &F, now: Double, past: Double) -> (r: Double)
    requires
        computes(*f),
    ensures
        r == percent(*f, now, past),
{
    let gain = perform(f, Operation::Subtract(now, past));
    let share = perform(f, Operation::Divide(gain, past));
    perform(f, Operation::Multiply(share, Double { bits: HUNDRED }))
}

// ─── Sums and means ──────────────────────────────────────────────────────────

/// The sum of the values, taken one after the other from the first.
pub open spec fn total<F: Fn(Operation) -> Double>(f: F, values: Seq<Double>) -> Double
    decreases values.len(),
{
    if values.len() <= 1 {
        values[0]
    } else {
        plus(f, total(f, values.drop_last()), values.last())
    }
}

/// The sum of the values over their number.
pub open spec fn mean<F: Fn(Operation) -> Double>(f: F, values: Seq<Double>) -> Double {
    over(f, total(f, values), count(f, values.len() as usize))
}

/// The mean of the first `n` values.
fn mean_of<F: Fn(Operation) -> Double>(f: &F, values: &Vec<Double>, n: usize) -> (r: Double)
    requires
        computes(*f),
        0 < n <= values@.len(),
    ensures
        r == mean(*f, values@.take(n as int)),
{
    let mut sum = values[0];
    let mut i: usize = 1;
    assert(values@.take(1)[0] == values@[0]);
    while i < n
        invariant
            computes(*f),
            1 <= i <= n <= values@.len(),
            sum == total(*f, values@.take(i as int)),
        decreases n - i,
    {
        assert(values@.take(i + 1).drop_last() =~= values@.take(i as int));
        sum = perform(f, Operation::Add(sum, values[i]));
        i += 1;
    }
    let number = perform(f, Operation::Count(n));
    perform(f, Operation::Divide(sum, number))
}

// ─── Exponential moving average ──────────────────────────────────────────────

/// `2 / (span + 1)`.
pub open spec fn smoothing<F: Fn(Operation) -> Double>(f: F, span: usize) -> Double {
    over(f, double(TWO), plus(f, count(f, span), double(ONE)))
}

/// The average at a place: up to `span` the mean of the first `span` values,
/// then the one before, moved towards the value by the smoothing factor.
pub open spec fn ema_at<F: Fn(Operation) -> Double>(f: F, values: Seq<Double>, span: usize, i: int) -> Double
    decreases i,
{
    if i < span || i <= 0 {
        mean(f, values.take(span as int))
    } else {
        let before = ema_at(f, values, span, i - 1);
        result(f, Operation::MultiplyAdd(minus(f, values[i], before), smoothing(f, span), before))
    }
}

/// The exponential moving average of the values; NaNs where there are too few.
pub open spec fn averages<F: Fn(Operation) -> Double>(f: F, values: Seq<Double>, span: usize) -> Seq<Double> {
    Seq::new(
        values.len(),
        |i: int|
            if span == 0 || values.len() < span {
                double(NAN)
            } else {
                ema_at(f, values, span, i)
            },
    )
}

fn repeated(value: Double, n: usize) -> (r: Vec<Double>)
    ensures
        r@ == Seq::new(n as nat, |i: int| value),
{
    let mut r: Vec<Double> = Vec::new();
    let mut i: usize = 0;
    while i < n
        invariant
            i <= n,
            r@ == Seq::new(i as nat, |k: int| value),
        decreases n - i,
    {
        r.push(value);
        i += 1;
        assert(r@ =~= Seq::new(i as nat, |k: int| value));
    }
    r
}

/// The exponential moving average of the values.
pub fn ema<F: Fn(Operation) -> Double>(values: &Vec<Double>, span: usize, f: &F) -> (r: Vec<Double>)
    requires
        computes(*f),
    ensures
        r@ == averages(*f, values@, span),
{
    let n = values.len();
    if span == 0 || n < span {
        let r = repeated(Double { bits: NAN }, n);
        assert(r@ =~= averages(*f, values@, span));
        return r;
    }
    let number = perform(f, Operation::Count(span));
    let next = perform(f, Operation::Add(number, Double { bits: ONE }));
    let alpha = perform(f, Operation::Divide(Double { bits: TWO }, next));
    let first = mean_of(f, values, span);
    let mut r: Vec<Double> = repeated(first, span);
    let mut before = first;
    let mut i: usize = span;
    while i < n
        invariant
            computes(*f),
            n == values@.len(),
            0 < span <= i <= n,
            alpha == smoothing(*f, span),
            r@.len() == i,
            before == ema_at(*f, values@, span, i - 1),
            forall|k: int| 0 <= k < i ==> #[trigger] r@[k] == ema_at(*f, values@, span, k),
        decreases n - i,
    {
        let gap = perform(f, Operation::Subtract(values[i], before));
        let cur = perform(f, Operation::MultiplyAdd(gap, alpha, before));
        r.push(cur);
        before = cur;
        i += 1;
    }
    assert(r@ =~= averages(*f, values@, span));
    r
}

// ─── Standard scores ─────────────────────────────────────────────────────────

/// The squared distances from the centre.
pub open spec fn squares<F: Fn(Operation) -> Double>(f: F, values: Seq<Double>, centre: Double) -> Seq<Double> {
    values.map_values(|v: Double| result(f, Operation::Square(minus(f, v, centre))))
}

/// The standard deviation: the root of the mean squared distance from the mean.
pub open spec fn deviation<F: Fn(Operation) -> Double>(f: F, values: Seq<Double>) -> Double {
    result(f, Operation::SquareRoot(mean(f, squares(f, values, mean(f, values)))))
}

/// The distance of each value from the mean in standard deviations; zeros
/// where there are fewer than two values or they hardly differ.
pub open spec fn standard_scores<F: Fn(Operation) -> Double>(f: F, values: Seq<Double>) -> Seq<Double> {
    values.map_values(
        |v: Double|
            if values.len() < 2 || deviation(f, values).below(double(TINY)) {
                double(ZERO)
            } else {
                over(f, minus(f, v, mean(f, values)), deviation(f, values))
            },
    )
}

/// The standard scores of the values.
pub fn zscore_vec<F: Fn(Operation) -> Double>(values: &Vec<Double>, f: &F) -> (r: Vec<Double>)
    requires
        computes(*f),
    ensures
        r@ == standard_scores(*f, values@),
{
    let n = values.len();
    if n < 2 {
        let r = repeated(Double { bits: ZERO }, n);
        assert(r@ =~= standard_scores(*f, values@));
        return r;
    }
    assert(values@.take(n as int) =~= values@);
    let centre = mean_of(f, values, n);
    let mut distances: Vec<Double> = Vec::new();
    let mut i: usize = 0;
    while i < n
        invariant
            computes(*f),
            n == values@.len(),
            i <= n,
            distances@.len() == i,
            forall|k: int| 0 <= k < i ==> #[trigger] distances@[k] == squares(*f, values@, centre)[k],
        decreases n - i,
    {
        let gap = perform(f, Operation::Subtract(values[i], centre));
        distances.push(perform(f, Operation::Square(gap)));
        i += 1;
    }
    assert(distances@ =~= squares(*f, values@, centre));
    assert(distances@.take(n as int) =~= distances@);
    let variance = mean_of(f, &distances, n);
    let spread = perform(f, Operation::SquareRoot(variance));
    if spread.less_than(Double { bits: TINY }) {
        let r = repeated(Double { bits: ZERO }, n);
        assert(r@ =~= standard_scores(*f, values@));
        return r;
    }
    let mut r: Vec<Double> = Vec::new();
    let mut i: usize = 0;
    while i < n
        invariant
            computes(*f),
            n == values@.len(),
            n >= 2,
            i <= n,
            centre == mean(*f, values@),
            spread == deviation(*f, values@),
            !spread.below(double(TINY)),
            r@.len() == i,
            forall|k: int| 0 <= k < i ==> #[trigger] r@[k] == standard_scores(*f, values@)[k],
        decreases n - i,
    {
        let gap = perform(f, Operation::Subtract(values[i], centre));
        r.push(perform(f, Operation::Divide(gap, spread)));
        i += 1;
    }
    assert(r@ =~= standard_scores(*f, values@));
    r
}

} // verus!
