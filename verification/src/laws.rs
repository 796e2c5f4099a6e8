//! Laws of the analytics: how results relate to the prices they come from, and
//! to each other.
use vstd::prelude::*;

use crate::arithmetic::{
    averages, deviation, ema_at, mean, minus, over, plus, result, squares, standard_scores, times, total, Operation,
};
use crate::compute::{
    confidence_counts_signals, daily_timeframe, is_convergence_entry, is_rank_entry, is_rankings, is_rrg_entry,
    is_zscores, momentum, past_rank, quadrants_part_the_plane, ranked_returns, relative_return, rs_ratios,
    scored_returns, strength, weekly_timeframe, Candidate, ConvergenceEntry, RankEntry, RrgEntry, Timeframe, ZScoreEntry,
};
use crate::number::{double, named_numbers, Double, HUNDRED, INFINITY_BITS, ONE, THOUSAND, TINY, TWO, ZERO};
use crate::order::{comparable, is_ranking, rank_counts_values_ahead};

verus! {

// ─── Arithmetic that keeps order ─────────────────────────────────────────────

/// The number is neither infinite nor a NaN.
pub open spec fn finite(x: Double) -> bool {
    x.magnitude() < INFINITY_BITS
}

/// The number is zero, of either sign.
pub open spec fn is_zero(x: Double) -> bool {
    x.magnitude() == 0
}

/// The number is finite and above zero.
pub open spec fn positive(x: Double) -> bool {
    finite(x) && double(ZERO).below(x)
}

/// A double rounded to a part of one, operation by operation.
pub open spec fn rounding<F: Fn(Operation) -> Double>(f: F, v: Double, scale: u64) -> Double {
    result(
        f,
        Operation::Divide(result(f, Operation::Round(result(f, Operation::Multiply(v, double(scale))))), double(scale)),
    )
}

/// What IEEE 754 arithmetic, rounding to the nearest, has of the order of the
/// numbers: an operation never turns it round, a number less itself is zero and
/// over itself one, and 100 and 1 are their own roundings.
pub open spec fn keeps_order<F: Fn(Operation) -> Double>(f: F) -> bool {
    &&& forall|a: Double, b: Double, c: Double|
        a.reaches(b) && finite(c) ==> (#[trigger] minus(f, a, c)).reaches(#[trigger] minus(f, b, c))
    &&& forall|a: Double, b: Double, c: Double|
        a.reaches(b) && finite(c) ==> (#[trigger] minus(f, c, b)).reaches(#[trigger] minus(f, c, a))
    &&& forall|a: Double, b: Double, c: Double|
        a.reaches(b) && positive(c) ==> (#[trigger] over(f, a, c)).reaches(#[trigger] over(f, b, c))
    &&& forall|a: Double, b: Double, c: Double|
        a.reaches(b) && positive(c) ==> (#[trigger] times(f, a, c)).reaches(#[trigger] times(f, b, c))
    &&& forall|a: Double, b: Double, c: Double|
        a.reaches(b) && finite(c) ==> (#[trigger] plus(f, c, a)).reaches(#[trigger] plus(f, c, b))
    &&& forall|a: Double, b: Double|
        a.reaches(b) ==> (#[trigger] result(f, Operation::Round(a))).reaches(#[trigger] result(f, Operation::Round(b)))
    &&& forall|a: Double, b: Double|
        finite(a) && finite(b) ==> !(#[trigger] minus(f, a, b)).is_nan() && minus(f, b, a).units() == -minus(
            f,
            a,
            b,
        ).units()
    &&& forall|a: Double| finite(a) ==> is_zero(#[trigger] minus(f, a, a))
    &&& forall|a: Double, c: Double| is_zero(a) && positive(c) ==> is_zero(#[trigger] over(f, a, c))
    &&& forall|a: Double, c: Double| is_zero(a) && positive(c) ==> is_zero(#[trigger] times(f, a, c))
    &&& forall|a: Double, c: Double| is_zero(a) && positive(c) ==> #[trigger] plus(f, c, a) == c
    &&& forall|a: Double| positive(a) ==> #[trigger] over(f, a, a) == double(ONE)
    &&& times(f, double(ONE), double(HUNDRED)) == double(HUNDRED)
    &&& rounding(f, double(HUNDRED), HUNDRED) == double(HUNDRED)
    &&& rounding(f, double(ONE), THOUSAND) == double(ONE)
}

proof fn lemma_named()
    ensures
        positive(double(HUNDRED)),
        positive(double(THOUSAND)),
        positive(double(ONE)),
        positive(double(TINY)),
        finite(double(ZERO)),
        is_zero(double(ZERO)),
        double(ZERO).units() == 0,
{
    named_numbers();
    vstd::arithmetic::power2::lemma_pow2_pos(1074);
}

/// Rounding to a part of one never turns the order round.
pub proof fn rounding_keeps_order<F: Fn(Operation) -> Double>(f: F, a: Double, b: Double, scale: u64)
    requires
        keeps_order(f),
        a.reaches(b),
        positive(double(scale)),
    ensures
        rounding(f, a, scale).reaches(rounding(f, b, scale)),
{
    let s = double(scale);
    assert(times(f, a, s).reaches(times(f, b, s)));
    assert(result(f, Operation::Round(times(f, a, s))).reaches(result(f, Operation::Round(times(f, b, s)))));
    assert(over(f, result(f, Operation::Round(times(f, a, s))), s).reaches(
        over(f, result(f, Operation::Round(times(f, b, s))), s),
    ));
}

// ─── Moving averages ─────────────────────────────────────────────────────────

/// The sums are those of the first values, one more value each time.
pub open spec fn are_running_sums<F: Fn(Operation) -> Double>(f: F, values: Seq<Double>, sums: Seq<Double>) -> bool {
    &&& sums.len() <= values.len()
    &&& sums.len() > 0 ==> sums[0] == values[0]
    &&& forall|i: int|
        0 < i < sums.len() ==> #[trigger] sums[i] == result(f, Operation::Add(sums[i - 1], values[i]))
}

/// The series starts level at the mean of the first `span` values, and from
/// there each number is the one before, moved towards the value by two parts in
/// `span + 1`.
pub open spec fn is_moving_average<F: Fn(Operation) -> Double>(
    f: F,
    values: Seq<Double>,
    span: usize,
    sums: Seq<Double>,
    out: Seq<Double>,
) -> bool {
    let alpha = result(
        f,
        Operation::Divide(double(TWO), result(f, Operation::Add(result(f, Operation::Count(span)), double(ONE)))),
    );
    &&& out.len() == values.len()
    &&& sums.len() == span
    &&& are_running_sums(f, values, sums)
    &&& forall|i: int|
        0 <= i < span ==> #[trigger] out[i] == result(
            f,
            Operation::Divide(sums[span - 1], result(f, Operation::Count(span))),
        )
    &&& forall|i: int|
        span <= i < out.len() ==> #[trigger] out[i] == result(
            f,
            Operation::MultiplyAdd(result(f, Operation::Subtract(values[i], out[i - 1])), alpha, out[i - 1]),
        )
}

proof fn lemma_running_sums<F: Fn(Operation) -> Double>(f: F, values: Seq<Double>, sums: Seq<Double>, k: int)
    requires
        are_running_sums(f, values, sums),
        0 <= k < sums.len(),
    ensures
        sums[k] == total(f, values.take(k + 1)),
    decreases k,
{
    if k > 0 {
        lemma_running_sums(f, values, sums, k - 1);
        assert(values.take(k + 1).drop_last() =~= values.take(k));
    }
}

/// The exponential moving average is the one series that starts at the mean of
/// its span and is moved from there on.
pub proof fn averages_start_at_the_mean_and_follow<F: Fn(Operation) -> Double>(
    f: F,
    values: Seq<Double>,
    span: usize,
    sums: Seq<Double>,
    out: Seq<Double>,
)
    requires
        0 < span <= values.len(),
        is_moving_average(f, values, span, sums, out),
    ensures
        averages(f, values, span) == out,
{
    lemma_running_sums(f, values, sums, span - 1);
    assert forall|i: int| 0 <= i < out.len() implies ema_at(f, values, span, i) == #[trigger] out[i] by {
        lemma_average_at(f, values, span, sums, out, i);
    }
    assert(averages(f, values, span) =~= out);
}

proof fn lemma_average_at<F: Fn(Operation) -> Double>(
    f: F,
    values: Seq<Double>,
    span: usize,
    sums: Seq<Double>,
    out: Seq<Double>,
    i: int,
)
    requires
        0 < span <= values.len(),
        is_moving_average(f, values, span, sums, out),
        sums[span - 1] == total(f, values.take(span as int)),
        0 <= i < out.len(),
    ensures
        ema_at(f, values, span, i) == out[i],
    decreases i,
{
    assert(values.take(span as int).len() == span);
    if i >= span {
        lemma_average_at(f, values, span, sums, out, i - 1);
    }
}

/// Too few values have no average.
pub proof fn short_series_have_no_average<F: Fn(Operation) -> Double>(f: F, values: Seq<Double>, span: usize, i: int)
    requires
        span == 0 || values.len() < span,
        0 <= i < values.len(),
    ensures
        averages(f, values, span).len() == values.len(),
        averages(f, values, span)[i].is_nan(),
{
    named_numbers();
}

/// An average knows nothing of what comes later: of a series cut short it is the
/// average cut short.
pub proof fn averages_do_not_look_ahead<F: Fn(Operation) -> Double>(f: F, values: Seq<Double>, span: usize, n: int)
    requires
        0 < span <= n <= values.len(),
    ensures
        averages(f, values.take(n), span) == averages(f, values, span).take(n),
{
    let cut = values.take(n);
    assert(cut.take(span as int) =~= values.take(span as int));
    assert forall|i: int| 0 <= i < n implies ema_at(f, cut, span, i) == #[trigger] ema_at(f, values, span, i) by {
        lemma_same_average(f, cut, values, span, i, n);
    }
    assert(averages(f, cut, span) =~= averages(f, values, span).take(n));
}

proof fn lemma_same_average<F: Fn(Operation) -> Double>(
    f: F,
    a: Seq<Double>,
    b: Seq<Double>,
    span: usize,
    i: int,
    n: int,
)
    requires
        0 <= i < n,
        0 < span <= n <= b.len(),
        a == b.take(n),
        a.take(span as int) == b.take(span as int),
    ensures
        ema_at(f, a, span, i) == ema_at(f, b, span, i),
    decreases i,
{
    if i >= span {
        lemma_same_average(f, a, b, span, i - 1, n);
        assert(a[i] == b[i]);
    }
}

// ─── The rotation graph ──────────────────────────────────────────────────────

/// The graph can be drawn: both series have a price for each bar, and there are
/// bars for the spans, the lookback and the tail.
pub open spec fn drawable(c: Candidate, tf: Timeframe) -> bool {
    &&& c.sector.len() == c.bench.len()
    &&& 0 < tf.ema_short <= c.sector.len()
    &&& 0 < tf.ema_long <= c.sector.len()
    &&& tf.mom_lookback + tf.tail_len <= c.sector.len()
}

/// The bar that a point of the tail shows: the tail ends at the last bar.
pub open spec fn tail_bar(c: Candidate, tf: Timeframe, k: int) -> int {
    c.sector.len() - tf.tail_len + k
}

/// The relative strengths are sector price over benchmark price.
pub open spec fn are_strengths<F: Fn(Operation) -> Double>(f: F, c: Candidate, rs: Seq<Double>) -> bool {
    &&& rs.len() == c.sector.len()
    &&& forall|i: int| 0 <= i < rs.len() ==> #[trigger] rs[i] == result(f, Operation::Divide(c.sector[i], c.bench[i]))
}

/// `now` stands at 100 and as many percent of `past` as it lies above it.
pub open spec fn around_hundred<F: Fn(Operation) -> Double>(f: F, now: Double, past: Double) -> Double {
    let share = result(f, Operation::Divide(result(f, Operation::Subtract(now, past)), past));
    result(f, Operation::Add(double(HUNDRED), result(f, Operation::Multiply(share, double(HUNDRED)))))
}

/// The graph, from prices to points: the ratio sets the short average of the
/// relative strength against the long one, the momentum sets the ratio against
/// the one `mom_lookback` bars before, and the tail shows the last `tail_len`
/// bars, oldest first, in hundredths.
pub proof fn graph_from_prices<F: Fn(Operation) -> Double>(
    f: F,
    c: Candidate,
    tf: Timeframe,
    entry: RrgEntry,
    rs: Seq<Double>,
    short_sums: Seq<Double>,
    short: Seq<Double>,
    long_sums: Seq<Double>,
    long: Seq<Double>,
    ratio: Seq<Double>,
    k: int,
)
    requires
        is_rrg_entry(f, c, tf, entry),
        drawable(c, tf),
        are_strengths(f, c, rs),
        is_moving_average(f, rs, tf.ema_short, short_sums, short),
        is_moving_average(f, rs, tf.ema_long, long_sums, long),
        ratio.len() == rs.len(),
        forall|i: int| 0 <= i < ratio.len() ==> #[trigger] ratio[i] == around_hundred(f, short[i], long[i]),
        0 <= k < tf.tail_len,
    ensures
        entry.tail@.len() == tf.tail_len,
        ({
            let i = c.sector.len() - tf.tail_len + k;
            let past = ratio[i - tf.mom_lookback];
            &&& entry.tail@[k].rs_ratio == rounding(f, ratio[i], HUNDRED)
            &&& !past.is_nan() && past.magnitude() < TINY ==> entry.tail@[k].rs_momentum == rounding(
                f,
                double(HUNDRED),
                HUNDRED,
            )
            &&& past.is_nan() || past.magnitude() >= TINY ==> entry.tail@[k].rs_momentum == rounding(
                f,
                around_hundred(f, ratio[i], past),
                HUNDRED,
            )
        }),
{
    lemma_ratios(f, c, tf, rs, short_sums, short, long_sums, long, ratio);
    let i = c.sector.len() - tf.tail_len + k;
    lemma_tiny(ratio[i - tf.mom_lookback]);
}

proof fn lemma_ratios<F: Fn(Operation) -> Double>(
    f: F,
    c: Candidate,
    tf: Timeframe,
    rs: Seq<Double>,
    short_sums: Seq<Double>,
    short: Seq<Double>,
    long_sums: Seq<Double>,
    long: Seq<Double>,
    ratio: Seq<Double>,
)
    requires
        drawable(c, tf),
        are_strengths(f, c, rs),
        is_moving_average(f, rs, tf.ema_short, short_sums, short),
        is_moving_average(f, rs, tf.ema_long, long_sums, long),
        ratio.len() == rs.len(),
        forall|i: int| 0 <= i < ratio.len() ==> #[trigger] ratio[i] == around_hundred(f, short[i], long[i]),
    ensures
        rs_ratios(f, c.sector, c.bench, tf) == ratio,
{
    assert(strength(f, c.sector, c.bench) =~= rs);
    averages_start_at_the_mean_and_follow(f, rs, tf.ema_short, short_sums, short);
    averages_start_at_the_mean_and_follow(f, rs, tf.ema_long, long_sums, long);
    assert(rs_ratios(f, c.sector, c.bench, tf) =~= ratio);
}

proof fn lemma_tiny(x: Double)
    ensures
        x.absolute().below(double(TINY)) <==> !x.is_nan() && x.magnitude() < TINY,
{
    crate::number::patterns_order_magnitudes(x, double(TINY));
}

/// The bars of a candidate before the last `cut` ones.
pub open spec fn earlier(c: Candidate, cut: int) -> Candidate {
    Candidate {
        ticker: c.ticker,
        name: c.name,
        sector: c.sector.take(c.sector.len() - cut),
        bench: c.bench.take(c.bench.len() - cut),
    }
}

/// The momentum of a point compares the ratios of two bars, its own and the one
/// `mom_lookback` bars before: wherever those two agree, in another tail, with
/// another timeframe or with other bars between, the momentum is the same.
pub proof fn momentum_reads_two_bars<F: Fn(Operation) -> Double>(
    f: F,
    c: Candidate,
    tf: Timeframe,
    entry: RrgEntry,
    k: int,
    other_c: Candidate,
    other_tf: Timeframe,
    other: RrgEntry,
    l: int,
)
    requires
        is_rrg_entry(f, c, tf, entry),
        is_rrg_entry(f, other_c, other_tf, other),
        drawable(c, tf),
        drawable(other_c, other_tf),
        0 <= k < tf.tail_len,
        0 <= l < other_tf.tail_len,
        ({
            let (a, b) = (
                rs_ratios(f, c.sector, c.bench, tf),
                rs_ratios(f, other_c.sector, other_c.bench, other_tf),
            );
            let (i, j) = (tail_bar(c, tf, k), tail_bar(other_c, other_tf, l));
            a[i] == b[j] && a[i - tf.mom_lookback] == b[j - other_tf.mom_lookback]
        }),
    ensures
        entry.tail@[k].rs_momentum == other.tail@[l].rs_momentum,
{
}

/// A ratio that is what it was `mom_lookback` bars before has a momentum of 100,
/// one that is no smaller a momentum of 100 or more, and one that is no greater
/// a momentum of 100 or less, whatever the bars between.
pub proof fn momentum_follows_the_ratio<F: Fn(Operation) -> Double>(
    f: F,
    c: Candidate,
    tf: Timeframe,
    entry: RrgEntry,
    k: int,
)
    requires
        keeps_order(f),
        is_rrg_entry(f, c, tf, entry),
        drawable(c, tf),
        0 <= k < tf.tail_len,
        ({
            let ratio = rs_ratios(f, c.sector, c.bench, tf);
            let i = tail_bar(c, tf, k);
            finite(ratio[i]) && positive(ratio[i - tf.mom_lookback])
        }),
    ensures
        ({
            let ratio = rs_ratios(f, c.sector, c.bench, tf);
            let i = tail_bar(c, tf, k);
            let (now, past) = (ratio[i], ratio[i - tf.mom_lookback]);
            let shown = entry.tail@[k].rs_momentum;
            &&& now == past ==> shown == double(HUNDRED)
            &&& now.reaches(past) ==> shown.reaches(double(HUNDRED))
            &&& past.reaches(now) ==> double(HUNDRED).reaches(shown)
        }),
{
    let ratio = rs_ratios(f, c.sector, c.bench, tf);
    let i = tail_bar(c, tf, k);
    let (now, past) = (ratio[i], ratio[i - tf.mom_lookback]);
    lemma_named();
    lemma_tiny(past);
    lemma_around_hundred(f, now, past);
    let moved = around_hundred(f, now, past);
    let h = double(HUNDRED);
    assert(entry.tail@[k].rs_momentum == rounding(f, momentum(f, now, past), HUNDRED));
    if past.absolute().below(double(TINY)) {
        assert(momentum(f, now, past) == h);
    } else {
        assert(momentum(f, now, past) == moved);
        if now.reaches(past) {
            rounding_keeps_order(f, moved, h, HUNDRED);
        }
        if past.reaches(now) {
            rounding_keeps_order(f, h, moved, HUNDRED);
        }
    }
}

proof fn lemma_around_hundred<F: Fn(Operation) -> Double>(f: F, now: Double, past: Double)
    requires
        keeps_order(f),
        finite(now),
        positive(past),
    ensures
        now == past ==> around_hundred(f, now, past) == double(HUNDRED),
        now.reaches(past) ==> around_hundred(f, now, past).reaches(double(HUNDRED)),
        past.reaches(now) ==> double(HUNDRED).reaches(around_hundred(f, now, past)),
{
    lemma_named();
    let h = double(HUNDRED);
    let zero = minus(f, past, past);
    let gap = minus(f, now, past);
    let (share, none) = (over(f, gap, past), over(f, zero, past));
    let (part, nothing) = (times(f, share, h), times(f, none, h));
    assert(is_zero(zero) && is_zero(none) && is_zero(nothing));
    assert(plus(f, h, nothing) == h);
    if now.reaches(past) {
        assert(gap.reaches(zero));
        assert(share.reaches(none));
        assert(part.reaches(nothing));
        assert(plus(f, h, part).reaches(plus(f, h, nothing)));
    }
    if past.reaches(now) {
        assert(zero.reaches(gap));
        assert(none.reaches(share));
        assert(nothing.reaches(part));
        assert(plus(f, h, nothing).reaches(plus(f, h, part)));
    }
}

/// The ratio reads 100 or more just where the short average of the relative
/// strength is no smaller than the long one, up to rounding.
pub proof fn ratio_follows_the_averages<F: Fn(Operation) -> Double>(
    f: F,
    c: Candidate,
    tf: Timeframe,
    entry: RrgEntry,
    rs: Seq<Double>,
    short_sums: Seq<Double>,
    short: Seq<Double>,
    long_sums: Seq<Double>,
    long: Seq<Double>,
    k: int,
)
    requires
        keeps_order(f),
        is_rrg_entry(f, c, tf, entry),
        drawable(c, tf),
        are_strengths(f, c, rs),
        is_moving_average(f, rs, tf.ema_short, short_sums, short),
        is_moving_average(f, rs, tf.ema_long, long_sums, long),
        0 <= k < tf.tail_len,
        finite(short[tail_bar(c, tf, k)]),
        positive(long[tail_bar(c, tf, k)]),
    ensures
        ({
            let i = tail_bar(c, tf, k);
            let shown = entry.tail@[k].rs_ratio;
            &&& short[i] == long[i] ==> shown == double(HUNDRED)
            &&& short[i].reaches(long[i]) ==> shown.reaches(double(HUNDRED))
            &&& long[i].reaches(short[i]) ==> double(HUNDRED).reaches(shown)
        }),
{
    let ratio = Seq::new(rs.len(), |i: int| around_hundred(f, short[i], long[i]));
    graph_from_prices(f, c, tf, entry, rs, short_sums, short, long_sums, long, ratio, k);
    let i = tail_bar(c, tf, k);
    let h = double(HUNDRED);
    lemma_named();
    lemma_around_hundred(f, short[i], long[i]);
    if short[i].reaches(long[i]) {
        rounding_keeps_order(f, ratio[i], h, HUNDRED);
    }
    if long[i].reaches(short[i]) {
        rounding_keeps_order(f, h, ratio[i], HUNDRED);
    }
}

/// The graph of a day moves on as bars come: a point that it shows today it
/// showed `cut` bars ago, `cut` places further on.
pub proof fn graphs_move_on_with_the_bars<F: Fn(Operation) -> Double>(
    f: F,
    c: Candidate,
    tf: Timeframe,
    today: RrgEntry,
    before: RrgEntry,
    cut: int,
    k: int,
)
    requires
        0 <= cut,
        is_rrg_entry(f, c, tf, today),
        is_rrg_entry(f, earlier(c, cut), tf, before),
        drawable(c, tf),
        cut <= c.sector.len(),
        drawable(earlier(c, cut), tf),
        0 <= k,
        k + cut < tf.tail_len,
    ensures
        today.tail@[k] == before.tail@[k + cut],
{
    let old = earlier(c, cut);
    let n = old.sector.len() as int;
    let rs = strength(f, c.sector, c.bench);
    assert(strength(f, old.sector, old.bench) =~= rs.take(n));
    averages_do_not_look_ahead(f, rs, tf.ema_short, n);
    averages_do_not_look_ahead(f, rs, tf.ema_long, n);
    assert(rs_ratios(f, old.sector, old.bench, tf) =~= rs_ratios(f, c.sector, c.bench, tf).take(n));
    let (i, j) = (tail_bar(c, tf, k), tail_bar(old, tf, k + cut));
    assert(i == j);
}

/// The newest point is the one that counts, and it is the last of the tail.
pub proof fn the_newest_point_is_current<F: Fn(Operation) -> Double>(f: F, c: Candidate, tf: Timeframe, entry: RrgEntry)
    requires
        is_rrg_entry(f, c, tf, entry),
        tf.tail_len > 0,
    ensures
        entry.tail@.len() == tf.tail_len,
        entry.current == entry.tail@[tf.tail_len - 1],
        ({
            let strong = entry.current.rs_ratio.reaches(double(HUNDRED));
            let rising = entry.current.rs_momentum.reaches(double(HUNDRED));
            &&& entry.quadrant@ == "Leading"@ <==> strong && rising
            &&& entry.quadrant@ == "Weakening"@ <==> strong && !rising
            &&& entry.quadrant@ == "Lagging"@ <==> !strong && !rising
            &&& entry.quadrant@ == "Improving"@ <==> !strong && rising
        }),
{
    quadrants_part_the_plane(entry.current.rs_ratio, entry.current.rs_momentum);
}

/// How far the windows of the two timeframes reach, in bars: weekly ones are in
/// weeks, daily ones in trading days.
pub proof fn windows_of_the_timeframes()
    ensures
        ({
            let (d, w) = (daily_timeframe(), weekly_timeframe());
            &&& d.ema_short == 50 && d.ema_long == 200 && d.mom_lookback == 20 && d.tail_len == 25
            &&& d.win_short == 20 && d.win_med == 63 && d.win_long == 126 && d.rank_change_lookback == 20
            &&& d.z_short == 20 && d.z_long == 63
            &&& w.ema_short == 10 && w.ema_long == 40 && w.mom_lookback == 4 && w.tail_len == 5
            &&& w.win_short == 4 && w.win_med == 13 && w.win_long == 26 && w.rank_change_lookback == 4
            &&& w.z_short == 4 && w.z_long == 13
        }),
{
}

// ─── Relative returns and ranks ──────────────────────────────────────────────

/// The gain from one price to another, in percent of the first.
pub open spec fn gain<F: Fn(Operation) -> Double>(f: F, now: Double, past: Double) -> Double {
    let share = result(f, Operation::Divide(result(f, Operation::Subtract(now, past)), past));
    result(f, Operation::Multiply(share, double(HUNDRED)))
}

/// Every sector that is measured against the same benchmark bars has the same
/// number subtracted from its own gain: the benchmark's gain in percent of the
/// benchmark's own price.
pub proof fn the_benchmark_is_subtracted_alike<F: Fn(Operation) -> Double>(f: F, bench: Seq<Double>, now: int, past: int)
    ensures
        forall|sector: Seq<Double>| #[trigger]
            relative_return(f, sector, bench, now, past) == result(
                f,
                Operation::Subtract(gain(f, sector[now], sector[past]), gain(f, bench[now], bench[past])),
            ),
{
}

/// A relative return reads four prices: those of the two bars, in either series.
pub proof fn relative_returns_read_two_bars<F: Fn(Operation) -> Double>(
    f: F,
    sector: Seq<Double>,
    bench: Seq<Double>,
    now: int,
    past: int,
    other_sector: Seq<Double>,
    other_bench: Seq<Double>,
    other_now: int,
    other_past: int,
)
    requires
        sector[now] == other_sector[other_now],
        sector[past] == other_sector[other_past],
        bench[now] == other_bench[other_now],
        bench[past] == other_bench[other_past],
    ensures
        relative_return(f, sector, bench, now, past) == relative_return(
            f,
            other_sector,
            other_bench,
            other_now,
            other_past,
        ),
{
}

/// The unit of a price does not matter: where scaling carries over to
/// differences and drops out of quotients, scaling either series leaves the
/// relative return as it is.
pub proof fn relative_returns_know_no_unit<F: Fn(Operation) -> Double>(
    f: F,
    scaled: spec_fn(Double) -> Double,
    sector: Seq<Double>,
    bench: Seq<Double>,
    now: int,
    past: int,
)
    requires
        sector.len() == bench.len(),
        0 <= now < sector.len(),
        0 <= past < sector.len(),
        forall|a: Double, b: Double| #[trigger] minus(f, scaled(a), scaled(b)) == scaled(minus(f, a, b)),
        forall|a: Double, b: Double| #[trigger] over(f, scaled(a), scaled(b)) == over(f, a, b),
    ensures
        relative_return(f, sector.map_values(scaled), bench, now, past) == relative_return(f, sector, bench, now, past),
        relative_return(f, sector, bench.map_values(scaled), now, past) == relative_return(f, sector, bench, now, past),
{
    let (s, b) = (sector.map_values(scaled), bench.map_values(scaled));
    assert(s[now] == scaled(sector[now]) && s[past] == scaled(sector[past]));
    assert(b[now] == scaled(bench[now]) && b[past] == scaled(bench[past]));
    assert(minus(f, s[now], s[past]) == scaled(minus(f, sector[now], sector[past])));
    assert(minus(f, b[now], b[past]) == scaled(minus(f, bench[now], bench[past])));
    assert(over(f, scaled(minus(f, sector[now], sector[past])), scaled(sector[past])) == over(
        f,
        minus(f, sector[now], sector[past]),
        sector[past],
    ));
    assert(over(f, scaled(minus(f, bench[now], bench[past])), scaled(bench[past])) == over(
        f,
        minus(f, bench[now], bench[past]),
        bench[past],
    ));
}

/// What a sector gains on the benchmark the benchmark loses on the sector; and
/// nothing gains on itself.
pub proof fn relative_returns_are_mutual<F: Fn(Operation) -> Double>(
    f: F,
    sector: Seq<Double>,
    bench: Seq<Double>,
    now: int,
    past: int,
)
    requires
        keeps_order(f),
        finite(gain(f, sector[now], sector[past])),
        finite(gain(f, bench[now], bench[past])),
    ensures
        relative_return(f, bench, sector, now, past).units() == -relative_return(f, sector, bench, now, past).units(),
        is_zero(relative_return(f, sector, sector, now, past)),
{
    let (a, b) = (gain(f, sector[now], sector[past]), gain(f, bench[now], bench[past]));
    assert(!minus(f, a, b).is_nan());
    assert(is_zero(minus(f, a, a)));
}

/// Of two sectors that started at the same price, the one that ends higher has
/// no smaller relative return; and against a benchmark that ends higher a sector
/// has no greater one.
pub proof fn relative_returns_reward_gains<F: Fn(Operation) -> Double>(
    f: F,
    sector: Seq<Double>,
    better: Seq<Double>,
    bench: Seq<Double>,
    now: int,
    past: int,
)
    requires
        keeps_order(f),
        positive(sector[past]),
        better[past] == sector[past],
        better[now].reaches(sector[now]),
        finite(gain(f, sector[now], sector[past])),
        finite(gain(f, better[now], better[past])),
        finite(gain(f, bench[now], bench[past])),
    ensures
        relative_return(f, better, bench, now, past).reaches(relative_return(f, sector, bench, now, past)),
        relative_return(f, bench, sector, now, past).reaches(relative_return(f, bench, better, now, past)),
{
    lemma_named();
    let p = sector[past];
    let (lo, hi) = (minus(f, sector[now], p), minus(f, better[now], p));
    assert(hi.reaches(lo));
    let (x, y) = (over(f, lo, p), over(f, hi, p));
    assert(y.reaches(x));
    let (a, b) = (times(f, x, double(HUNDRED)), times(f, y, double(HUNDRED)));
    assert(b.reaches(a));
    let d = gain(f, bench[now], bench[past]);
    assert(minus(f, b, d).reaches(minus(f, a, d)));
    assert(minus(f, d, a).reaches(minus(f, d, b)));
}

/// The candidates read alike over a window that ended `offset` bars ago: they
/// have the same prices on its two ends.
pub open spec fn same_ends(
    c: Candidate,
    window: int,
    offset: int,
    other: Candidate,
    other_window: int,
    other_offset: int,
) -> bool {
    let (i, j) = (c.sector.len() - 1 - offset, other.sector.len() - 1 - other_offset);
    &&& i - window >= 0
    &&& j - other_window >= 0
    &&& c.sector[i] == other.sector[j]
    &&& c.bench[i] == other.bench[j]
    &&& c.sector[i - window] == other.sector[j - other_window]
    &&& c.bench[i - window] == other.bench[j - other_window]
}

/// Each relative return of a ranking reads the last bar and the one exactly its
/// window before, and no others: where those agree, the returns do.
pub proof fn ranked_returns_read_the_ends_of_their_windows<F: Fn(Operation) -> Double>(
    f: F,
    c: Candidate,
    tf: Timeframe,
    entry: RankEntry,
    other_c: Candidate,
    other_tf: Timeframe,
    other: RankEntry,
)
    requires
        is_rank_entry(f, c, tf, entry),
        is_rank_entry(f, other_c, other_tf, other),
    ensures
        same_ends(c, tf.win_short as int, 0, other_c, other_tf.win_short as int, 0) ==> entry.rel_ret_20d
            == other.rel_ret_20d,
        same_ends(c, tf.win_med as int, 0, other_c, other_tf.win_med as int, 0) ==> entry.rel_ret_63d
            == other.rel_ret_63d,
        same_ends(c, tf.win_long as int, 0, other_c, other_tf.win_long as int, 0) ==> entry.rel_ret_126d
            == other.rel_ret_126d,
        same_ends(c, tf.win_short as int, 0, other_c, other_tf.win_long as int, 0) ==> entry.rel_ret_20d
            == other.rel_ret_126d,
        same_ends(c, tf.win_med as int, 0, other_c, other_tf.win_long as int, 0) ==> entry.rel_ret_63d
            == other.rel_ret_126d,
{
}

/// A relative return over the last `window` bars, from the prices.
pub open spec fn return_from_prices<F: Fn(Operation) -> Double>(f: F, c: Candidate, window: int) -> Double {
    let n = c.sector.len() as int;
    result(
        f,
        Operation::Subtract(
            gain(f, c.sector[n - 1], c.sector[n - 1 - window]),
            gain(f, c.bench[n - 1], c.bench[n - 1 - window]),
        ),
    )
}

/// The relative returns of a ranking, from the prices: the sector's gain over the
/// window less the benchmark's, in hundredths, and zero where the history is too
/// short for the window.
pub proof fn ranked_returns_from_prices<F: Fn(Operation) -> Double>(f: F, c: Candidate, tf: Timeframe, entry: RankEntry)
    requires
        is_rank_entry(f, c, tf, entry),
        c.sector.len() == c.bench.len(),
    ensures
        entry.rel_ret_20d == if c.sector.len() > tf.win_short {
            rounding(f, return_from_prices(f, c, tf.win_short as int), HUNDRED)
        } else {
            double(ZERO)
        },
        entry.rel_ret_63d == if c.sector.len() > tf.win_med {
            rounding(f, return_from_prices(f, c, tf.win_med as int), HUNDRED)
        } else {
            double(ZERO)
        },
        entry.rel_ret_126d == if c.sector.len() > tf.win_long {
            rounding(f, return_from_prices(f, c, tf.win_long as int), HUNDRED)
        } else {
            double(ZERO)
        },
{
}

/// The first value comes ahead: it is the greater one, or they are equal and it
/// stands first.
pub open spec fn outranks(a: Double, i: int, b: Double, j: int) -> bool {
    b.units() < a.units() || (a.units() == b.units() && i < j)
}

/// The shown ranks follow the shown returns: of two tickers the one with the
/// greater return over a window has the better rank for it, and of equals the
/// one that was asked for first.
pub proof fn ranks_follow_the_shown_returns<F: Fn(Operation) -> Double>(
    f: F,
    cs: Seq<Candidate>,
    tf: Timeframe,
    out: Seq<RankEntry>,
    i: int,
    j: int,
)
    requires
        is_rankings(f, cs, tf, out),
        0 <= i < out.len(),
        0 <= j < out.len(),
        i != j,
    ensures
        (forall|k: int| 0 <= k < out.len() ==> !(#[trigger] out[k]).rel_ret_20d.is_nan()) ==> (out[i].rank_20d
            < out[j].rank_20d <==> outranks(out[i].rel_ret_20d, i, out[j].rel_ret_20d, j)),
        (forall|k: int| 0 <= k < out.len() ==> !(#[trigger] out[k]).rel_ret_63d.is_nan()) ==> (out[i].rank_63d
            < out[j].rank_63d <==> outranks(out[i].rel_ret_63d, i, out[j].rel_ret_63d, j)),
        (forall|k: int| 0 <= k < out.len() ==> !(#[trigger] out[k]).rel_ret_126d.is_nan()) ==> (out[i].rank_126d
            < out[j].rank_126d <==> outranks(out[i].rel_ret_126d, i, out[j].rel_ret_126d, j)),
{
    let a = ranked_returns(f, cs, tf.win_short, 0);
    let b = ranked_returns(f, cs, tf.win_med, 0);
    let c = ranked_returns(f, cs, tf.win_long, 0);
    assert forall|k: int| 0 <= k < out.len() implies a[k] == (#[trigger] out[k]).rel_ret_20d && b[k]
        == out[k].rel_ret_63d && c[k] == out[k].rel_ret_126d by {
        assert(is_rank_entry(f, cs[k], tf, out[k]));
    }
    lemma_ranks(a, out.map_values(|e: RankEntry| e.rank_20d), i, j);
    lemma_ranks(b, out.map_values(|e: RankEntry| e.rank_63d), i, j);
    lemma_ranks(c, out.map_values(|e: RankEntry| e.rank_126d), i, j);
    if forall|k: int| 0 <= k < out.len() ==> !(#[trigger] out[k]).rel_ret_20d.is_nan() {
        assert forall|k: int| 0 <= k < a.len() implies !(#[trigger] a[k]).is_nan() by {
            assert(a[k] == out[k].rel_ret_20d);
        }
    }
    if forall|k: int| 0 <= k < out.len() ==> !(#[trigger] out[k]).rel_ret_63d.is_nan() {
        assert forall|k: int| 0 <= k < b.len() implies !(#[trigger] b[k]).is_nan() by {
            assert(b[k] == out[k].rel_ret_63d);
        }
    }
    if forall|k: int| 0 <= k < out.len() ==> !(#[trigger] out[k]).rel_ret_126d.is_nan() {
        assert forall|k: int| 0 <= k < c.len() implies !(#[trigger] c[k]).is_nan() by {
            assert(c[k] == out[k].rel_ret_126d);
        }
    }
}

proof fn lemma_ranks(values: Seq<Double>, ranks: Seq<usize>, i: int, j: int)
    requires
        is_ranking(values, ranks),
        0 <= i < values.len(),
        0 <= j < values.len(),
        i != j,
    ensures
        (forall|k: int| 0 <= k < values.len() ==> !(#[trigger] values[k]).is_nan()) ==> (ranks[i] < ranks[j]
            <==> outranks(values[i], i, values[j], j)),
{
    let _ = (ranks[i], ranks[j]);
}

/// Ranks run from 1 to the number of tickers, each given once.
pub proof fn ranks_are_given_once<F: Fn(Operation) -> Double>(
    f: F,
    cs: Seq<Candidate>,
    tf: Timeframe,
    out: Seq<RankEntry>,
    i: int,
    j: int,
)
    requires
        is_rankings(f, cs, tf, out),
        0 <= i < j < out.len(),
    ensures
        out.len() == cs.len(),
        1 <= out[i].rank_20d <= out.len() && 1 <= out[i].rank_63d <= out.len() && 1 <= out[i].rank_126d <= out.len(),
        out[i].rank_20d != out[j].rank_20d,
        out[i].rank_63d != out[j].rank_63d,
        out[i].rank_126d != out[j].rank_126d,
        out[i].rank_20d + out[i].rank_change != out[j].rank_20d + out[j].rank_change,
        1 <= out[i].rank_20d + out[i].rank_change <= out.len(),
{
    let a = out.map_values(|e: RankEntry| e.rank_20d);
    let b = out.map_values(|e: RankEntry| e.rank_63d);
    let c = out.map_values(|e: RankEntry| e.rank_126d);
    let p = out.map_values(|e: RankEntry| past_rank(e) as usize);
    assert(a[i] != a[j] && b[i] != b[j] && c[i] != c[j] && p[i] != p[j]);
    assert(1 <= a[i] <= a.len() && 1 <= b[i] <= b.len() && 1 <= c[i] <= c.len() && 1 <= p[i] <= p.len());
    assert(0 <= past_rank(out[i]) <= usize::MAX && 0 <= past_rank(out[j]) <= usize::MAX);
}

/// The rank change is what the rank has gained since `rank_change_lookback` bars
/// ago: the rank that the same ranking gave then, without the bars since, less
/// the rank of today.
pub proof fn rank_change_is_since_the_lookback<F: Fn(Operation) -> Double>(
    f: F,
    cs: Seq<Candidate>,
    tf: Timeframe,
    today: Seq<RankEntry>,
    then_cs: Seq<Candidate>,
    before: Seq<RankEntry>,
    i: int,
)
    requires
        is_rankings(f, cs, tf, today),
        is_rankings(f, then_cs, tf, before),
        then_cs.len() == cs.len(),
        forall|k: int|
            0 <= k < cs.len() ==> #[trigger] then_cs[k] == earlier(cs[k], tf.rank_change_lookback as int)
                && cs[k].sector.len() == cs[k].bench.len() && tf.rank_change_lookback <= cs[k].sector.len(),
        forall|k: int| 0 <= k < before.len() ==> !(#[trigger] before[k]).rel_ret_20d.is_nan(),
        0 <= i < today.len(),
    ensures
        today[i].rank_change == before[i].rank_20d - today[i].rank_20d,
{
    let was = ranked_returns(f, cs, tf.win_short, tf.rank_change_lookback);
    let then_values = ranked_returns(f, then_cs, tf.win_short, 0);
    assert forall|k: int| 0 <= k < cs.len() implies #[trigger] was[k] == then_values[k] by {
        let (c, old) = (cs[k], then_cs[k]);
        assert(old == earlier(c, tf.rank_change_lookback as int));
        let n = old.sector.len() as int;
        if n >= tf.win_short + 1 {
            relative_returns_read_two_bars(
                f,
                c.sector,
                c.bench,
                n - 1,
                n - 1 - tf.win_short,
                old.sector,
                old.bench,
                n - 1,
                n - 1 - tf.win_short,
            );
        }
    }
    assert(was =~= then_values);
    assert forall|k: int| 0 <= k < was.len() implies !(#[trigger] was[k]).is_nan() by {
        assert(is_rank_entry(f, then_cs[k], tf, before[k]));
        assert(was[k] == then_values[k]);
        assert(then_values[k] == before[k].rel_ret_20d);
    }
    assert(comparable(was));
    let p = today.map_values(|e: RankEntry| past_rank(e) as usize);
    let q = before.map_values(|e: RankEntry| e.rank_20d);
    rank_counts_values_ahead(was, p, i);
    rank_counts_values_ahead(was, q, i);
    assert(p[i] == q[i]);
    assert(0 <= past_rank(today[i]) <= usize::MAX);
}

// ─── Standard scores ─────────────────────────────────────────────────────────

/// How the scores of some returns come about: the running sums of the returns
/// and their mean, the squared distances from it and their running sums, the
/// deviation, and the scores.
pub struct Scoring {
    pub sums: Seq<Double>,
    pub centre: Double,
    pub squares: Seq<Double>,
    pub square_sums: Seq<Double>,
    pub spread: Double,
    pub scores: Seq<Double>,
}

/// Each score is the distance of its return from the mean, in standard
/// deviations of all returns; it is zero where there are fewer than two, or they
/// hardly differ.
pub open spec fn is_scoring<F: Fn(Operation) -> Double>(f: F, values: Seq<Double>, s: Scoring) -> bool {
    let n = values.len() as int;
    let number = result(f, Operation::Count(n as usize));
    &&& s.scores.len() == n
    &&& s.sums.len() == n
    &&& are_running_sums(f, values, s.sums)
    &&& n > 0 ==> s.centre == result(f, Operation::Divide(s.sums[n - 1], number))
    &&& s.squares.len() == n
    &&& forall|i: int|
        0 <= i < n ==> #[trigger] s.squares[i] == result(
            f,
            Operation::Square(result(f, Operation::Subtract(values[i], s.centre))),
        )
    &&& s.square_sums.len() == n
    &&& are_running_sums(f, s.squares, s.square_sums)
    &&& n > 0 ==> s.spread == result(
        f,
        Operation::SquareRoot(result(f, Operation::Divide(s.square_sums[n - 1], number))),
    )
    &&& forall|i: int|
        0 <= i < n ==> #[trigger] s.scores[i] == if n < 2 || s.spread.below(double(TINY)) {
            double(ZERO)
        } else {
            result(f, Operation::Divide(result(f, Operation::Subtract(values[i], s.centre)), s.spread))
        }
}

proof fn lemma_scoring<F: Fn(Operation) -> Double>(f: F, values: Seq<Double>, s: Scoring)
    requires
        is_scoring(f, values, s),
    ensures
        standard_scores(f, values) == s.scores,
{
    let n = values.len() as int;
    if n > 0 {
        assert(values.take(n) =~= values);
        lemma_running_sums(f, values, s.sums, n - 1);
        assert(s.centre == mean(f, values));
        assert(squares(f, values, s.centre) =~= s.squares);
        assert(s.squares.take(n) =~= s.squares);
        lemma_running_sums(f, s.squares, s.square_sums, n - 1);
        assert(s.spread == deviation(f, values));
    }
    assert(standard_scores(f, values) =~= s.scores);
}

/// The returns are those of the candidates over the last `window` bars: from the
/// bar exactly `window` before the last one to the last one.
pub open spec fn are_returns<F: Fn(Operation) -> Double>(
    f: F,
    cs: Seq<Candidate>,
    window: int,
    values: Seq<Double>,
) -> bool {
    &&& values.len() == cs.len()
    &&& forall|i: int| 0 <= i < cs.len() ==> #[trigger] values[i] == return_from_prices(f, cs[i], window)
}

/// The scores, from the prices: the standard scores of the relative returns over
/// the short and over the long window, in hundredths.
pub proof fn scores_from_prices<F: Fn(Operation) -> Double>(
    f: F,
    cs: Seq<Candidate>,
    tf: Timeframe,
    out: Seq<ZScoreEntry>,
    short: Seq<Double>,
    short_scoring: Scoring,
    long: Seq<Double>,
    long_scoring: Scoring,
    i: int,
)
    requires
        is_zscores(f, cs, tf, out),
        are_returns(f, cs, tf.z_short as int, short),
        is_scoring(f, short, short_scoring),
        are_returns(f, cs, tf.z_long as int, long),
        is_scoring(f, long, long_scoring),
        0 <= i < out.len(),
    ensures
        out[i].z_short == rounding(f, short_scoring.scores[i], HUNDRED),
        out[i].z_long == rounding(f, long_scoring.scores[i], HUNDRED),
{
    assert(scored_returns(f, cs, tf.z_short) =~= short);
    assert(scored_returns(f, cs, tf.z_long) =~= long);
    lemma_scoring(f, short, short_scoring);
    lemma_scoring(f, long, long_scoring);
}

/// The scores read two bars of each window, the last one and the one exactly the
/// window before: markets that agree on those have the same scores, however long
/// their histories and whatever the bars between.
pub proof fn scores_read_the_ends_of_their_windows<F: Fn(Operation) -> Double>(
    f: F,
    cs: Seq<Candidate>,
    tf: Timeframe,
    out: Seq<ZScoreEntry>,
    other_cs: Seq<Candidate>,
    other_tf: Timeframe,
    other: Seq<ZScoreEntry>,
    i: int,
)
    requires
        is_zscores(f, cs, tf, out),
        is_zscores(f, other_cs, other_tf, other),
        cs.len() == other_cs.len(),
        0 <= i < out.len(),
    ensures
        (forall|k: int|
            0 <= k < cs.len() ==> same_ends(
                #[trigger] cs[k],
                tf.z_short as int,
                0,
                other_cs[k],
                other_tf.z_short as int,
                0,
            )) ==> out[i].z_short == other[i].z_short,
        (forall|k: int|
            0 <= k < cs.len() ==> same_ends(
                #[trigger] cs[k],
                tf.z_long as int,
                0,
                other_cs[k],
                other_tf.z_long as int,
                0,
            )) ==> out[i].z_long == other[i].z_long,
        (forall|k: int|
            0 <= k < cs.len() ==> same_ends(
                #[trigger] cs[k],
                tf.z_short as int,
                0,
                other_cs[k],
                other_tf.z_long as int,
                0,
            )) ==> out[i].z_short == other[i].z_long,
{
    let (a, b) = (scored_returns(f, cs, tf.z_short), scored_returns(f, other_cs, other_tf.z_short));
    let (c, d) = (scored_returns(f, cs, tf.z_long), scored_returns(f, other_cs, other_tf.z_long));
    if forall|k: int|
        0 <= k < cs.len() ==> same_ends(#[trigger] cs[k], tf.z_short as int, 0, other_cs[k], other_tf.z_short as int, 0) {
        assert forall|k: int| 0 <= k < a.len() implies a[k] == b[k] by {
            assert(same_ends(cs[k], tf.z_short as int, 0, other_cs[k], other_tf.z_short as int, 0));
        }
        assert(a =~= b);
    }
    if forall|k: int|
        0 <= k < cs.len() ==> same_ends(#[trigger] cs[k], tf.z_long as int, 0, other_cs[k], other_tf.z_long as int, 0) {
        assert forall|k: int| 0 <= k < c.len() implies c[k] == d[k] by {
            assert(same_ends(cs[k], tf.z_long as int, 0, other_cs[k], other_tf.z_long as int, 0));
        }
        assert(c =~= d);
    }
    if forall|k: int|
        0 <= k < cs.len() ==> same_ends(#[trigger] cs[k], tf.z_short as int, 0, other_cs[k], other_tf.z_long as int, 0) {
        assert forall|k: int| 0 <= k < a.len() implies a[k] == d[k] by {
            assert(same_ends(cs[k], tf.z_short as int, 0, other_cs[k], other_tf.z_long as int, 0));
        }
        assert(a =~= d);
    }
}

/// A better return never has the lower score.
pub proof fn scores_reward_returns<F: Fn(Operation) -> Double>(
    f: F,
    cs: Seq<Candidate>,
    tf: Timeframe,
    out: Seq<ZScoreEntry>,
    short: Seq<Double>,
    short_scoring: Scoring,
    long: Seq<Double>,
    long_scoring: Scoring,
    i: int,
    j: int,
)
    requires
        keeps_order(f),
        is_zscores(f, cs, tf, out),
        are_returns(f, cs, tf.z_short as int, short),
        is_scoring(f, short, short_scoring),
        are_returns(f, cs, tf.z_long as int, long),
        is_scoring(f, long, long_scoring),
        0 <= i < out.len(),
        0 <= j < out.len(),
        finite(short_scoring.centre),
        positive(short_scoring.spread),
        finite(long_scoring.centre),
        positive(long_scoring.spread),
    ensures
        short[i].reaches(short[j]) ==> out[i].z_short.reaches(out[j].z_short),
        long[i].reaches(long[j]) ==> out[i].z_long.reaches(out[j].z_long),
{
    scores_from_prices(f, cs, tf, out, short, short_scoring, long, long_scoring, i);
    scores_from_prices(f, cs, tf, out, short, short_scoring, long, long_scoring, j);
    lemma_named();
    if short[i].reaches(short[j]) {
        lemma_scores_in_order(f, short, short_scoring, i, j);
        rounding_keeps_order(f, short_scoring.scores[i], short_scoring.scores[j], HUNDRED);
    }
    if long[i].reaches(long[j]) {
        lemma_scores_in_order(f, long, long_scoring, i, j);
        rounding_keeps_order(f, long_scoring.scores[i], long_scoring.scores[j], HUNDRED);
    }
}

proof fn lemma_scores_in_order<F: Fn(Operation) -> Double>(f: F, values: Seq<Double>, s: Scoring, i: int, j: int)
    requires
        keeps_order(f),
        is_scoring(f, values, s),
        finite(s.centre),
        positive(s.spread),
        0 <= i < values.len(),
        0 <= j < values.len(),
        values[i].reaches(values[j]),
    ensures
        s.scores[i].reaches(s.scores[j]),
{
    lemma_named();
    let (a, b) = (minus(f, values[i], s.centre), minus(f, values[j], s.centre));
    assert(a.reaches(b));
    assert(over(f, a, s.spread).reaches(over(f, b, s.spread)));
}

/// What the two scores together say, in units of one: a leader scores above 1.5
/// and 0.5, an improver above 0.5 and below 0, a laggard below -1.5 and -0.5, and
/// one that comes back above 0 and below -1.5, the first that holds; the others
/// are neutral.
pub proof fn signals_from_scores<F: Fn(Operation) -> Double>(
    f: F,
    cs: Seq<Candidate>,
    tf: Timeframe,
    out: Seq<ZScoreEntry>,
    i: int,
)
    requires
        is_zscores(f, cs, tf, out),
        0 <= i < out.len(),
        !out[i].z_short.is_nan(),
        !out[i].z_long.is_nan(),
    ensures
        ({
            let one = double(ONE).units();
            let (s, l) = (2 * out[i].z_short.units(), 2 * out[i].z_long.units());
            let leads = s > 3 * one && l > one;
            let improves = s > one && l < 0;
            let lags = s < -3 * one && l < -one;
            let reverts = s > 0 && l < -3 * one;
            out[i].signal@ == if leads {
                "leader"@
            } else if improves {
                "improving"@
            } else if lags {
                "lagging"@
            } else if reverts {
                "reverting"@
            } else {
                "neutral"@
            }
        }),
{
    named_numbers();
}

// ─── Convergence ─────────────────────────────────────────────────────────────

/// The signal of the graph is that the sector is improving or leading and that
/// the newest ratio of its tail is above the one directly before it.
pub proof fn graph_signal_is_a_rising_ratio(r: RrgEntry, rank: RankEntry, z: ZScoreEntry, entry: ConvergenceEntry)
    requires
        is_convergence_entry(r, rank, z, entry),
    ensures
        entry.rrg_signal ==> r.tail@.len() >= 2 && (r.quadrant@ == "Improving"@ || r.quadrant@ == "Leading"@),
        r.tail@.len() >= 2 ==> {
            let (newest, previous) = (r.tail@[r.tail@.len() - 1].rs_ratio, r.tail@[r.tail@.len() - 2].rs_ratio);
            &&& entry.rrg_signal ==> !newest.is_nan() && !previous.is_nan() && newest.units() > previous.units()
            &&& !newest.is_nan() && !previous.is_nan() && newest.units() > previous.units() && (r.quadrant@
                == "Improving"@ || r.quadrant@ == "Leading"@) ==> entry.rrg_signal
        },
{
}

/// The signal of the graph reads the newest two points of the tail: dropping or
/// changing older ones, as long as two remain, does not change it.
pub proof fn graph_signal_reads_two_points(
    r: RrgEntry,
    rank: RankEntry,
    z: ZScoreEntry,
    entry: ConvergenceEntry,
    other_r: RrgEntry,
    other_rank: RankEntry,
    other_z: ZScoreEntry,
    other: ConvergenceEntry,
)
    requires
        is_convergence_entry(r, rank, z, entry),
        is_convergence_entry(other_r, other_rank, other_z, other),
        r.quadrant@ == other_r.quadrant@,
        r.tail@.len() >= 2,
        other_r.tail@.len() >= 2,
        r.tail@[r.tail@.len() - 1].rs_ratio == other_r.tail@[other_r.tail@.len() - 1].rs_ratio,
        r.tail@[r.tail@.len() - 2].rs_ratio == other_r.tail@[other_r.tail@.len() - 2].rs_ratio,
    ensures
        entry.rrg_signal == other.rrg_signal,
{
}

/// The signal of the ranking is a gain of two ranks or more, and that of the
/// scores one of three words; nothing else counts for either.  The confidence
/// counts the three.
pub proof fn the_other_signals(r: RrgEntry, rank: RankEntry, z: ZScoreEntry, entry: ConvergenceEntry)
    requires
        is_convergence_entry(r, rank, z, entry),
    ensures
        entry.ticker@ == r.ticker@,
        entry.name@ == r.name@,
        entry.rank_signal <==> rank.rank_change >= 2,
        entry.zscore_signal <==> z.signal@ == "leader"@ || z.signal@ == "improving"@ || z.signal@ == "reverting"@,
        ({
            let count = (if entry.rrg_signal { 1int } else { 0 }) + (if entry.rank_signal { 1int } else { 0 }) + (
            if entry.zscore_signal { 1int } else { 0 });
            &&& count == 3 <==> entry.confidence@ == "high"@
            &&& count == 2 <==> entry.confidence@ == "medium"@
            &&& count <= 1 <==> entry.confidence@ == "low"@
        }),
{
    confidence_counts_signals(entry.rrg_signal, entry.rank_signal, entry.zscore_signal);
}

} // verus!
