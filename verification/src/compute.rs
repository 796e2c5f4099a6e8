//! RRG, relative strength rankings, z-scores and their convergence.
use vstd::prelude::*;

use crate::arithmetic::{
    averages, computes, ema, hundredths, minus, over, percent, percent_change, perform, plus, round2,
    standard_scores, zscore_vec, Operation,
};
use crate::calendar::Date;
use crate::data::{align, all_series, counterpart, prices_only, shared, PriceMap, PriceSeries};
use crate::number::{
    double, named_numbers, Double, HALF, HUNDRED, MINUS_HALF, MINUS_THREE_HALVES, THREE_HALVES, TINY, ZERO,
};
use crate::order::{is_ranking, rank_descending};
use crate::text::{pair_texts, same_text};
use crate::tickers::{find_last, last_place, lemma_last_place, Tickered};

verus! {

// ─── Timeframe parameters ────────────────────────────────────────────────────

/// Window parameters that depend on the bar frequency (daily or weekly).
#[derive(Clone, Copy, Debug, PartialEq, Eq, Structural)]
pub struct Timeframe {
    /// Span of the short average of the rotation graph.
    pub ema_short: usize,
    /// Span of the long average of the rotation graph.
    pub ema_long: usize,
    /// How far back the momentum of the rotation graph looks.
    pub mom_lookback: usize,
    /// How many points of the past the rotation graph shows.
    pub tail_len: usize,
    /// Windows of the relative returns that are ranked.
    pub win_short: usize,
    pub win_med: usize,
    pub win_long: usize,
    /// How far back the rank is compared.
    pub rank_change_lookback: usize,
    /// Windows of the relative returns that are scored.
    pub z_short: usize,
    pub z_long: usize,
}

/// Parameters for daily bars: the weekly ones times five trading days, with
/// windows of a month, a quarter and half a year.
pub open spec fn daily_timeframe() -> Timeframe {
    Timeframe {
        ema_short: 50,
        ema_long: 200,
        mom_lookback: 20,
        tail_len: 25,
        win_short: 20,
        win_med: 63,
        win_long: 126,
        rank_change_lookback: 20,
        z_short: 20,
        z_long: 63,
    }
}

/// Parameters for weekly bars: de Kempenaer's published defaults.
pub open spec fn weekly_timeframe() -> Timeframe {
    Timeframe {
        ema_short: 10,
        ema_long: 40,
        mom_lookback: 4,
        tail_len: 5,
        win_short: 4,
        win_med: 13,
        win_long: 26,
        rank_change_lookback: 4,
        z_short: 4,
        z_long: 13,
    }
}

impl Timeframe {
    /// Parameters for daily bars.
    pub fn daily() -> (r: Timeframe)
        ensures
            r == daily_timeframe(),
    {
        Timeframe {
            ema_short: 50,
            ema_long: 200,
            mom_lookback: 20,
            tail_len: 25,
            win_short: 20,
            win_med: 63,
            win_long: 126,
            rank_change_lookback: 20,
            z_short: 20,
            z_long: 63,
        }
    }

    /// Parameters for weekly bars.
    pub fn weekly() -> (r: Timeframe)
        ensures
            r == weekly_timeframe(),
    {
        Timeframe {
            ema_short: 10,
            ema_long: 40,
            mom_lookback: 4,
            tail_len: 5,
            win_short: 4,
            win_med: 13,
            win_long: 26,
            rank_change_lookback: 4,
            z_short: 4,
            z_long: 13,
        }
    }

    /// The bars that the rotation graph takes.
    pub open spec fn rrg_bars(self) -> int {
        self.ema_long + self.mom_lookback + self.tail_len + 5
    }

    /// The bars that the rankings take.
    pub open spec fn rank_bars(self) -> int {
        self.win_long + self.rank_change_lookback + 5
    }

    /// The bars that the z-scores take.
    pub open spec fn zscore_bars(self) -> int {
        self.z_long + 5
    }
}

// ─── Candidates ──────────────────────────────────────────────────────────────

/// A ticker with enough history: its prices and those of the benchmark on the
/// dates that both have.
#[verifier::ext_equal]
pub struct Candidate {
    pub ticker: Seq<char>,
    pub name: Seq<char>,
    pub sector: Seq<Double>,
    pub bench: Seq<Double>,
}

/// The prices of a series.
pub open spec fn prices_of(series: Seq<(Date, Double)>) -> Seq<Double> {
    series.map_values(|p: (Date, Double)| p.1)
}

/// The tickers that have a series which shares at least `least` dates with
/// that of the benchmark, in the order given; none without the benchmark.
pub open spec fn candidates(
    all: Map<Seq<char>, Seq<(Date, Double)>>,
    benchmark: Seq<char>,
    tickers: Seq<(Seq<char>, Seq<char>)>,
    least: int,
) -> Seq<Candidate>
    decreases tickers.len(),
{
    if tickers.len() == 0 || !all.contains_key(benchmark) {
        Seq::empty()
    } else {
        let (ticker, name) = tickers.last();
        let rest = candidates(all, benchmark, tickers.drop_last(), least);
        if all.contains_key(ticker) && shared(all[ticker], all[benchmark]).len() >= least {
            rest.push(
                Candidate {
                    ticker,
                    name,
                    sector: prices_of(shared(all[ticker], all[benchmark])),
                    bench: prices_of(counterpart(all[ticker], all[benchmark])),
                },
            )
        } else {
            rest
        }
    }
}

/// Every candidate has enough prices, and as many of the benchmark.
pub proof fn lemma_candidates(
    all: Map<Seq<char>, Seq<(Date, Double)>>,
    benchmark: Seq<char>,
    tickers: Seq<(Seq<char>, Seq<char>)>,
    least: int,
)
    ensures
        forall|i: int|
            0 <= i < candidates(all, benchmark, tickers, least).len() ==> (#[trigger] candidates(
                all,
                benchmark,
                tickers,
                least,
            )[i]).sector.len() >= least && candidates(all, benchmark, tickers, least)[i].bench.len() == candidates(
                all,
                benchmark,
                tickers,
                least,
            )[i].sector.len(),
        candidates(all, benchmark, tickers, least).len() <= tickers.len(),
    decreases tickers.len(),
{
    if tickers.len() > 0 && all.contains_key(benchmark) {
        lemma_candidates(all, benchmark, tickers.drop_last(), least);
    }
}

/// The prices of a ticker and of the benchmark, where they share enough dates.
fn candidate(prices: &PriceMap, bench: &PriceSeries, ticker: &str, least: usize) -> (r: Option<(Vec<Double>, Vec<Double>)>)
    requires
        prices.wf(),
    ensures
        r matches Some((sector, benchmark)) ==> {
            &&& all_series(*prices).contains_key(ticker@)
            &&& shared(all_series(*prices)[ticker@], bench@).len() >= least
            &&& sector@ == prices_of(shared(all_series(*prices)[ticker@], bench@))
            &&& benchmark@ == prices_of(counterpart(all_series(*prices)[ticker@], bench@))
        },
        r is None ==> !(all_series(*prices).contains_key(ticker@) && shared(all_series(*prices)[ticker@], bench@).len()
            >= least),
{
    match prices.get(ticker) {
        Some(series) => {
            let (left, right) = align(series, bench);
            if left.len() < least {
                None
            } else {
                Some((prices_only(&left), prices_only(&right)))
            }
        },
        None => None,
    }
}

// ─── Method 1: relative rotation graph ───────────────────────────────────────

#[derive(Clone, Copy, Debug, PartialEq, Eq, Structural)]
pub struct RrgPoint {
    pub rs_ratio: Double,
    pub rs_momentum: Double,
}

#[derive(Clone, Debug)]
pub struct RrgEntry {
    pub ticker: String,
    pub name: String,
    pub current: RrgPoint,
    /// The last points, oldest first.
    pub tail: Vec<RrgPoint>,
    pub quadrant: String,
}

/// The price of the sector in prices of the benchmark, bar by bar.
pub open spec fn strength<F: Fn(Operation) -> Double>(f: F, sector: Seq<Double>, bench: Seq<Double>) -> Seq<Double> {
    Seq::new(sector.len(), |i: int| over(f, sector[i], bench[i]))
}

/// How far the short average of the relative strength stands from the long
/// one, around 100.
pub open spec fn rs_ratios<F: Fn(Operation) -> Double>(
    f: F,
    sector: Seq<Double>,
    bench: Seq<Double>,
    tf: Timeframe,
) -> Seq<Double> {
    let rs = strength(f, sector, bench);
    Seq::new(
        rs.len(),
        |i: int|
            plus(f, double(HUNDRED), percent(f, averages(f, rs, tf.ema_short)[i], averages(f, rs, tf.ema_long)[i])),
    )
}

/// How far the ratio has moved from an earlier one, around 100.
pub open spec fn momentum<F: Fn(Operation) -> Double>(f: F, now: Double, past: Double) -> Double {
    if past.absolute().below(double(TINY)) {
        double(HUNDRED)
    } else {
        plus(f, double(HUNDRED), percent(f, now, past))
    }
}

/// The last `tail_len` points, oldest first, rounded to hundredths.
pub open spec fn rrg_tail<F: Fn(Operation) -> Double>(
    f: F,
    sector: Seq<Double>,
    bench: Seq<Double>,
    tf: Timeframe,
) -> Seq<RrgPoint> {
    let ratios = rs_ratios(f, sector, bench, tf);
    let first = ratios.len() - tf.tail_len;
    Seq::new(
        tf.tail_len as nat,
        |k: int|
            RrgPoint {
                rs_ratio: hundredths(f, ratios[first + k]),
                rs_momentum: hundredths(f, momentum(f, ratios[first + k], ratios[first + k - tf.mom_lookback])),
            },
    )
}

/// The quadrant of a point: from 100 on the ratio is strong, from 100 on the
/// momentum is rising.
pub open spec fn quadrant_text(ratio: Double, momentum: Double) -> Seq<char> {
    if ratio.reaches(double(HUNDRED)) {
        if momentum.reaches(double(HUNDRED)) { "Leading"@ } else { "Weakening"@ }
    } else {
        if momentum.reaches(double(HUNDRED)) { "Improving"@ } else { "Lagging"@ }
    }
}

/// The quadrant of a point.
pub fn classify_quadrant(ratio: Double, momentum: Double) -> (r: String)
    ensures
        r@ == quadrant_text(ratio, momentum),
{
    let hundred = Double { bits: HUNDRED };
    match (ratio.at_least(hundred), momentum.at_least(hundred)) {
        (true, true) => "Leading".to_owned(),
        (true, false) => "Weakening".to_owned(),
        (false, false) => "Lagging".to_owned(),
        (false, true) => "Improving".to_owned(),
    }
}

fn strength_series<F: Fn(Operation) -> Double>(sector: &Vec<Double>, bench: &Vec<Double>, f: &F) -> (r: Vec<Double>)
    requires
        computes(*f),
        sector@.len() == bench@.len(),
    ensures
        r@ == strength(*f, sector@, bench@),
{
    let mut r: Vec<Double> = Vec::new();
    let mut i: usize = 0;
    while i < sector.len()
        invariant
            computes(*f),
            sector@.len() == bench@.len(),
            i <= sector@.len(),
            r@.len() == i,
            forall|k: int| 0 <= k < i ==> #[trigger] r@[k] == over(*f, sector@[k], bench@[k]),
        decreases sector.len() - i,
    {
        r.push(perform(f, Operation::Divide(sector[i], bench[i])));
        i += 1;
    }
    assert(r@ =~= strength(*f, sector@, bench@));
    r
}

fn ratio_series<F: Fn(Operation) -> Double>(
    sector: &Vec<Double>,
    bench: &Vec<Double>,
    tf: &Timeframe,
    f: &F,
) -> (r: Vec<Double>)
    requires
        computes(*f),
        sector@.len() == bench@.len(),
    ensures
        r@ == rs_ratios(*f, sector@, bench@, *tf),
{
    let rs = strength_series(sector, bench, f);
    let short = ema(&rs, tf.ema_short, f);
    let long = ema(&rs, tf.ema_long, f);
    let mut r: Vec<Double> = Vec::new();
    let mut i: usize = 0;
    while i < short.len()
        invariant
            computes(*f),
            short@ == averages(*f, rs@, tf.ema_short),
            long@ == averages(*f, rs@, tf.ema_long),
            i <= short@.len(),
            r@.len() == i,
            forall|k: int|
                0 <= k < i ==> #[trigger] r@[k] == plus(*f, double(HUNDRED), percent(*f, short@[k], long@[k])),
        decreases short.len() - i,
    {
        let distance = percent_change(f, short[i], long[i]);
        r.push(perform(f, Operation::Add(Double { bits: HUNDRED }, distance)));
        i += 1;
    }
    assert(r@ =~= rs_ratios(*f, sector@, bench@, *tf));
    r
}

fn momentum_of<F: Fn(Operation) -> Double>(now: Double, past: Double, f: &F) -> (r: Double)
    requires
        computes(*f),
    ensures
        r == momentum(*f, now, past),
{
    if past.abs().less_than(Double { bits: TINY }) {
        Double { bits: HUNDRED }
    } else {
        let change = percent_change(f, now, past);
        perform(f, Operation::Add(Double { bits: HUNDRED }, change))
    }
}

fn tail_points<F: Fn(Operation) -> Double>(
    sector: &Vec<Double>,
    bench: &Vec<Double>,
    tf: &Timeframe,
    f: &F,
) -> (r: Vec<RrgPoint>)
    requires
        computes(*f),
        sector@.len() == bench@.len(),
        sector@.len() >= tf.mom_lookback + tf.tail_len,
    ensures
        r@ == rrg_tail(*f, sector@, bench@, *tf),
{
    let ratios = ratio_series(sector, bench, tf, f);
    let n = ratios.len();
    let first: usize = n - tf.tail_len;
    let mut r: Vec<RrgPoint> = Vec::new();
    let mut k: usize = 0;
    while k < tf.tail_len
        invariant
            computes(*f),
            ratios@ == rs_ratios(*f, sector@, bench@, *tf),
            n == ratios@.len(),
            first == n - tf.tail_len,
            ratios@.len() >= tf.mom_lookback + tf.tail_len,
            k <= tf.tail_len,
            r@.len() == k,
            forall|j: int| 0 <= j < k ==> #[trigger] r@[j] == rrg_tail(*f, sector@, bench@, *tf)[j],
        decreases tf.tail_len - k,
    {
        let now = ratios[first + k];
        let past = ratios[first + k - tf.mom_lookback];
        let moved = momentum_of(now, past, f);
        r.push(RrgPoint { rs_ratio: round2(f, now), rs_momentum: round2(f, moved) });
        k += 1;
    }
    assert(r@ =~= rrg_tail(*f, sector@, bench@, *tf));
    r
}

/// The entry shows the candidate: its last points, the newest of them, and the
/// quadrant of that one.
pub open spec fn is_rrg_entry<F: Fn(Operation) -> Double>(f: F, c: Candidate, tf: Timeframe, entry: RrgEntry) -> bool {
    &&& entry.ticker@ == c.ticker
    &&& entry.name@ == c.name
    &&& entry.tail@ == rrg_tail(f, c.sector, c.bench, tf)
    &&& entry.current == entry.tail@.last()
    &&& entry.quadrant@ == quadrant_text(entry.current.rs_ratio, entry.current.rs_momentum)
}

/// One entry for each candidate; without a tail there is nothing to show.
pub open spec fn is_rrg<F: Fn(Operation) -> Double>(f: F, cs: Seq<Candidate>, tf: Timeframe, out: Seq<RrgEntry>) -> bool {
    &&& out.len() == if tf.tail_len == 0 { 0 } else { cs.len() }
    &&& forall|i: int| 0 <= i < out.len() ==> is_rrg_entry(f, cs[i], tf, #[trigger] out[i])
}

/// The relative rotation graph of the tickers that have enough history.
pub fn compute_rrg<F: Fn(Operation) -> Double>(
    prices: &PriceMap,
    benchmark: &str,
    tickers: &[(&str, &str)],
    tf: &Timeframe,
    f: &F,
) -> (r: Vec<RrgEntry>)
    requires
        prices.wf(),
        computes(*f),
        tf.rrg_bars() <= usize::MAX,
    ensures
        is_rrg(*f, candidates(all_series(*prices), benchmark@, pair_texts(tickers@), tf.rrg_bars()), *tf, r@),
{
    let ghost all = all_series(*prices);
    let mut entries: Vec<RrgEntry> = Vec::new();
    let bench_series = match prices.get(benchmark) {
        Some(s) => s,
        None => {
            return entries;
        },
    };
    let least: usize = tf.ema_long + tf.mom_lookback + tf.tail_len + 5;
    let mut i: usize = 0;
    while i < tickers.len()
        invariant
            prices.wf(),
            computes(*f),
            all == all_series(*prices),
            all.contains_key(benchmark@),
            bench_series@ == all[benchmark@],
            least == tf.rrg_bars(),
            i <= tickers@.len(),
            is_rrg(*f, candidates(all, benchmark@, pair_texts(tickers@).take(i as int), tf.rrg_bars()), *tf, entries@),
        decreases tickers.len() - i,
    {
        let (ticker, name) = tickers[i];
        assert(pair_texts(tickers@).take(i + 1).drop_last() =~= pair_texts(tickers@).take(i as int));
        let ghost cs = candidates(all, benchmark@, pair_texts(tickers@).take(i as int), tf.rrg_bars());
        let ghost next = candidates(all, benchmark@, pair_texts(tickers@).take(i + 1), tf.rrg_bars());
        let ghost held = entries@;
        if let Some((sector, bench)) = candidate(prices, bench_series, ticker, least) {
            let tail = tail_points(&sector, &bench, tf, f);
            if tail.len() > 0 {
                let current = tail[tail.len() - 1];
                let quadrant = classify_quadrant(current.rs_ratio, current.rs_momentum);
                entries.push(
                    RrgEntry { ticker: ticker.to_owned(), name: name.to_owned(), current, tail, quadrant },
                );
            }
            assert(next.drop_last() =~= cs);
            assert forall|k: int| 0 <= k < entries@.len() implies is_rrg_entry(*f, next[k], *tf, #[trigger] entries@[k]) by {
                if k < held.len() {
                    assert(entries@[k] == held[k]);
                }
            }
        }
        i += 1;
    }
    assert(pair_texts(tickers@).take(i as int) =~= pair_texts(tickers@));
    entries
}

// ─── Method 2: rolling relative strength rankings ────────────────────────────

#[derive(Clone, Debug)]
pub struct RankEntry {
    pub ticker: String,
    pub name: String,
    pub rel_ret_20d: Double,
    pub rel_ret_63d: Double,
    pub rel_ret_126d: Double,
    pub rank_20d: usize,
    pub rank_63d: usize,
    pub rank_126d: usize,
    /// Rank change over the lookback window (positive: improved).
    pub rank_change: i32,
    /// "rising", "falling" or "stable".
    pub trend: String,
}

/// The return over a window, in percent, less that of the benchmark.
pub open spec fn relative_return<F: Fn(Operation) -> Double>(
    f: F,
    sector: Seq<Double>,
    bench: Seq<Double>,
    now: int,
    past: int,
) -> Double {
    minus(f, percent(f, sector[now], sector[past]), percent(f, bench[now], bench[past]))
}

fn return_over<F: Fn(Operation) -> Double>(
    sector: &Vec<Double>,
    bench: &Vec<Double>,
    now: usize,
    past: usize,
    f: &F,
) -> (r: Double)
    requires
        computes(*f),
        sector@.len() == bench@.len(),
        now < sector@.len(),
        past < sector@.len(),
    ensures
        r == relative_return(*f, sector@, bench@, now as int, past as int),
{
    let sr = percent_change(f, sector[now], sector[past]);
    let br = percent_change(f, bench[now], bench[past]);
    perform(f, Operation::Subtract(sr, br))
}

/// The relative return over a window that ended `offset` bars ago, rounded to
/// hundredths; zero where the history is too short.
pub open spec fn ranked_return<F: Fn(Operation) -> Double>(
    f: F,
    c: Candidate,
    window: usize,
    offset: usize,
) -> Double {
    let now = c.sector.len() - 1 - offset;
    if c.sector.len() < window + offset + 1 {
        double(ZERO)
    } else {
        hundredths(f, relative_return(f, c.sector, c.bench, now, now - window))
    }
}

fn ranked_return_of<F: Fn(Operation) -> Double>(
    sector: &Vec<Double>,
    bench: &Vec<Double>,
    window: usize,
    offset: usize,
    f: &F,
    Ghost(c): Ghost<Candidate>,
) -> (r: Double)
    requires
        computes(*f),
        sector@.len() == bench@.len(),
        c.sector == sector@,
        c.bench == bench@,
        window + offset + 1 <= usize::MAX,
    ensures
        r == ranked_return(*f, c, window, offset),
{
    let n = sector.len();
    if n < window + offset + 1 {
        return Double { bits: ZERO };
    }
    let now = n - 1 - offset;
    let past = now - window;
    let r = return_over(sector, bench, now, past, f);
    round2(f, r)
}

/// The returns of the candidates over a window.
pub open spec fn ranked_returns<F: Fn(Operation) -> Double>(
    f: F,
    cs: Seq<Candidate>,
    window: usize,
    offset: usize,
) -> Seq<Double> {
    cs.map_values(|c: Candidate| ranked_return(f, c, window, offset))
}

/// Three ranks up is a rise, three down a fall.
pub open spec fn trend_text(rank_change: int) -> Seq<char> {
    if rank_change >= 3 {
        "rising"@
    } else if rank_change <= -3 {
        "falling"@
    } else {
        "stable"@
    }
}

fn trend_of(rank_change: i32) -> (r: String)
    ensures
        r@ == trend_text(rank_change as int),
{
    if rank_change >= 3 {
        "rising".to_owned()
    } else if rank_change <= -3 {
        "falling".to_owned()
    } else {
        "stable".to_owned()
    }
}

/// The rank that an entry had at the start of the lookback window.
pub open spec fn past_rank(entry: RankEntry) -> int {
    entry.rank_20d + entry.rank_change
}

/// The entry states the candidate's relative returns, and its trend follows
/// from its rank change.
pub open spec fn is_rank_entry<F: Fn(Operation) -> Double>(f: F, c: Candidate, tf: Timeframe, entry: RankEntry) -> bool {
    &&& entry.ticker@ == c.ticker
    &&& entry.name@ == c.name
    &&& entry.rel_ret_20d == ranked_return(f, c, tf.win_short, 0)
    &&& entry.rel_ret_63d == ranked_return(f, c, tf.win_med, 0)
    &&& entry.rel_ret_126d == ranked_return(f, c, tf.win_long, 0)
    &&& entry.trend@ == trend_text(entry.rank_change as int)
}

/// One entry for each candidate, ranked by the returns over each window.
pub open spec fn is_rankings<F: Fn(Operation) -> Double>(
    f: F,
    cs: Seq<Candidate>,
    tf: Timeframe,
    out: Seq<RankEntry>,
) -> bool {
    &&& out.len() == cs.len()
    &&& forall|i: int| 0 <= i < out.len() ==> is_rank_entry(f, cs[i], tf, #[trigger] out[i])
    &&& is_ranking(ranked_returns(f, cs, tf.win_short, 0), out.map_values(|e: RankEntry| e.rank_20d))
    &&& is_ranking(ranked_returns(f, cs, tf.win_med, 0), out.map_values(|e: RankEntry| e.rank_63d))
    &&& is_ranking(ranked_returns(f, cs, tf.win_long, 0), out.map_values(|e: RankEntry| e.rank_126d))
    &&& forall|i: int| 0 <= i < out.len() ==> 0 <= past_rank(#[trigger] out[i]) <= usize::MAX
    &&& is_ranking(
        ranked_returns(f, cs, tf.win_short, tf.rank_change_lookback),
        out.map_values(|e: RankEntry| past_rank(e) as usize),
    )
}

/// What is known of a ticker before the ranks are.
struct Measured {
    ticker: String,
    name: String,
    rel_20: Double,
    rel_63: Double,
    rel_126: Double,
    rel_20_past: Double,
}

spec fn is_measured<F: Fn(Operation) -> Double>(f: F, c: Candidate, tf: Timeframe, m: Measured) -> bool {
    &&& m.ticker@ == c.ticker
    &&& m.name@ == c.name
    &&& m.rel_20 == ranked_return(f, c, tf.win_short, 0)
    &&& m.rel_63 == ranked_return(f, c, tf.win_med, 0)
    &&& m.rel_126 == ranked_return(f, c, tf.win_long, 0)
    &&& m.rel_20_past == ranked_return(f, c, tf.win_short, tf.rank_change_lookback)
}

impl Timeframe {
    /// The sums of windows that the rankings look at are machine numbers.
    pub open spec fn rank_windows_fit(self) -> bool {
        &&& self.rank_bars() <= usize::MAX
        &&& self.win_short + self.rank_change_lookback + 1 <= usize::MAX
        &&& self.win_med + 1 <= usize::MAX
    }
}

fn measure<F: Fn(Operation) -> Double>(
    prices: &PriceMap,
    benchmark: &str,
    tickers: &[(&str, &str)],
    tf: &Timeframe,
    f: &F,
) -> (r: Vec<Measured>)
    requires
        prices.wf(),
        computes(*f),
        tf.rank_windows_fit(),
    ensures
        r@.len() == candidates(all_series(*prices), benchmark@, pair_texts(tickers@), tf.rank_bars()).len(),
        forall|i: int|
            0 <= i < r@.len() ==> is_measured(
                *f,
                candidates(all_series(*prices), benchmark@, pair_texts(tickers@), tf.rank_bars())[i],
                *tf,
                #[trigger] r@[i],
            ),
{
    let ghost all = all_series(*prices);
    let mut temps: Vec<Measured> = Vec::new();
    let bench_series = match prices.get(benchmark) {
        Some(s) => s,
        None => {
            return temps;
        },
    };
    let least: usize = tf.win_long + tf.rank_change_lookback + 5;
    let mut i: usize = 0;
    while i < tickers.len()
        invariant
            prices.wf(),
            computes(*f),
            tf.rank_windows_fit(),
            all == all_series(*prices),
            all.contains_key(benchmark@),
            bench_series@ == all[benchmark@],
            least == tf.rank_bars(),
            i <= tickers@.len(),
            temps@.len() == candidates(all, benchmark@, pair_texts(tickers@).take(i as int), tf.rank_bars()).len(),
            forall|k: int|
                0 <= k < temps@.len() ==> is_measured(
                    *f,
                    candidates(all, benchmark@, pair_texts(tickers@).take(i as int), tf.rank_bars())[k],
                    *tf,
                    #[trigger] temps@[k],
                ),
        decreases tickers.len() - i,
    {
        let (ticker, name) = tickers[i];
        assert(pair_texts(tickers@).take(i + 1).drop_last() =~= pair_texts(tickers@).take(i as int));
        let ghost cs = candidates(all, benchmark@, pair_texts(tickers@).take(i as int), tf.rank_bars());
        let ghost next = candidates(all, benchmark@, pair_texts(tickers@).take(i + 1), tf.rank_bars());
        let ghost held = temps@;
        if let Some((sec, bch)) = candidate(prices, bench_series, ticker, least) {
            let ghost c = next.last();
            temps.push(
                Measured {
                    ticker: ticker.to_owned(),
                    name: name.to_owned(),
                    rel_20: ranked_return_of(&sec, &bch, tf.win_short, 0, f, Ghost(c)),
                    rel_63: ranked_return_of(&sec, &bch, tf.win_med, 0, f, Ghost(c)),
                    rel_126: ranked_return_of(&sec, &bch, tf.win_long, 0, f, Ghost(c)),
                    rel_20_past: ranked_return_of(&sec, &bch, tf.win_short, tf.rank_change_lookback, f, Ghost(c)),
                },
            );
            assert(next.drop_last() =~= cs);
            assert forall|k: int| 0 <= k < temps@.len() implies is_measured(*f, next[k], *tf, #[trigger] temps@[k]) by {
                if k < held.len() {
                    assert(temps@[k] == held[k]);
                }
            }
        }
        i += 1;
    }
    assert(pair_texts(tickers@).take(i as int) =~= pair_texts(tickers@));
    temps
}

/// The relative strength rankings of the tickers that have enough history.
pub fn compute_rankings<F: Fn(Operation) -> Double>(
    prices: &PriceMap,
    benchmark: &str,
    tickers: &[(&str, &str)],
    tf: &Timeframe,
    f: &F,
) -> (r: Vec<RankEntry>)
    requires
        prices.wf(),
        computes(*f),
        tf.rank_windows_fit(),
        tickers@.len() <= i32::MAX,
    ensures
        is_rankings(*f, candidates(all_series(*prices), benchmark@, pair_texts(tickers@), tf.rank_bars()), *tf, r@),
{
    let ghost cs = candidates(all_series(*prices), benchmark@, pair_texts(tickers@), tf.rank_bars());
    proof {
        lemma_candidates(all_series(*prices), benchmark@, pair_texts(tickers@), tf.rank_bars());
    }
    let temps = measure(prices, benchmark, tickers, tf, f);
    let n = temps.len();
    let mut rels_20: Vec<Double> = Vec::new();
    let mut rels_63: Vec<Double> = Vec::new();
    let mut rels_126: Vec<Double> = Vec::new();
    let mut rels_20p: Vec<Double> = Vec::new();
    let mut i: usize = 0;
    while i < n
        invariant
            n == temps@.len(),
            n == cs.len(),
            i <= n,
            forall|k: int| 0 <= k < n ==> is_measured(*f, cs[k], *tf, #[trigger] temps@[k]),
            rels_20@ == ranked_returns(*f, cs.take(i as int), tf.win_short, 0),
            rels_63@ == ranked_returns(*f, cs.take(i as int), tf.win_med, 0),
            rels_126@ == ranked_returns(*f, cs.take(i as int), tf.win_long, 0),
            rels_20p@ == ranked_returns(*f, cs.take(i as int), tf.win_short, tf.rank_change_lookback),
        decreases n - i,
    {
        assert(is_measured(*f, cs[i as int], *tf, temps@[i as int]));
        rels_20.push(temps[i].rel_20);
        rels_63.push(temps[i].rel_63);
        rels_126.push(temps[i].rel_126);
        rels_20p.push(temps[i].rel_20_past);
        i += 1;
        assert(rels_20@ =~= ranked_returns(*f, cs.take(i as int), tf.win_short, 0));
        assert(rels_63@ =~= ranked_returns(*f, cs.take(i as int), tf.win_med, 0));
        assert(rels_126@ =~= ranked_returns(*f, cs.take(i as int), tf.win_long, 0));
        assert(rels_20p@ =~= ranked_returns(*f, cs.take(i as int), tf.win_short, tf.rank_change_lookback));
    }
    assert(cs.take(i as int) =~= cs);
    let ranks_20 = rank_descending(&rels_20);
    let ranks_63 = rank_descending(&rels_63);
    let ranks_126 = rank_descending(&rels_126);
    let ranks_20_past = rank_descending(&rels_20p);
    let mut r: Vec<RankEntry> = Vec::new();
    let mut i: usize = 0;
    while i < n
        invariant
            n == temps@.len(),
            n == cs.len(),
            n <= i32::MAX,
            i <= n,
            forall|k: int| 0 <= k < n ==> is_measured(*f, cs[k], *tf, #[trigger] temps@[k]),
            ranks_20@.len() == n,
            ranks_63@.len() == n,
            ranks_126@.len() == n,
            ranks_20_past@.len() == n,
            forall|k: int| 0 <= k < n ==> 1 <= #[trigger] ranks_20@[k] <= n,
            forall|k: int| 0 <= k < n ==> 1 <= #[trigger] ranks_20_past@[k] <= n,
            r@.len() == i,
            forall|k: int|
                0 <= k < i ==> is_rank_entry(*f, cs[k], *tf, #[trigger] r@[k]) && r@[k].rank_20d == ranks_20@[k]
                    && r@[k].rank_63d == ranks_63@[k] && r@[k].rank_126d == ranks_126@[k] && past_rank(r@[k])
                    == ranks_20_past@[k],
        decreases n - i,
    {
        assert(is_measured(*f, cs[i as int], *tf, temps@[i as int]));
        let rank_now: i32 = ranks_20[i] as i32;
        let rank_past: i32 = ranks_20_past[i] as i32;
        let rank_change: i32 = rank_past - rank_now;
        r.push(
            RankEntry {
                ticker: temps[i].ticker.clone(),
                name: temps[i].name.clone(),
                rel_ret_20d: temps[i].rel_20,
                rel_ret_63d: temps[i].rel_63,
                rel_ret_126d: temps[i].rel_126,
                rank_20d: ranks_20[i],
                rank_63d: ranks_63[i],
                rank_126d: ranks_126[i],
                rank_change,
                trend: trend_of(rank_change),
            },
        );
        i += 1;
    }
    assert(r@.map_values(|e: RankEntry| e.rank_20d) =~= ranks_20@);
    assert(r@.map_values(|e: RankEntry| e.rank_63d) =~= ranks_63@);
    assert(r@.map_values(|e: RankEntry| e.rank_126d) =~= ranks_126@);
    assert(r@.map_values(|e: RankEntry| past_rank(e) as usize) =~= ranks_20_past@);
    r
}

// ─── Method 3: cross-sectional momentum z-score ──────────────────────────────

#[derive(Clone, Debug)]
pub struct ZScoreEntry {
    pub ticker: String,
    pub name: String,
    pub z_short: Double,
    pub z_long: Double,
    /// "leader", "improving", "lagging", "reverting" or "neutral".
    pub signal: String,
}

/// The relative return over the last `window` bars.
pub open spec fn scored_return<F: Fn(Operation) -> Double>(f: F, c: Candidate, window: usize) -> Double {
    relative_return(f, c.sector, c.bench, c.sector.len() - 1, c.sector.len() - 1 - window)
}

/// The returns of the candidates over a window.
pub open spec fn scored_returns<F: Fn(Operation) -> Double>(f: F, cs: Seq<Candidate>, window: usize) -> Seq<Double> {
    cs.map_values(|c: Candidate| scored_return(f, c, window))
}

/// What the two scores together say.
pub open spec fn signal_text(zs: Double, zl: Double) -> Seq<char> {
    if double(THREE_HALVES).below(zs) && double(HALF).below(zl) {
        "leader"@
    } else if double(HALF).below(zs) && zl.below(double(ZERO)) {
        "improving"@
    } else if zs.below(double(MINUS_THREE_HALVES)) && zl.below(double(MINUS_HALF)) {
        "lagging"@
    } else if double(ZERO).below(zs) && zl.below(double(MINUS_THREE_HALVES)) {
        "reverting"@
    } else {
        "neutral"@
    }
}

/// The signal of a short and a long score.
pub fn classify_signal(zs: Double, zl: Double) -> (r: String)
    ensures
        r@ == signal_text(zs, zl),
{
    let zero = Double { bits: ZERO };
    let half = Double { bits: HALF };
    let three_halves = Double { bits: THREE_HALVES };
    let minus_half = Double { bits: MINUS_HALF };
    let minus_three_halves = Double { bits: MINUS_THREE_HALVES };
    if three_halves.less_than(zs) && half.less_than(zl) {
        "leader".to_owned()
    } else if half.less_than(zs) && zl.less_than(zero) {
        "improving".to_owned()
    } else if zs.less_than(minus_three_halves) && zl.less_than(minus_half) {
        "lagging".to_owned()
    } else if zero.less_than(zs) && zl.less_than(minus_three_halves) {
        "reverting".to_owned()
    } else {
        "neutral".to_owned()
    }
}

/// One entry for each candidate: its standard scores among all of them,
/// rounded to hundredths, and the signal of those.
pub open spec fn is_zscores<F: Fn(Operation) -> Double>(
    f: F,
    cs: Seq<Candidate>,
    tf: Timeframe,
    out: Seq<ZScoreEntry>,
) -> bool {
    &&& out.len() == cs.len()
    &&& forall|i: int|
        0 <= i < out.len() ==> {
            &&& (#[trigger] out[i]).ticker@ == cs[i].ticker
            &&& out[i].name@ == cs[i].name
            &&& out[i].z_short == hundredths(f, standard_scores(f, scored_returns(f, cs, tf.z_short))[i])
            &&& out[i].z_long == hundredths(f, standard_scores(f, scored_returns(f, cs, tf.z_long))[i])
            &&& out[i].signal@ == signal_text(out[i].z_short, out[i].z_long)
        }
}

/// The short window fits into the history of every candidate.
pub open spec fn zscore_window_fits(cs: Seq<Candidate>, tf: Timeframe) -> bool {
    forall|i: int| 0 <= i < cs.len() ==> tf.z_short < (#[trigger] cs[i]).sector.len()
}

/// A short window no longer than the long one by more than four bars fits.
pub proof fn lemma_zscore_window_fits(
    all: Map<Seq<char>, Seq<(Date, Double)>>,
    benchmark: Seq<char>,
    tickers: Seq<(Seq<char>, Seq<char>)>,
    tf: Timeframe,
)
    requires
        tf.z_short <= tf.z_long + 4,
    ensures
        zscore_window_fits(candidates(all, benchmark, tickers, tf.zscore_bars()), tf),
{
    lemma_candidates(all, benchmark, tickers, tf.zscore_bars());
}

proof fn lemma_candidates_prefix(
    all: Map<Seq<char>, Seq<(Date, Double)>>,
    benchmark: Seq<char>,
    tickers: Seq<(Seq<char>, Seq<char>)>,
    least: int,
    k: int,
)
    requires
        0 <= k <= tickers.len(),
    ensures
        candidates(all, benchmark, tickers.take(k), least).len() <= candidates(all, benchmark, tickers, least).len(),
        candidates(all, benchmark, tickers.take(k), least) == candidates(all, benchmark, tickers, least).take(
            candidates(all, benchmark, tickers.take(k), least).len() as int,
        ),
    decreases tickers.len() - k,
{
    let part = candidates(all, benchmark, tickers.take(k), least);
    let whole = candidates(all, benchmark, tickers, least);
    if k == tickers.len() {
        assert(tickers.take(k) =~= tickers);
        assert(part =~= whole.take(part.len() as int));
    } else {
        lemma_candidates_prefix(all, benchmark, tickers, least, k + 1);
        let next = candidates(all, benchmark, tickers.take(k + 1), least);
        assert(tickers.take(k + 1).drop_last() =~= tickers.take(k));
        assert(part =~= next.take(part.len() as int));
        assert(part =~= whole.take(part.len() as int));
    }
}

/// The momentum z-scores of the tickers that have enough history.
pub fn compute_zscores<F: Fn(Operation) -> Double>(
    prices: &PriceMap,
    benchmark: &str,
    tickers: &[(&str, &str)],
    tf: &Timeframe,
    f: &F,
) -> (r: Vec<ZScoreEntry>)
    requires
        prices.wf(),
        computes(*f),
        tf.zscore_bars() <= usize::MAX,
        zscore_window_fits(candidates(all_series(*prices), benchmark@, pair_texts(tickers@), tf.zscore_bars()), *tf),
    ensures
        is_zscores(*f, candidates(all_series(*prices), benchmark@, pair_texts(tickers@), tf.zscore_bars()), *tf, r@),
{
    let ghost all = all_series(*prices);
    let ghost whole = candidates(all, benchmark@, pair_texts(tickers@), tf.zscore_bars());
    let mut r: Vec<ZScoreEntry> = Vec::new();
    let bench_series = match prices.get(benchmark) {
        Some(s) => s,
        None => {
            return r;
        },
    };
    let least: usize = tf.z_long + 5;
    let mut names: Vec<(&str, &str)> = Vec::new();
    let mut rels_short: Vec<Double> = Vec::new();
    let mut rels_long: Vec<Double> = Vec::new();
    let mut i: usize = 0;
    while i < tickers.len()
        invariant
            prices.wf(),
            computes(*f),
            all == all_series(*prices),
            all.contains_key(benchmark@),
            bench_series@ == all[benchmark@],
            least == tf.zscore_bars(),
            whole == candidates(all, benchmark@, pair_texts(tickers@), tf.zscore_bars()),
            zscore_window_fits(whole, *tf),
            i <= tickers@.len(),
            names@.len() == candidates(all, benchmark@, pair_texts(tickers@).take(i as int), tf.zscore_bars()).len(),
            forall|k: int|
                0 <= k < names@.len() ==> (#[trigger] names@[k]).0@ == candidates(
                    all,
                    benchmark@,
                    pair_texts(tickers@).take(i as int),
                    tf.zscore_bars(),
                )[k].ticker && names@[k].1@ == candidates(
                    all,
                    benchmark@,
                    pair_texts(tickers@).take(i as int),
                    tf.zscore_bars(),
                )[k].name,
            rels_short@ == scored_returns(
                *f,
                candidates(all, benchmark@, pair_texts(tickers@).take(i as int), tf.zscore_bars()),
                tf.z_short,
            ),
            rels_long@ == scored_returns(
                *f,
                candidates(all, benchmark@, pair_texts(tickers@).take(i as int), tf.zscore_bars()),
                tf.z_long,
            ),
        decreases tickers.len() - i,
    {
        let (ticker, name) = tickers[i];
        assert(pair_texts(tickers@).take(i + 1).drop_last() =~= pair_texts(tickers@).take(i as int));
        let ghost cs = candidates(all, benchmark@, pair_texts(tickers@).take(i as int), tf.zscore_bars());
        let ghost next = candidates(all, benchmark@, pair_texts(tickers@).take(i + 1), tf.zscore_bars());
        let ghost held = names@;
        if let Some((sec, bch)) = candidate(prices, bench_series, ticker, least) {
            let n = sec.len();
            proof {
                lemma_candidates_prefix(all, benchmark@, pair_texts(tickers@), tf.zscore_bars(), i + 1);
                assert(next.last() == whole[next.len() - 1]);
                assert(next.drop_last() =~= cs);
            }
            rels_short.push(return_over(&sec, &bch, n - 1, n - 1 - tf.z_short, f));
            rels_long.push(return_over(&sec, &bch, n - 1, n - 1 - tf.z_long, f));
            names.push((ticker, name));
            assert(rels_short@ =~= scored_returns(*f, next, tf.z_short));
            assert(rels_long@ =~= scored_returns(*f, next, tf.z_long));
            assert forall|k: int| 0 <= k < names@.len() implies (#[trigger] names@[k]).0@ == next[k].ticker
                && names@[k].1@ == next[k].name by {
                if k < held.len() {
                    assert(names@[k] == held[k]);
                }
            }
        }
        i += 1;
    }
    assert(pair_texts(tickers@).take(i as int) =~= pair_texts(tickers@));
    let z_shorts = zscore_vec(&rels_short, f);
    let z_longs = zscore_vec(&rels_long, f);
    let n = names.len();
    let mut i: usize = 0;
    while i < n
        invariant
            computes(*f),
            n == names@.len(),
            n == whole.len(),
            i <= n,
            z_shorts@ == standard_scores(*f, scored_returns(*f, whole, tf.z_short)),
            z_longs@ == standard_scores(*f, scored_returns(*f, whole, tf.z_long)),
            forall|k: int|
                0 <= k < n ==> (#[trigger] names@[k]).0@ == whole[k].ticker && names@[k].1@ == whole[k].name,
            r@.len() == i,
            forall|k: int|
                0 <= k < i ==> {
                    &&& (#[trigger] r@[k]).ticker@ == whole[k].ticker
                    &&& r@[k].name@ == whole[k].name
                    &&& r@[k].z_short == hundredths(*f, z_shorts@[k])
                    &&& r@[k].z_long == hundredths(*f, z_longs@[k])
                    &&& r@[k].signal@ == signal_text(r@[k].z_short, r@[k].z_long)
                },
        decreases n - i,
    {
        let (ticker, name) = names[i];
        let zs = round2(f, z_shorts[i]);
        let zl = round2(f, z_longs[i]);
        r.push(
            ZScoreEntry {
                ticker: ticker.to_owned(),
                name: name.to_owned(),
                z_short: zs,
                z_long: zl,
                signal: classify_signal(zs, zl),
            },
        );
        i += 1;
    }
    r
}

// ─── Convergence: the three methods together ─────────────────────────────────

#[derive(Clone, Debug)]
pub struct ConvergenceEntry {
    pub ticker: String,
    pub name: String,
    pub rrg_signal: bool,
    pub rank_signal: bool,
    pub zscore_signal: bool,
    /// "high", "medium" or "low".
    pub confidence: String,
}

/// The sector is improving or leading, and its ratio is going up.
pub open spec fn rotates_in(entry: RrgEntry) -> bool {
    let n = entry.tail@.len();
    &&& entry.quadrant@ == "Improving"@ || entry.quadrant@ == "Leading"@
    &&& n >= 2
    &&& entry.tail@[n - 2].rs_ratio.below(entry.tail@[n - 1].rs_ratio)
}

/// The sector has gained two ranks or more.
pub open spec fn climbs(entry: RankEntry) -> bool {
    entry.rank_change >= 2
}

/// The scores speak for the sector.
pub open spec fn scores_well(entry: ZScoreEntry) -> bool {
    entry.signal@ == "leader"@ || entry.signal@ == "improving"@ || entry.signal@ == "reverting"@
}

/// All three signals make high confidence, two of them medium.
pub open spec fn confidence_text(a: bool, b: bool, c: bool) -> Seq<char> {
    if a && b && c {
        "high"@
    } else if (a && b) || (a && c) || (b && c) {
        "medium"@
    } else {
        "low"@
    }
}

/// The entry weighs the three signals of a sector.
pub open spec fn is_convergence_entry(r: RrgEntry, rank: RankEntry, z: ZScoreEntry, entry: ConvergenceEntry) -> bool {
    &&& entry.ticker@ == r.ticker@
    &&& entry.name@ == r.name@
    &&& entry.rrg_signal == rotates_in(r)
    &&& entry.rank_signal == climbs(rank)
    &&& entry.zscore_signal == scores_well(z)
    &&& entry.confidence@ == confidence_text(entry.rrg_signal, entry.rank_signal, entry.zscore_signal)
}

/// The sector is known to all three methods.
pub open spec fn known_to_all(
    r: RrgEntry,
    rankings: Seq<RankEntry>,
    zscores: Seq<ZScoreEntry>,
) -> bool {
    last_place(rankings, r.ticker@) is Some && last_place(zscores, r.ticker@) is Some
}

/// One entry for each sector of the graph that all three methods know, in the
/// order of the graph.
pub open spec fn is_convergence(
    rrg: Seq<RrgEntry>,
    rankings: Seq<RankEntry>,
    zscores: Seq<ZScoreEntry>,
    out: Seq<ConvergenceEntry>,
) -> bool {
    let known = rrg.filter(|r: RrgEntry| known_to_all(r, rankings, zscores));
    &&& out.len() == known.len()
    &&& forall|i: int|
        0 <= i < out.len() ==> is_convergence_entry(
            known[i],
            rankings[last_place(rankings, known[i].ticker@)->0],
            zscores[last_place(zscores, known[i].ticker@)->0],
            #[trigger] out[i],
        )
}

fn weigh(r: &RrgEntry, rank: &RankEntry, z: &ZScoreEntry) -> (entry: ConvergenceEntry)
    ensures
        is_convergence_entry(*r, *rank, *z, entry),
{
    let n = r.tail.len();
    let strong = same_text(r.quadrant.as_str(), "Improving") || same_text(r.quadrant.as_str(), "Leading");
    let rrg_signal = strong && n >= 2 && r.tail[n - 2].rs_ratio.less_than(r.tail[n - 1].rs_ratio);
    let rank_signal = rank.rank_change >= 2;
    let signal = z.signal.as_str();
    let zscore_signal = same_text(signal, "leader") || same_text(signal, "improving") || same_text(signal, "reverting");
    let mut score: u8 = 0;
    if rrg_signal {
        score += 1;
    }
    if rank_signal {
        score += 1;
    }
    if zscore_signal {
        score += 1;
    }
    let confidence = match score {
        3 => "high".to_owned(),
        2 => "medium".to_owned(),
        _ => "low".to_owned(),
    };
    ConvergenceEntry {
        ticker: r.ticker.clone(),
        name: r.name.clone(),
        rrg_signal,
        rank_signal,
        zscore_signal,
        confidence,
    }
}

/// Weighs the signals of the three methods, sector by sector.
pub fn compute_convergence(rrg: &[RrgEntry], rankings: &[RankEntry], zscores: &[ZScoreEntry]) -> (r: Vec<
    ConvergenceEntry,
>)
    ensures
        is_convergence(rrg@, rankings@, zscores@, r@),
{
    let mut r: Vec<ConvergenceEntry> = Vec::new();
    let mut i: usize = 0;
    proof {
        reveal(Seq::filter);
    }
    while i < rrg.len()
        invariant
            i <= rrg@.len(),
            is_convergence(rrg@.take(i as int), rankings@, zscores@, r@),
        decreases rrg.len() - i,
    {
        let ghost pred = |e: RrgEntry| known_to_all(e, rankings@, zscores@);
        let ghost known = rrg@.take(i as int).filter(pred);
        let ghost next = rrg@.take(i + 1).filter(pred);
        let ghost held = r@;
        proof {
            reveal(Seq::filter);
            assert(rrg@.take(i + 1).drop_last() =~= rrg@.take(i as int));
        }
        let ticker = rrg[i].ticker.as_str();
        if let (Some(a), Some(b)) = (find_last(rankings, ticker), find_last(zscores, ticker)) {
            r.push(weigh(&rrg[i], &rankings[a], &zscores[b]));
            assert(next == known.push(rrg@[i as int]));
            assert forall|k: int| 0 <= k < r@.len() implies is_convergence_entry(
                next[k],
                rankings@[last_place(rankings@, next[k].ticker@)->0],
                zscores@[last_place(zscores@, next[k].ticker@)->0],
                #[trigger] r@[k],
            ) by {
                if k < held.len() {
                    assert(r@[k] == held[k]);
                }
            }
        }
        i += 1;
    }
    assert(rrg@.take(i as int) =~= rrg@);
    r
}

// ─── Laws ────────────────────────────────────────────────────────────────────

/// A candidate is one of the tickers asked for, under its name, and shares
/// enough dates with the benchmark.
pub proof fn candidates_have_enough_history(
    all: Map<Seq<char>, Seq<(Date, Double)>>,
    benchmark: Seq<char>,
    tickers: Seq<(Seq<char>, Seq<char>)>,
    least: int,
    i: int,
)
    requires
        0 <= i < candidates(all, benchmark, tickers, least).len(),
    ensures
        ({
            let c = candidates(all, benchmark, tickers, least)[i];
            &&& tickers.contains((c.ticker, c.name))
            &&& all.contains_key(benchmark)
            &&& all.contains_key(c.ticker)
            &&& shared(all[c.ticker], all[benchmark]).len() >= least
        }),
    decreases tickers.len(),
{
    let shorter = tickers.drop_last();
    let c = candidates(all, benchmark, tickers, least)[i];
    if i < candidates(all, benchmark, shorter, least).len() {
        candidates_have_enough_history(all, benchmark, shorter, least, i);
        let k = choose|k: int| 0 <= k < shorter.len() && shorter[k] == (c.ticker, c.name);
        assert(tickers[k] == (c.ticker, c.name));
    } else {
        assert(tickers[tickers.len() - 1] == (c.ticker, c.name));
    }
}

/// A ticker asked for that shares enough dates with the benchmark is a
/// candidate.
pub proof fn enough_history_makes_a_candidate(
    all: Map<Seq<char>, Seq<(Date, Double)>>,
    benchmark: Seq<char>,
    tickers: Seq<(Seq<char>, Seq<char>)>,
    least: int,
    k: int,
)
    requires
        0 <= k < tickers.len(),
        all.contains_key(benchmark),
        all.contains_key(tickers[k].0),
        shared(all[tickers[k].0], all[benchmark]).len() >= least,
    ensures
        exists|i: int|
            0 <= i < candidates(all, benchmark, tickers, least).len() && (#[trigger] candidates(
                all,
                benchmark,
                tickers,
                least,
            )[i]).ticker == tickers[k].0,
    decreases tickers.len(),
{
    let cs = candidates(all, benchmark, tickers, least);
    let shorter = tickers.drop_last();
    if k < shorter.len() {
        enough_history_makes_a_candidate(all, benchmark, shorter, least, k);
        let rest = candidates(all, benchmark, shorter, least);
        let i = choose|i: int| 0 <= i < rest.len() && (#[trigger] rest[i]).ticker == shorter[k].0;
        assert(cs[i].ticker == tickers[k].0);
    } else {
        assert(cs[cs.len() - 1].ticker == tickers[k].0);
    }
}

/// The candidates of two lists put together are those of the one followed by
/// those of the other.
pub proof fn candidates_of_joined_lists(
    all: Map<Seq<char>, Seq<(Date, Double)>>,
    benchmark: Seq<char>,
    a: Seq<(Seq<char>, Seq<char>)>,
    b: Seq<(Seq<char>, Seq<char>)>,
    least: int,
)
    ensures
        candidates(all, benchmark, a + b, least) == candidates(all, benchmark, a, least) + candidates(
            all,
            benchmark,
            b,
            least,
        ),
    decreases b.len(),
{
    let left = candidates(all, benchmark, a, least);
    let right = candidates(all, benchmark, b, least);
    if b.len() == 0 {
        assert(a + b =~= a);
        assert(left + right =~= left);
    } else {
        assert((a + b).drop_last() =~= a + b.drop_last());
        candidates_of_joined_lists(all, benchmark, a, b.drop_last(), least);
        assert(candidates(all, benchmark, a + b, least) =~= left + right);
    }
}

/// Two entries of the rotation graph show the same.
pub open spec fn same_rrg_entry(x: RrgEntry, y: RrgEntry) -> bool {
    &&& x.ticker@ == y.ticker@
    &&& x.name@ == y.name@
    &&& x.current == y.current
    &&& x.tail@ == y.tail@
    &&& x.quadrant@ == y.quadrant@
}

/// The rotation graph of two lists put together is the one graph followed by
/// the other: an entry depends on its own series and the benchmark's alone.
pub proof fn graph_of_joined_lists<F: Fn(Operation) -> Double>(
    f: F,
    all: Map<Seq<char>, Seq<(Date, Double)>>,
    benchmark: Seq<char>,
    a: Seq<(Seq<char>, Seq<char>)>,
    b: Seq<(Seq<char>, Seq<char>)>,
    tf: Timeframe,
    of_a: Seq<RrgEntry>,
    of_b: Seq<RrgEntry>,
    of_both: Seq<RrgEntry>,
)
    requires
        is_rrg(f, candidates(all, benchmark, a, tf.rrg_bars()), tf, of_a),
        is_rrg(f, candidates(all, benchmark, b, tf.rrg_bars()), tf, of_b),
        is_rrg(f, candidates(all, benchmark, a + b, tf.rrg_bars()), tf, of_both),
    ensures
        is_rrg(f, candidates(all, benchmark, a + b, tf.rrg_bars()), tf, of_a + of_b),
        of_both.len() == of_a.len() + of_b.len(),
        forall|i: int| 0 <= i < of_both.len() ==> same_rrg_entry(#[trigger] of_both[i], (of_a + of_b)[i]),
{
    let (x, y) = (
        candidates(all, benchmark, a, tf.rrg_bars()),
        candidates(all, benchmark, b, tf.rrg_bars()),
    );
    let joined = of_a + of_b;
    candidates_of_joined_lists(all, benchmark, a, b, tf.rrg_bars());
    assert forall|i: int| 0 <= i < joined.len() implies is_rrg_entry(f, (x + y)[i], tf, #[trigger] joined[i]) by {
        if i < of_a.len() {
            assert(joined[i] == of_a[i] && (x + y)[i] == x[i]);
        } else {
            let k = i - of_a.len();
            assert(joined[i] == of_b[k] && (x + y)[i] == y[k]);
        }
    }
    assert forall|i: int| 0 <= i < of_both.len() implies same_rrg_entry(#[trigger] of_both[i], joined[i]) by {
        assert(is_rrg_entry(f, (x + y)[i], tf, of_both[i]));
        assert(is_rrg_entry(f, (x + y)[i], tf, joined[i]));
    }
}

/// A point lies in one quadrant, and the quadrant tells on which side of 100
/// ratio and momentum stand.
pub proof fn quadrants_part_the_plane(ratio: Double, momentum: Double)
    ensures
        ({
            let strong = ratio.reaches(double(HUNDRED));
            let rising = momentum.reaches(double(HUNDRED));
            &&& quadrant_text(ratio, momentum) == "Leading"@ <==> strong && rising
            &&& quadrant_text(ratio, momentum) == "Weakening"@ <==> strong && !rising
            &&& quadrant_text(ratio, momentum) == "Lagging"@ <==> !strong && !rising
            &&& quadrant_text(ratio, momentum) == "Improving"@ <==> !strong && rising
        }),
{
    reveal_strlit("Leading");
    reveal_strlit("Weakening");
    reveal_strlit("Lagging");
    reveal_strlit("Improving");
    assert("Leading"@[1] != "Lagging"@[1]);
    assert("Weakening"@[0] != "Improving"@[0]);
    assert("Leading"@.len() != "Weakening"@.len() && "Leading"@.len() != "Improving"@.len());
    assert("Lagging"@.len() != "Weakening"@.len() && "Lagging"@.len() != "Improving"@.len());
}

/// A rise is a gain of three ranks or more, a fall a loss of as many.
pub proof fn trends_follow_ranks(entry: RankEntry)
    requires
        entry.trend@ == trend_text(entry.rank_change as int),
    ensures
        entry.trend@ == "rising"@ <==> entry.rank_20d + 3 <= past_rank(entry),
        entry.trend@ == "falling"@ <==> past_rank(entry) + 3 <= entry.rank_20d,
        entry.trend@ == "stable"@ <==> past_rank(entry) - 3 < entry.rank_20d < past_rank(entry) + 3,
{
    reveal_strlit("rising");
    reveal_strlit("falling");
    reveal_strlit("stable");
    assert("rising"@[0] != "stable"@[0]);
    assert("rising"@.len() != "falling"@.len() && "stable"@.len() != "falling"@.len());
}

/// The scores speak for a sector that is strong over both windows, that has
/// turned strong over the short one, or that comes back from far below.
pub proof fn good_scores(entry: ZScoreEntry)
    requires
        entry.signal@ == signal_text(entry.z_short, entry.z_long),
    ensures
        scores_well(entry) <==> {
            ||| double(THREE_HALVES).below(entry.z_short) && double(HALF).below(entry.z_long)
            ||| double(HALF).below(entry.z_short) && entry.z_long.below(double(ZERO))
            ||| double(ZERO).below(entry.z_short) && entry.z_long.below(double(MINUS_THREE_HALVES))
        },
{
    reveal_strlit("leader");
    reveal_strlit("improving");
    reveal_strlit("lagging");
    reveal_strlit("reverting");
    reveal_strlit("neutral");
    assert("leader"@.len() == 6 && "improving"@.len() == 9 && "reverting"@.len() == 9);
    assert("lagging"@.len() == 7 && "neutral"@.len() == 7);
    named_numbers();
    vstd::arithmetic::power2::lemma_pow2_pos(1074);
}

/// The number of signals that speak for a sector.
pub open spec fn signal_count(a: bool, b: bool, c: bool) -> int {
    (if a { 1int } else { 0int }) + (if b { 1int } else { 0int }) + (if c { 1int } else { 0int })
}

/// Confidence is high with three signals, medium with two, and low with fewer.
pub proof fn confidence_counts_signals(a: bool, b: bool, c: bool)
    ensures
        confidence_text(a, b, c) == "high"@ <==> signal_count(a, b, c) == 3,
        confidence_text(a, b, c) == "medium"@ <==> signal_count(a, b, c) == 2,
        confidence_text(a, b, c) == "low"@ <==> signal_count(a, b, c) <= 1,
{
    reveal_strlit("high");
    reveal_strlit("medium");
    reveal_strlit("low");
    assert("high"@.len() == 4 && "medium"@.len() == 6 && "low"@.len() == 3);
}

/// The z-scores take no more bars than the rankings, and those no more than the
/// rotation graph.
pub open spec fn windows_nest(tf: Timeframe) -> bool {
    tf.zscore_bars() <= tf.rank_bars() && tf.rank_bars() <= tf.rrg_bars()
}

/// The windows of both timeframes nest.
pub proof fn timeframes_nest()
    ensures
        windows_nest(daily_timeframe()),
        windows_nest(weekly_timeframe()),
{
}

proof fn lemma_filter_all<A>(s: Seq<A>, pred: spec_fn(A) -> bool)
    requires
        forall|i: int| 0 <= i < s.len() ==> pred(#[trigger] s[i]),
    ensures
        s.filter(pred) == s,
    decreases s.len(),
{
    reveal(Seq::filter);
    if s.len() > 0 {
        let shorter = s.drop_last();
        assert forall|i: int| 0 <= i < shorter.len() implies pred(#[trigger] shorter[i]) by {
            assert(pred(s[i]));
        }
        lemma_filter_all(shorter, pred);
        assert(pred(s[s.len() - 1]));
        assert(shorter.push(s.last()) =~= s);
    }
    assert(s.filter(pred) =~= s);
}

/// Where the windows nest, every sector of the rotation graph is known to the
/// other methods too, so that each of them is weighed, in the order of the
/// graph.
pub proof fn every_graph_entry_is_weighed<F: Fn(Operation) -> Double>(
    f: F,
    all: Map<Seq<char>, Seq<(Date, Double)>>,
    benchmark: Seq<char>,
    tickers: Seq<(Seq<char>, Seq<char>)>,
    tf: Timeframe,
    rrg: Seq<RrgEntry>,
    rankings: Seq<RankEntry>,
    zscores: Seq<ZScoreEntry>,
    out: Seq<ConvergenceEntry>,
)
    requires
        windows_nest(tf),
        is_rrg(f, candidates(all, benchmark, tickers, tf.rrg_bars()), tf, rrg),
        is_rankings(f, candidates(all, benchmark, tickers, tf.rank_bars()), tf, rankings),
        is_zscores(f, candidates(all, benchmark, tickers, tf.zscore_bars()), tf, zscores),
        is_convergence(rrg, rankings, zscores, out),
    ensures
        out.len() == rrg.len(),
        forall|i: int| 0 <= i < out.len() ==> (#[trigger] out[i]).ticker@ == rrg[i].ticker@,
{
    let graphed = candidates(all, benchmark, tickers, tf.rrg_bars());
    let ranked = candidates(all, benchmark, tickers, tf.rank_bars());
    let scored = candidates(all, benchmark, tickers, tf.zscore_bars());
    let pred = |r: RrgEntry| known_to_all(r, rankings, zscores);
    assert forall|i: int| 0 <= i < rrg.len() implies pred(#[trigger] rrg[i]) by {
        assert(is_rrg_entry(f, graphed[i], tf, rrg[i]));
        let c = graphed[i];
        candidates_have_enough_history(all, benchmark, tickers, tf.rrg_bars(), i);
        let k = choose|k: int| 0 <= k < tickers.len() && tickers[k] == (c.ticker, c.name);
        enough_history_makes_a_candidate(all, benchmark, tickers, tf.rank_bars(), k);
        enough_history_makes_a_candidate(all, benchmark, tickers, tf.zscore_bars(), k);
        let a = choose|a: int| 0 <= a < ranked.len() && (#[trigger] ranked[a]).ticker == tickers[k].0;
        let b = choose|b: int| 0 <= b < scored.len() && (#[trigger] scored[b]).ticker == tickers[k].0;
        assert(is_rank_entry(f, ranked[a], tf, rankings[a]));
        assert(rankings[a].ticker_text() == c.ticker);
        assert(zscores[b].ticker_text() == c.ticker);
        lemma_last_place(rankings, c.ticker);
        lemma_last_place(zscores, c.ticker);
    }
    lemma_filter_all(rrg, pred);
}

// ─── Tickers of the entries ──────────────────────────────────────────────────

impl Tickered for RrgEntry {
    open spec fn ticker_text(&self) -> Seq<char> {
        self.ticker@
    }

    fn ticker_name(&self) -> &str {
        self.ticker.as_str()
    }
}

impl Tickered for RankEntry {
    open spec fn ticker_text(&self) -> Seq<char> {
        self.ticker@
    }

    fn ticker_name(&self) -> &str {
        self.ticker.as_str()
    }
}

impl Tickered for ZScoreEntry {
    open spec fn ticker_text(&self) -> Seq<char> {
        self.ticker@
    }

    fn ticker_name(&self) -> &str {
        self.ticker.as_str()
    }
}

impl Tickered for ConvergenceEntry {
    open spec fn ticker_text(&self) -> Seq<char> {
        self.ticker@
    }

    fn ticker_name(&self) -> &str {
        self.ticker.as_str()
    }
}

} // verus!
