//! Laws of the service: which histories are used and shown, how answers are
//! listed, what is fetched, and what is read back.
use vstd::prelude::*;

use crate::arithmetic::{over, result, times, Operation};
use crate::cache::dates_given;
use crate::calendar::{day_of_second, is_date_text, moments_have_their_own_text, valid_day, Date, Instant};
use crate::compute::{
    candidates, candidates_have_enough_history, daily_timeframe, enough_history_makes_a_candidate, is_convergence,
    is_convergence_entry, is_rank_entry, is_rankings, is_rrg, is_rrg_entry, is_zscores, known_to_all, weekly_timeframe,
    ConvergenceEntry, RankEntry, RrgEntry, Timeframe, ZScoreEntry,
};
use crate::config::{first_name, flattened, pairs_of, Config, TickerEntry};
use crate::data::{
    alignment_joins_dates, all_series, counterpart, lemma_week_close, lemma_weekly, price_on, shared, week_of, weekly,
};
use crate::fetch::{
    after_cutoff, daily_points, daily_prices, fetched, is_due, is_plan, may_pass, plans_cover_due_tickers, url_text,
    FetchError, FetchEvent, FetchJob, YfResult,
};
use crate::handlers::{
    asked_entries, asked_prices, asked_timeframe, asks_weekly, confidence_rank, convergence_of, first_of, in_bars,
    is_listed_by_score, is_price_history, is_sector_node, is_sorted_by, is_stamp, node_pairs, peers, rankings_of,
    rrg_of, short_scores, shown_name, sorted_keys_go_up, zscores_of, AppState, LayerQuery, PricePoint, SectorNode,
};
use crate::laws::{keeps_order, positive, rounding, rounding_keeps_order};
use crate::number::{double, named_numbers, Double, HUNDRED, ONE, THOUSAND};
use crate::order::{ahead, arranged, comparable, greater, is_arrangement, is_ranking, is_stable_order, smaller};
use crate::text::decimal;
use crate::tickers::{first_place, last_place, TickerMap, Tickered};

verus! {

// ─── Which histories are used ────────────────────────────────────────────────

/// The bars of a candidate are the dates that its ticker shares with the
/// benchmark, and on each both prices are those of that date.
pub proof fn candidates_pair_prices_by_date(
    all: Map<Seq<char>, Seq<(Date, Double)>>,
    benchmark: Seq<char>,
    tickers: Seq<(Seq<char>, Seq<char>)>,
    least: int,
    i: int,
    k: int,
)
    requires
        0 <= i < candidates(all, benchmark, tickers, least).len(),
        0 <= k < candidates(all, benchmark, tickers, least)[i].sector.len(),
    ensures
        ({
            let c = candidates(all, benchmark, tickers, least)[i];
            &&& c.bench.len() == c.sector.len()
            &&& exists|d: int|
                0 <= d < all[c.ticker].len() && c.sector[k] == (#[trigger] all[c.ticker][d]).1 && price_on(
                    all[benchmark],
                    all[c.ticker][d].0,
                ) == Some(c.bench[k])
        }),
    decreases tickers.len(),
{
    let shorter = tickers.drop_last();
    let cs = candidates(all, benchmark, tickers, least);
    let rest = candidates(all, benchmark, shorter, least);
    if i < rest.len() {
        assert(cs[i] == rest[i]);
        candidates_pair_prices_by_date(all, benchmark, shorter, least, i, k);
    } else {
        let c = cs[i];
        let (a, b) = (all[c.ticker], all[benchmark]);
        alignment_joins_dates(a, b);
        assert(a.contains(shared(a, b)[k]));
        let d = choose|d: int| 0 <= d < a.len() && a[d] == shared(a, b)[k];
        assert(c.sector[k] == a[d].1);
        assert(counterpart(a, b)[k].1 == c.bench[k]);
    }
}

/// A ticker is in the graph just where it shares enough dates with the benchmark:
/// those of the long span, the lookback and the tail, and five more.
pub proof fn the_graph_takes_its_bars<F: Fn(Operation) -> Double>(
    f: F,
    all: Map<Seq<char>, Seq<(Date, Double)>>,
    benchmark: Seq<char>,
    tickers: Seq<(Seq<char>, Seq<char>)>,
    tf: Timeframe,
    out: Seq<RrgEntry>,
    k: int,
)
    requires
        is_rrg(f, candidates(all, benchmark, tickers, tf.rrg_bars()), tf, out),
        tf.tail_len > 0,
        0 <= k < tickers.len(),
    ensures
        (exists|i: int| 0 <= i < out.len() && (#[trigger] out[i]).ticker@ == tickers[k].0) <==> (all.contains_key(
            benchmark,
        ) && all.contains_key(tickers[k].0) && shared(all[tickers[k].0], all[benchmark]).len() >= tf.ema_long
            + tf.mom_lookback + tf.tail_len + 5),
{
    let cs = candidates(all, benchmark, tickers, tf.rrg_bars());
    assert forall|i: int| 0 <= i < out.len() implies (#[trigger] out[i]).ticker@ == cs[i].ticker by {
        assert(is_rrg_entry(f, cs[i], tf, out[i]));
    }
    lemma_used(all, benchmark, tickers, tf.rrg_bars(), k);
    if exists|i: int| 0 <= i < out.len() && (#[trigger] out[i]).ticker@ == tickers[k].0 {
        let i = choose|i: int| 0 <= i < out.len() && (#[trigger] out[i]).ticker@ == tickers[k].0;
        assert(cs[i].ticker == tickers[k].0);
    }
    if exists|i: int| 0 <= i < cs.len() && (#[trigger] cs[i]).ticker == tickers[k].0 {
        let i = choose|i: int| 0 <= i < cs.len() && (#[trigger] cs[i]).ticker == tickers[k].0;
        assert(out[i].ticker@ == tickers[k].0);
    }
}

/// A ticker is ranked just where it shares enough dates with the benchmark: those
/// of the long window and the lookback, and five more.
pub proof fn rankings_take_their_bars<F: Fn(Operation) -> Double>(
    f: F,
    all: Map<Seq<char>, Seq<(Date, Double)>>,
    benchmark: Seq<char>,
    tickers: Seq<(Seq<char>, Seq<char>)>,
    tf: Timeframe,
    out: Seq<RankEntry>,
    k: int,
)
    requires
        is_rankings(f, candidates(all, benchmark, tickers, tf.rank_bars()), tf, out),
        0 <= k < tickers.len(),
    ensures
        (exists|i: int| 0 <= i < out.len() && (#[trigger] out[i]).ticker@ == tickers[k].0) <==> (all.contains_key(
            benchmark,
        ) && all.contains_key(tickers[k].0) && shared(all[tickers[k].0], all[benchmark]).len() >= tf.win_long
            + tf.rank_change_lookback + 5),
{
    let cs = candidates(all, benchmark, tickers, tf.rank_bars());
    assert forall|i: int| 0 <= i < out.len() implies (#[trigger] out[i]).ticker@ == cs[i].ticker by {
        assert(is_rank_entry(f, cs[i], tf, out[i]));
    }
    lemma_used(all, benchmark, tickers, tf.rank_bars(), k);
    if exists|i: int| 0 <= i < out.len() && (#[trigger] out[i]).ticker@ == tickers[k].0 {
        let i = choose|i: int| 0 <= i < out.len() && (#[trigger] out[i]).ticker@ == tickers[k].0;
        assert(cs[i].ticker == tickers[k].0);
    }
    if exists|i: int| 0 <= i < cs.len() && (#[trigger] cs[i]).ticker == tickers[k].0 {
        let i = choose|i: int| 0 <= i < cs.len() && (#[trigger] cs[i]).ticker == tickers[k].0;
        assert(out[i].ticker@ == tickers[k].0);
    }
}

/// A ticker is scored just where it shares enough dates with the benchmark: those
/// of the long window, and five more.
pub proof fn scores_take_their_bars<F: Fn(Operation) -> Double>(
    f: F,
    all: Map<Seq<char>, Seq<(Date, Double)>>,
    benchmark: Seq<char>,
    tickers: Seq<(Seq<char>, Seq<char>)>,
    tf: Timeframe,
    out: Seq<ZScoreEntry>,
    k: int,
)
    requires
        is_zscores(f, candidates(all, benchmark, tickers, tf.zscore_bars()), tf, out),
        0 <= k < tickers.len(),
    ensures
        (exists|i: int| 0 <= i < out.len() && (#[trigger] out[i]).ticker@ == tickers[k].0) <==> (all.contains_key(
            benchmark,
        ) && all.contains_key(tickers[k].0) && shared(all[tickers[k].0], all[benchmark]).len() >= tf.z_long + 5),
{
    let cs = candidates(all, benchmark, tickers, tf.zscore_bars());
    lemma_used(all, benchmark, tickers, tf.zscore_bars(), k);
    if exists|i: int| 0 <= i < out.len() && (#[trigger] out[i]).ticker@ == tickers[k].0 {
        let i = choose|i: int| 0 <= i < out.len() && (#[trigger] out[i]).ticker@ == tickers[k].0;
        assert(cs[i].ticker == tickers[k].0);
    }
    if exists|i: int| 0 <= i < cs.len() && (#[trigger] cs[i]).ticker == tickers[k].0 {
        let i = choose|i: int| 0 <= i < cs.len() && (#[trigger] cs[i]).ticker == tickers[k].0;
        assert(out[i].ticker@ == tickers[k].0);
    }
}

proof fn lemma_used(
    all: Map<Seq<char>, Seq<(Date, Double)>>,
    benchmark: Seq<char>,
    tickers: Seq<(Seq<char>, Seq<char>)>,
    least: int,
    k: int,
)
    requires
        0 <= k < tickers.len(),
    ensures
        (exists|i: int|
            0 <= i < candidates(all, benchmark, tickers, least).len() && (#[trigger] candidates(
                all,
                benchmark,
                tickers,
                least,
            )[i]).ticker == tickers[k].0) <==> (all.contains_key(benchmark) && all.contains_key(tickers[k].0) && shared(
            all[tickers[k].0],
            all[benchmark],
        ).len() >= least),
{
    let cs = candidates(all, benchmark, tickers, least);
    if exists|i: int| 0 <= i < cs.len() && (#[trigger] cs[i]).ticker == tickers[k].0 {
        let i = choose|i: int| 0 <= i < cs.len() && (#[trigger] cs[i]).ticker == tickers[k].0;
        candidates_have_enough_history(all, benchmark, tickers, least, i);
    }
    if all.contains_key(benchmark) && all.contains_key(tickers[k].0) && shared(
        all[tickers[k].0],
        all[benchmark],
    ).len() >= least {
        enough_history_makes_a_candidate(all, benchmark, tickers, least, k);
    }
}

// ─── Price histories ─────────────────────────────────────────────────────────

/// A price in percent of a base.
pub open spec fn in_percent<F: Fn(Operation) -> Double>(f: F, price: Double, base: Double) -> Double {
    result(f, Operation::Multiply(result(f, Operation::Divide(price, base)), double(HUNDRED)))
}

/// Every point of a history shows its own day, with both prices in percent of
/// those of the first day, and the one over the other.
pub proof fn histories_from_prices<F: Fn(Operation) -> Double>(
    f: F,
    all: Map<Seq<char>, Seq<(Date, Double)>>,
    ticker: Seq<char>,
    benchmark: Seq<char>,
    points: Seq<PricePoint>,
    i: int,
)
    requires
        is_price_history(f, all, ticker, benchmark, points),
        0 <= i < points.len(),
    ensures
        all.contains_key(ticker),
        all.contains_key(benchmark),
        ({
            let (a, b) = (shared(all[ticker], all[benchmark]), counterpart(all[ticker], all[benchmark]));
            let (x, y) = (in_percent(f, a[i].1, a[0].1), in_percent(f, b[i].1, b[0].1));
            &&& points.len() == a.len()
            &&& is_date_text(a[i].0.days as int, points[i].date@)
            &&& points[i].price == rounding(f, x, HUNDRED)
            &&& points[i].benchmark == rounding(f, y, HUNDRED)
            &&& points[i].ratio == rounding(f, result(f, Operation::Divide(x, y)), THOUSAND)
        }),
{
}

/// All points of a history share one base, the first day.  Where two points, of
/// one history or of two, have the same prices and their histories start at the
/// same prices, they show the same, whatever the other days are.
pub proof fn histories_have_one_base<F: Fn(Operation) -> Double>(
    f: F,
    all: Map<Seq<char>, Seq<(Date, Double)>>,
    ticker: Seq<char>,
    benchmark: Seq<char>,
    points: Seq<PricePoint>,
    i: int,
    other_all: Map<Seq<char>, Seq<(Date, Double)>>,
    other_ticker: Seq<char>,
    other_benchmark: Seq<char>,
    other_points: Seq<PricePoint>,
    j: int,
)
    requires
        is_price_history(f, all, ticker, benchmark, points),
        is_price_history(f, other_all, other_ticker, other_benchmark, other_points),
        0 <= i < points.len(),
        0 <= j < other_points.len(),
        ({
            let a = shared(all[ticker], all[benchmark]);
            let b = counterpart(all[ticker], all[benchmark]);
            let c = shared(other_all[other_ticker], other_all[other_benchmark]);
            let d = counterpart(other_all[other_ticker], other_all[other_benchmark]);
            a[0].1 == c[0].1 && b[0].1 == d[0].1 && a[i].1 == c[j].1 && b[i].1 == d[j].1
        }),
    ensures
        points[i].price == other_points[j].price,
        points[i].benchmark == other_points[j].benchmark,
        points[i].ratio == other_points[j].ratio,
{
}

/// A history starts at 100 for both, with a ratio of one; and of two of its days
/// the one with the higher price never shows the lower one.
pub proof fn histories_start_at_hundred_and_keep_order<F: Fn(Operation) -> Double>(
    f: F,
    all: Map<Seq<char>, Seq<(Date, Double)>>,
    ticker: Seq<char>,
    benchmark: Seq<char>,
    points: Seq<PricePoint>,
    i: int,
    j: int,
)
    requires
        keeps_order(f),
        is_price_history(f, all, ticker, benchmark, points),
        0 <= i < points.len(),
        0 <= j < points.len(),
        positive(shared(all[ticker], all[benchmark])[0].1),
        positive(counterpart(all[ticker], all[benchmark])[0].1),
    ensures
        points[0].price == double(HUNDRED),
        points[0].benchmark == double(HUNDRED),
        points[0].ratio == double(ONE),
        shared(all[ticker], all[benchmark])[i].1.reaches(shared(all[ticker], all[benchmark])[j].1)
            ==> points[i].price.reaches(points[j].price),
        counterpart(all[ticker], all[benchmark])[i].1.reaches(counterpart(all[ticker], all[benchmark])[j].1)
            ==> points[i].benchmark.reaches(points[j].benchmark),
{
    let (a, b) = (shared(all[ticker], all[benchmark]), counterpart(all[ticker], all[benchmark]));
    let h = double(HUNDRED);
    named_numbers();
    vstd::arithmetic::power2::lemma_pow2_pos(1074);
    assert(positive(h));
    histories_from_prices(f, all, ticker, benchmark, points, 0);
    histories_from_prices(f, all, ticker, benchmark, points, i);
    histories_from_prices(f, all, ticker, benchmark, points, j);
    assert(over(f, a[0].1, a[0].1) == double(ONE) && over(f, b[0].1, b[0].1) == double(ONE));
    assert(in_percent(f, a[0].1, a[0].1) == times(f, double(ONE), h));
    assert(over(f, h, h) == double(ONE));
    if a[i].1.reaches(a[j].1) {
        let (x, y) = (over(f, a[i].1, a[0].1), over(f, a[j].1, a[0].1));
        assert(x.reaches(y));
        assert(times(f, x, h).reaches(times(f, y, h)));
        rounding_keeps_order(f, in_percent(f, a[i].1, a[0].1), in_percent(f, a[j].1, a[0].1), HUNDRED);
    }
    if b[i].1.reaches(b[j].1) {
        let (x, y) = (over(f, b[i].1, b[0].1), over(f, b[j].1, b[0].1));
        assert(x.reaches(y));
        assert(times(f, x, h).reaches(times(f, y, h)));
        rounding_keeps_order(f, in_percent(f, b[i].1, b[0].1), in_percent(f, b[j].1, b[0].1), HUNDRED);
    }
}

// ─── Bars and peers ──────────────────────────────────────────────────────────

/// Weekly bars are the weekly series of every ticker, daily bars the series as
/// they are.
pub proof fn bars_are_of_every_ticker(all: Map<Seq<char>, Seq<(Date, Double)>>, ticker: Seq<char>)
    ensures
        in_bars(all, false) == all,
        in_bars(all, true).contains_key(ticker) <==> all.contains_key(ticker),
        all.contains_key(ticker) ==> in_bars(all, true)[ticker] == weekly(all[ticker]),
{
}

proof fn lemma_group_in_flattened(groups: Seq<(String, Vec<TickerEntry>)>, g: int, k: int)
    requires
        0 <= g < groups.len(),
        0 <= k < groups[g].1@.len(),
    ensures
        flattened(groups).contains(groups[g].1@[k]),
    decreases groups.len(),
{
    let before = flattened(groups.drop_last());
    if g < groups.len() - 1 {
        lemma_group_in_flattened(groups.drop_last(), g, k);
        let i = choose|i: int| 0 <= i < before.len() && before[i] == groups[g].1@[k];
        assert(flattened(groups)[i] == groups[g].1@[k]);
    } else {
        assert(flattened(groups)[before.len() + k] == groups[g].1@[k]);
    }
}

/// A sector is compared with all sectors, and every other ticker with the
/// industries of all sectors; so it is with the two layers.
pub proof fn peers_are_a_whole_layer(config: Config, ticker: Seq<char>, layer: Option<String>, sector: Seq<char>, k: int)
    requires
        config.wf(),
        0 <= k < config.industries_of(sector).len(),
    ensures
        (exists|i: int| 0 <= i < config.sectors@.len() && (#[trigger] config.sectors@[i]).ticker@ == ticker) ==> peers(
            config,
            ticker,
        ) == config.sectors@,
        (forall|i: int| 0 <= i < config.sectors@.len() ==> (#[trigger] config.sectors@[i]).ticker@ != ticker) ==> peers(
            config,
            ticker,
        ).contains(config.industries_of(sector)[k]),
        (layer matches Some(text) && text@ == "industry"@) ==> asked_entries(config, layer).contains(
            config.industries_of(sector)[k],
        ),
        !(layer matches Some(text) && text@ == "industry"@) ==> asked_entries(config, layer) == config.sectors@,
{
    let groups = config.industry_groups;
    let g = groups.place(sector);
    assert(groups.at(sector, g));
    lemma_group_in_flattened(groups.entries@, g, k);
    let names = crate::config::tickers_of(config.sectors@);
    if names.contains(ticker) {
        let i = choose|i: int| 0 <= i < names.len() && names[i] == ticker;
        assert(config.sectors@[i].ticker@ == ticker);
    }
    if exists|i: int| 0 <= i < config.sectors@.len() && (#[trigger] config.sectors@[i]).ticker@ == ticker {
        let i = choose|i: int| 0 <= i < config.sectors@.len() && (#[trigger] config.sectors@[i]).ticker@ == ticker;
        assert(names[i] == ticker);
    }
}

// ─── Listings ────────────────────────────────────────────────────────────────

/// Sorting keeps every entry and leaves those with equal keys as they came.
pub proof fn sorting_is_stable<T>(listed: Seq<T>, key: spec_fn(T) -> u64, out: Seq<T>) -> (order: Seq<usize>)
    requires
        is_sorted_by(listed, key, out),
    ensures
        order.len() == listed.len(),
        out.len() == listed.len(),
        order.no_duplicates(),
        forall|a: int| 0 <= a < out.len() ==> (#[trigger] order[a]) < listed.len() && out[a] == listed[order[a] as int],
        forall|a: int, b: int|
            #![trigger order[a], order[b]]
            0 <= a < b < out.len() ==> key(out[a]) < key(out[b]) || (key(out[a]) == key(out[b]) && order[a] < order[b]),
{
    let keys = listed.map_values(key);
    let order = choose|order: Seq<usize>|
        is_arrangement(order, listed.len() as int) && is_stable_order(smaller(keys), order) && out == #[trigger] arranged(
            listed,
            order,
        );
    assert forall|a: int, b: int|
        #![trigger order[a], order[b]]
        0 <= a < b < out.len() implies key(out[a]) < key(out[b]) || (key(out[a]) == key(out[b]) && order[a] < order[b]) by {
        assert(ahead(smaller(keys), order[a] as int, order[b] as int));
        assert(keys[order[a] as int] == key(out[a]) && keys[order[b] as int] == key(out[b]));
    }
    order
}

/// Convergence is listed with high confidence first and medium next: nothing
/// less certain comes before something more certain.
pub proof fn convergence_is_listed_by_confidence(listed: Seq<ConvergenceEntry>, out: Seq<ConvergenceEntry>, a: int, b: int)
    requires
        is_sorted_by(listed, confidence_rank(), out),
        0 <= a < b < out.len(),
    ensures
        out[b].confidence@ == "high"@ ==> out[a].confidence@ == "high"@,
        out[b].confidence@ == "medium"@ ==> out[a].confidence@ == "high"@ || out[a].confidence@ == "medium"@,
{
    reveal_strlit("high");
    reveal_strlit("medium");
    assert("high"@.len() == 4 && "medium"@.len() == 6);
    sorted_keys_go_up(listed, confidence_rank(), out);
    assert(confidence_rank()(out[a]) <= confidence_rank()(out[b]));
}

/// Scores are listed from the greatest short score on, equal ones as they came,
/// and every entry is kept.
pub proof fn score_listing_is_stable(listed: Seq<ZScoreEntry>, out: Seq<ZScoreEntry>) -> (order: Seq<usize>)
    requires
        is_listed_by_score(listed, out),
        forall|k: int| 0 <= k < listed.len() ==> !(#[trigger] listed[k]).z_short.is_nan(),
    ensures
        order.len() == listed.len(),
        out.len() == listed.len(),
        order.no_duplicates(),
        forall|a: int| 0 <= a < out.len() ==> (#[trigger] order[a]) < listed.len() && out[a] == listed[order[a] as int],
        forall|a: int, b: int|
            #![trigger order[a], order[b]]
            0 <= a < b < out.len() ==> out[a].z_short.units() > out[b].z_short.units() || (out[a].z_short.units()
                == out[b].z_short.units() && order[a] < order[b]),
{
    let scores = short_scores(listed);
    assert forall|k: int| 0 <= k < scores.len() implies !(#[trigger] scores[k]).is_nan() by {
        assert(scores[k] == listed[k].z_short);
    }
    assert(comparable(scores));
    let order = choose|order: Seq<usize>|
        is_arrangement(order, listed.len() as int) && (comparable(scores) ==> is_stable_order(greater(scores), order))
            && out == #[trigger] arranged(listed, order);
    assert forall|a: int, b: int|
        #![trigger order[a], order[b]]
        0 <= a < b < out.len() implies out[a].z_short.units() > out[b].z_short.units() || (out[a].z_short.units()
        == out[b].z_short.units() && order[a] < order[b]) by {
        assert(ahead(greater(scores), order[a] as int, order[b] as int));
        assert(scores[order[a] as int] == out[a].z_short && scores[order[b] as int] == out[b].z_short);
    }
    order
}

// ─── Fetching ────────────────────────────────────────────────────────────────

/// An answer is worth another try if it says that there are too many requests or
/// reports an error of the server, and with no other status.
pub proof fn statuses_that_may_pass(status: u16, shown: String)
    ensures
        may_pass(FetchEvent::Answered(status, shown)) <==> status == 429 || status / 100 == 5,
{
}

/// The daily prices of a result are its bars, one after the other, as far as
/// there are closes: every bar whose time the calendar knows and that has a
/// price, on the day of its time.
pub proof fn daily_prices_are_the_bars_with_a_price(result: YfResult, closes: Seq<Option<Double>>) -> (places: Seq<int>)
    requires
        (result.indicators.adjclose matches Some(a) && a@.len() > 0) ==> closes
            == result.indicators.adjclose->0@[0].adjclose@,
        !(result.indicators.adjclose matches Some(a) && a@.len() > 0) && result.indicators.quote@.len() > 0 ==> closes
            == result.indicators.quote@[0].close@,
        !(result.indicators.adjclose matches Some(a) && a@.len() > 0) && result.indicators.quote@.len() == 0
            ==> closes.len() == 0,
    ensures
        places.len() == daily_prices(result).len(),
        forall|a: int, b: int| 0 <= a < b < places.len() ==> #[trigger] places[a] < #[trigger] places[b],
        forall|k: int|
            0 <= k < places.len() ==> {
                let i = #[trigger] places[k];
                let (date, price) = daily_prices(result)[k];
                &&& 0 <= i < result.timestamp@.len()
                &&& i < closes.len()
                &&& date.days == day_of_second(result.timestamp@[i] as int)
                &&& closes[i] == Some(price)
            },
        forall|i: int|
            0 <= i < result.timestamp@.len() && i < closes.len() && valid_day(
                day_of_second(#[trigger] result.timestamp@[i] as int),
            ) && closes[i] is Some ==> places.contains(i),
{
    assert(closes =~= crate::fetch::chosen_closes(result.indicators));
    let n = if result.timestamp@.len() <= closes.len() { result.timestamp@.len() } else { closes.len() };
    lemma_daily_points(result.timestamp@, closes, n as int)
}

proof fn lemma_daily_points(timestamps: Seq<i64>, closes: Seq<Option<Double>>, n: int) -> (places: Seq<int>)
    requires
        0 <= n <= timestamps.len(),
        n <= closes.len(),
    ensures
        places.len() == daily_points(timestamps, closes, n).len(),
        forall|a: int, b: int| 0 <= a < b < places.len() ==> #[trigger] places[a] < #[trigger] places[b],
        forall|k: int|
            0 <= k < places.len() ==> {
                let i = #[trigger] places[k];
                let (date, price) = daily_points(timestamps, closes, n)[k];
                &&& 0 <= i < n
                &&& date.days == day_of_second(timestamps[i] as int)
                &&& closes[i] == Some(price)
            },
        forall|i: int|
            0 <= i < n && valid_day(day_of_second(#[trigger] timestamps[i] as int)) && closes[i] is Some
                ==> places.contains(i),
    decreases n,
{
    if n == 0 {
        Seq::empty()
    } else {
        let rest = lemma_daily_points(timestamps, closes, n - 1);
        let day = day_of_second(timestamps[n - 1] as int);
        if valid_day(day) && closes[n - 1] is Some {
            let places = rest.push(n - 1);
            let points = daily_points(timestamps, closes, n);
            assert forall|k: int| 0 <= k < places.len() implies ({
                let i = #[trigger] places[k];
                let (date, price) = points[k];
                &&& 0 <= i < n
                &&& date.days == day_of_second(timestamps[i] as int)
                &&& closes[i] == Some(price)
            }) by {
                if k < rest.len() {
                    assert(places[k] == rest[k]);
                    assert(points[k] == daily_points(timestamps, closes, n - 1)[k]);
                }
            }
            assert forall|i: int| 0 <= i < n && valid_day(day_of_second(#[trigger] timestamps[i] as int))
                && closes[i] is Some implies places.contains(i) by {
                if i < n - 1 {
                    assert(rest.contains(i));
                    let k = choose|k: int| 0 <= k < rest.len() && rest[k] == i;
                    assert(places[k] == i);
                } else {
                    assert(places[rest.len() as int] == i);
                }
            }
            places
        } else {
            rest
        }
    }
}

/// A cutoff drops the days up to it and keeps all later ones.
pub proof fn a_cutoff_keeps_all_later_days(daily: Seq<(Date, Double)>, cutoff: Date, k: int)
    requires
        0 <= k < daily.len(),
    ensures
        cutoff.days < daily[k].0.days ==> after_cutoff(daily, Some(cutoff)).contains(daily[k]),
        daily[k].0.days <= cutoff.days ==> !after_cutoff(daily, Some(cutoff)).contains(daily[k]),
        after_cutoff(daily, None) == daily,
{
    broadcast use vstd::seq_lib::group_filter_ensures;

    let pred = |p: (Date, Double)| p.0.days > cutoff.days;
    let kept = daily.filter(pred);
    if pred(daily[k]) {
        assert(kept.contains(daily[k]));
    }
    if kept.contains(daily[k]) {
        let i = choose|i: int| 0 <= i < kept.len() && kept[i] == daily[k];
        assert(pred(kept[i]));
    }
}

/// A weekly series has an entry for every week that has a day, and it is the
/// latest day of that week; where a day occurs twice, its first price.
pub proof fn weekly_entries_are_the_latest(daily: Seq<(Date, Double)>, d: int) -> (k: int)
    requires
        0 <= d < daily.len(),
    ensures
        0 <= k < weekly(daily).len(),
        week_of(weekly(daily)[k]) == week_of(daily[d]),
        daily.contains(weekly(daily)[k]),
        daily[d].0.days <= weekly(daily)[k].0.days,
        (daily[d].0.days == weekly(daily)[k].0.days && forall|e: int|
            0 <= e < d ==> (#[trigger] daily[e]).0 != daily[d].0) ==> weekly(daily)[k] == daily[d],
{
    lemma_weekly(daily);
    let w = weekly(daily);
    assert(crate::data::has_week(w, week_of(daily[d])));
    let k = choose|k: int| 0 <= k < w.len() && week_of(#[trigger] w[k]) == week_of(daily[d]);
    let e = lemma_week_close(daily, w[k]);
    assert(daily[e] == w[k]);
    k
}

/// After one more outcome a ticker that was fetched with prices has those, and
/// nothing else changes; a failure or an empty series changes nothing at all.
pub proof fn fetched_prices_grow_by_outcomes(
    outcomes: Seq<(String, Result<crate::data::PriceSeries, FetchError>)>,
    next: (String, Result<crate::data::PriceSeries, FetchError>),
)
    ensures
        (next.1 matches Ok(series) && series@.len() > 0) ==> fetched(outcomes.push(next)) == fetched(outcomes).insert(
            next.0@,
            next.1->Ok_0@,
        ),
        !(next.1 matches Ok(series) && series@.len() > 0) ==> fetched(outcomes.push(next)) == fetched(outcomes),
        fetched(Seq::empty()) == Map::<Seq<char>, Seq<(Date, Double)>>::empty(),
{
    assert(outcomes.push(next).drop_last() =~= outcomes);
}

// ─── Reading ─────────────────────────────────────────────────────────────────

/// A row with a ticker and a date sets the date of that ticker, whatever it was,
/// and no other; a row without one of the two sets nothing.
pub proof fn dates_grow_by_rows(rows: Seq<(Option<String>, Option<Date>)>, ticker: Option<String>, date: Option<Date>)
    ensures
        ticker is Some && date is Some ==> dates_given(rows.push((ticker, date))) == dates_given(rows).insert(
            ticker->0@,
            date->0,
        ),
        !(ticker is Some && date is Some) ==> dates_given(rows.push((ticker, date))) == dates_given(rows),
        dates_given(Seq::empty()) == Map::<Seq<char>, Date>::empty(),
{
    assert(rows.push((ticker, date)).drop_last() =~= rows);
}

/// A series gives for a date the price of its last entry of that date.
pub proof fn the_last_price_of_a_date_stands(series: Seq<(Date, Double)>, entry: (Date, Double), date: Date)
    ensures
        price_on(series.push(entry), date) == if entry.0.days == date.days { Some(entry.1) } else { price_on(series, date) },
        price_on(Seq::empty(), date) is None,
{
    assert(series.push(entry).drop_last() =~= series);
}

// ─── Queries and states ──────────────────────────────────────────────────────

/// Weekly bars and parameters are had by the word "weekly" and in no other way.
pub proof fn weekly_is_asked_for_by_its_name(timeframe: Option<String>)
    ensures
        asks_weekly(timeframe) <==> timeframe is Some && timeframe->0@ == "weekly"@,
        timeframe is Some && timeframe->0@ == "weekly"@ ==> asked_timeframe(timeframe) == weekly_timeframe(),
        !(timeframe is Some && timeframe->0@ == "weekly"@) ==> asked_timeframe(timeframe) == daily_timeframe(),
{
}

/// The methods see the prices of the state: resampled to weeks where the query
/// says "weekly", and else as they are.
pub proof fn methods_see_the_prices_asked_for(state: AppState, query: LayerQuery, ticker: Seq<char>)
    ensures
        asked_prices(state, query).contains_key(ticker) <==> all_series(state.prices).contains_key(ticker),
        all_series(state.prices).contains_key(ticker) && query.timeframe is Some && query.timeframe->0@ == "weekly"@
            ==> asked_prices(state, query)[ticker] == weekly(all_series(state.prices)[ticker]),
        !(query.timeframe is Some && query.timeframe->0@ == "weekly"@) ==> asked_prices(state, query) == all_series(
            state.prices,
        ),
{
    bars_are_of_every_ticker(all_series(state.prices), ticker);
}

/// The answers of a layer are those of each method for the tickers and names of
/// its entries, as the method takes its bars.
pub proof fn layers_are_answered_by_the_methods<F: Fn(Operation) -> Double>(
    f: F,
    all: Map<Seq<char>, Seq<(Date, Double)>>,
    benchmark: Seq<char>,
    entries: Seq<TickerEntry>,
    tickers: Seq<(Seq<char>, Seq<char>)>,
    tf: Timeframe,
)
    requires
        tickers.len() == entries.len(),
        forall|i: int|
            0 <= i < entries.len() ==> #[trigger] tickers[i] == (entries[i].ticker@, entries[i].name@),
    ensures
        forall|out: Seq<RrgEntry>| #[trigger]
            rrg_of(f, all, benchmark, entries, tf, out) <==> is_rrg(
                f,
                candidates(all, benchmark, tickers, tf.ema_long + tf.mom_lookback + tf.tail_len + 5),
                tf,
                out,
            ),
        forall|out: Seq<RankEntry>| #[trigger]
            rankings_of(f, all, benchmark, entries, tf, out) <==> is_rankings(
                f,
                candidates(all, benchmark, tickers, tf.win_long + tf.rank_change_lookback + 5),
                tf,
                out,
            ),
        forall|out: Seq<ZScoreEntry>| #[trigger]
            zscores_of(f, all, benchmark, entries, tf, out) <==> is_zscores(
                f,
                candidates(all, benchmark, tickers, tf.z_long + 5),
                tf,
                out,
            ),
{
    assert(pairs_of(entries) =~= tickers);
}

/// What is weighed in a layer are the answers of the three methods for the same
/// layer, prices and timeframe.
pub proof fn convergence_weighs_the_same_layer<F: Fn(Operation) -> Double>(
    f: F,
    all: Map<Seq<char>, Seq<(Date, Double)>>,
    benchmark: Seq<char>,
    entries: Seq<TickerEntry>,
    tf: Timeframe,
    out: Seq<ConvergenceEntry>,
) -> (methods: (Seq<RrgEntry>, Seq<RankEntry>, Seq<ZScoreEntry>))
    requires
        convergence_of(f, all, benchmark, entries, tf, out),
    ensures
        rrg_of(f, all, benchmark, entries, tf, methods.0),
        rankings_of(f, all, benchmark, entries, tf, methods.1),
        zscores_of(f, all, benchmark, entries, tf, methods.2),
        is_convergence(methods.0, methods.1, methods.2, out),
{
    choose|rrg: Seq<RrgEntry>, rankings: Seq<RankEntry>, zscores: Seq<ZScoreEntry>|
        rrg_of(f, all, benchmark, entries, tf, rrg) && rankings_of(f, all, benchmark, entries, tf, rankings)
            && zscores_of(f, all, benchmark, entries, tf, zscores) && #[trigger] is_convergence(
            rrg,
            rankings,
            zscores,
            out,
        )
}

/// A weighed sector is one of the graph, with the last entry that each of the
/// other methods has of its ticker; and a sector that one of them has no entry of
/// is not weighed.
pub proof fn weighed_sectors_are_known_to_all(
    rrg: Seq<RrgEntry>,
    rankings: Seq<RankEntry>,
    zscores: Seq<ZScoreEntry>,
    out: Seq<ConvergenceEntry>,
    i: int,
) -> (at: (int, int, int))
    requires
        is_convergence(rrg, rankings, zscores, out),
        0 <= i < out.len(),
    ensures
        0 <= at.0 < rrg.len(),
        0 <= at.1 < rankings.len(),
        0 <= at.2 < zscores.len(),
        out[i].ticker@ == rrg[at.0].ticker@,
        rankings[at.1].ticker@ == out[i].ticker@,
        zscores[at.2].ticker@ == out[i].ticker@,
        forall|k: int| at.1 < k < rankings.len() ==> (#[trigger] rankings[k]).ticker@ != out[i].ticker@,
        forall|k: int| at.2 < k < zscores.len() ==> (#[trigger] zscores[k]).ticker@ != out[i].ticker@,
        is_convergence_entry(rrg[at.0], rankings[at.1], zscores[at.2], out[i]),
{
    broadcast use vstd::seq_lib::group_filter_ensures;

    let pred = |r: RrgEntry| known_to_all(r, rankings, zscores);
    let known = rrg.filter(pred);
    assert(pred(known[i]));
    let t = known[i].ticker@;
    let p = lemma_filtered(rrg, pred, i);
    last_entries_of_a_ticker(rankings, t);
    last_entries_of_a_ticker(zscores, t);
    let at = (p, last_place(rankings, t)->0, last_place(zscores, t)->0);
    assert(is_convergence_entry(known[i], rankings[at.1], zscores[at.2], out[i]));
    assert forall|k: int| at.1 < k < rankings.len() implies (#[trigger] rankings[k]).ticker@ != t by {
        assert(rankings[k].ticker_text() != t);
    }
    assert forall|k: int| at.2 < k < zscores.len() implies (#[trigger] zscores[k]).ticker@ != t by {
        assert(zscores[k].ticker_text() != t);
    }
    assert(rankings[at.1].ticker_text() == t && zscores[at.2].ticker_text() == t);
    at
}

proof fn lemma_filtered<A>(s: Seq<A>, pred: spec_fn(A) -> bool, i: int) -> (p: int)
    requires
        0 <= i < s.filter(pred).len(),
    ensures
        0 <= p < s.len(),
        s[p] == s.filter(pred)[i],
    decreases s.len(),
{
    reveal(Seq::filter);
    if i < s.drop_last().filter(pred).len() { lemma_filtered(s.drop_last(), pred, i) } else { s.len() - 1 }
}

/// The last place of a ticker is a place of it, and none comes after.
pub proof fn last_entries_of_a_ticker<T: Tickered>(entries: Seq<T>, ticker: Seq<char>)
    ensures
        last_place(entries, ticker) is None <==> forall|k: int|
            0 <= k < entries.len() ==> (#[trigger] entries[k]).ticker_text() != ticker,
        last_place(entries, ticker) matches Some(i) ==> 0 <= i < entries.len() && entries[i].ticker_text() == ticker
            && forall|k: int| i < k < entries.len() ==> (#[trigger] entries[k]).ticker_text() != ticker,
    decreases entries.len(),
{
    if entries.len() > 0 {
        let shorter = entries.drop_last();
        last_entries_of_a_ticker(shorter, ticker);
        assert(entries[entries.len() - 1] == entries.last());
        assert forall|k: int| 0 <= k < shorter.len() implies #[trigger] entries[k] == shorter[k] by {}
        if last_place(shorter, ticker) is Some {
            let i = last_place(shorter, ticker)->0;
            assert(shorter[i].ticker_text() == ticker);
            assert(entries[i].ticker_text() == ticker);
        }
    }
}

/// The first place of a ticker is a place of it, and none comes before.
pub proof fn first_entries_of_a_ticker<T: Tickered>(entries: Seq<T>, ticker: Seq<char>)
    ensures
        first_of(entries, ticker) is None <==> forall|k: int|
            0 <= k < entries.len() ==> (#[trigger] entries[k]).ticker_text() != ticker,
        first_place(entries, ticker) matches Some(i) ==> 0 <= i < entries.len() && first_of(entries, ticker) == Some(
            entries[i],
        ) && entries[i].ticker_text() == ticker && forall|k: int|
            0 <= k < i ==> (#[trigger] entries[k]).ticker_text() != ticker,
    decreases entries.len(),
{
    if entries.len() > 0 {
        let shorter = entries.drop_last();
        first_entries_of_a_ticker(shorter, ticker);
        assert(entries[entries.len() - 1] == entries.last());
        assert forall|k: int| 0 <= k < shorter.len() implies #[trigger] entries[k] == shorter[k] by {}
        if first_place(shorter, ticker) is Some {
            let i = first_place(shorter, ticker)->0;
            assert(shorter[i].ticker_text() == ticker);
            assert(entries[i].ticker_text() == ticker);
        } else {
            assert forall|k: int| 0 <= k < shorter.len() implies (#[trigger] entries[k]).ticker_text() != ticker by {
                assert(shorter[k].ticker_text() != ticker);
            }
        }
    }
}

/// A state is blank just where no ticker is loaded.
pub proof fn a_loaded_ticker_ends_blankness(state: AppState)
    ensures
        state.is_blank() <==> forall|ticker: Seq<char>| !(#[trigger] state.prices@.contains_key(ticker)),
{
    let all = all_series(state.prices);
    let none = Map::<Seq<char>, Seq<(Date, Double)>>::empty();
    if state.is_blank() {
        assert forall|ticker: Seq<char>| !(#[trigger] state.prices@.contains_key(ticker)) by {
            assert(!all.contains_key(ticker));
        }
    }
    if forall|ticker: Seq<char>| !(#[trigger] state.prices@.contains_key(ticker)) {
        assert forall|ticker: Seq<char>| !(#[trigger] all.contains_key(ticker)) by {
            assert(!state.prices@.contains_key(ticker));
        }
        assert(all =~= none);
    }
}

/// A stamp is there just where there is a moment, and tells which one.
pub proof fn stamps_tell_the_moment(a: Option<Instant>, b: Option<Instant>, text: Option<String>)
    requires
        a matches Some(moment) ==> moment.valid(),
        b matches Some(moment) ==> moment.valid(),
        is_stamp(a, text),
        is_stamp(b, text),
    ensures
        a == b,
        a is None <==> text is None,
{
    if a is Some && b is Some {
        moments_have_their_own_text(a->0, b->0, text->0@);
    }
}

/// A node of the tree has one child for each industry of its sector, in their
/// order, with their tickers and names.
pub proof fn nodes_show_every_industry(config: Config, entry: TickerEntry, node: SectorNode, k: int)
    requires
        is_sector_node(config, entry, node),
        0 <= k < node.children@.len(),
    ensures
        node.ticker@ == entry.ticker@,
        node.name@ == entry.name@,
        node.children@.len() == config.industries_of(entry.ticker@).len(),
        node.children@[k].ticker@ == config.industries_of(entry.ticker@)[k].ticker@,
        node.children@[k].name@ == config.industries_of(entry.ticker@)[k].name@,
{
    let (left, right) = (node_pairs(node.children@), pairs_of(config.industries_of(entry.ticker@)));
    assert(left.len() == right.len());
    assert(left[k] == right[k]);
}

/// A detail goes by the name that the universe has for the ticker, that of a
/// sector first, and else by the ticker itself.
pub proof fn details_go_by_known_names(config: Config, ticker: Seq<char>, k: int)
    requires
        0 <= k < config.sectors@.len() ==> config.sectors@[k].ticker@ == ticker && forall|j: int|
            0 <= j < k ==> (#[trigger] config.sectors@[j]).ticker@ != ticker,
    ensures
        0 <= k < config.sectors@.len() ==> shown_name(config, ticker) == config.sectors@[k].name@,
        !crate::config::tickers_of(config.sectors@ + config.industries()).contains(ticker) ==> shown_name(config, ticker)
            == ticker,
{
    let all = config.sectors@ + config.industries();
    crate::config::known_tickers_have_names(all, ticker);
    if 0 <= k < config.sectors@.len() {
        assert(all[k] == config.sectors@[k]);
        assert forall|j: int| 0 <= j < k implies (#[trigger] all[j]).ticker@ != ticker by {
            assert(config.sectors@[j].ticker@ != ticker);
        }
        lemma_first_name(all, ticker, k);
    }
}

proof fn lemma_first_name(entries: Seq<TickerEntry>, ticker: Seq<char>, k: int)
    requires
        0 <= k < entries.len(),
        entries[k].ticker@ == ticker,
        forall|j: int| 0 <= j < k ==> (#[trigger] entries[j]).ticker@ != ticker,
    ensures
        first_name(entries, ticker) == Some(entries[k].name@),
    decreases k,
{
    if k > 0 {
        let rest = entries.drop_first();
        assert forall|j: int| 0 <= j < k - 1 implies (#[trigger] rest[j]).ticker@ != ticker by {
            assert(entries[j + 1].ticker@ != ticker);
        }
        assert(entries[0].ticker@ != ticker);
        lemma_first_name(rest, ticker, k - 1);
    }
}

/// A ticker is fetched unless its prices are known up to today or later, from the
/// date up to which they are known if there is one.
pub proof fn plans_follow_the_known_dates(
    tickers: Seq<Seq<char>>,
    cached: TickerMap<Date>,
    today: Date,
    jobs: Seq<FetchJob>,
    k: int,
)
    requires
        is_plan(tickers, cached, today, jobs),
        0 <= k < tickers.len(),
    ensures
        (exists|i: int| 0 <= i < jobs.len() && (#[trigger] jobs[i]).ticker@ == tickers[k]) <==> !(cached@.contains_key(
            tickers[k],
        ) && cached@[tickers[k]].days >= today.days),
        forall|i: int|
            0 <= i < jobs.len() && (#[trigger] jobs[i]).ticker@ == tickers[k] ==> jobs[i].since
                == if cached@.contains_key(tickers[k]) { Some(cached@[tickers[k]]) } else { None },
{
    plans_cover_due_tickers(tickers, cached, today, jobs);
    if !(cached@.contains_key(tickers[k]) && cached@[tickers[k]].days >= today.days) {
        assert(is_due(cached, today, tickers[k]));
    }
    if exists|i: int| 0 <= i < jobs.len() && (#[trigger] jobs[i]).ticker@ == tickers[k] {
        let i = choose|i: int| 0 <= i < jobs.len() && (#[trigger] jobs[i]).ticker@ == tickers[k];
        assert(is_due(cached, today, jobs[i].ticker@));
    }
}

/// The address names the ticker, and the span in seconds since 1970: from the
/// midnight of the known date to now, or two years.
pub proof fn addresses_name_ticker_and_span(ticker: Seq<char>, since: Date, now: int)
    ensures
        url_text(ticker, None, now) == "https://query1.finance.yahoo.com/v8/finance/chart/"@ + ticker
            + "?interval=1d&range=2y"@,
        url_text(ticker, Some(since), now) == "https://query1.finance.yahoo.com/v8/finance/chart/"@ + ticker
            + "?interval=1d&period1="@ + decimal((since.days - 719_163) * 86_400) + "&period2="@ + decimal(now),
{
}

/// Of two values in a ranking the greater has the better rank, and of equals the
/// earlier.
pub proof fn ranks_order_the_values(values: Seq<Double>, ranks: Seq<usize>, i: int, j: int)
    requires
        is_ranking(values, ranks),
        forall|k: int| 0 <= k < values.len() ==> !(#[trigger] values[k]).is_nan(),
        0 <= i < values.len(),
        0 <= j < values.len(),
        i != j,
    ensures
        ranks.len() == values.len(),
        ranks[i] < ranks[j] <==> values[j].units() < values[i].units() || (values[i].units() == values[j].units() && i < j),
{
    let _ = (ranks[i], ranks[j]);
}

} // verus!
