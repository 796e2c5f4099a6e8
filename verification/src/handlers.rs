//! The answers of the service.
use vstd::prelude::*;

use crate::arithmetic::{computes, over, perform, round_to, rounded_to, times, Operation};
use crate::cache::{is_update, upsert_prices, CacheUpdate};
use crate::calendar::{date_text, instant_text, is_date_text, is_instant_text, Date, Instant};
use crate::compute::{
    candidates, compute_convergence, compute_rankings, compute_rrg, compute_zscores, daily_timeframe, is_convergence,
    is_rankings, is_rrg, is_zscores, lemma_zscore_window_fits, weekly_timeframe, ConvergenceEntry, RankEntry,
    RrgEntry, Timeframe, ZScoreEntry,
};
use crate::config::{distinct, first_name, pairs_of, tickers_of, Config, TickerEntry};
use crate::data::{
    align, alignment_keeps_dates_valid, all_series, all_weekly, copy_prices, counterpart, merge_prices, merged,
    merging_keeps_dates_valid, resample_all, resampling_keeps_dates_valid, shared, valid_dates, valid_prices,
    PriceMap, PriceSeries,
};
use crate::number::{double, Double, HUNDRED, THOUSAND};
use crate::order::{
    ahead, arrange, arranged, ascending_order, comparable, descending_order, greater, is_arrangement, is_stable_order,
    smaller,
};
use crate::text::{is_text, pair_texts, same_text, texts};
use crate::tickers::{first_place, take_first, TickerMap, Tickered};

verus! {

// ─── Application state ───────────────────────────────────────────────────────

/// What the service knows: the universe, the prices, and when they were fetched.
#[derive(Debug)]
pub struct AppState {
    pub config: Config,
    pub prices: PriceMap,
    pub last_updated: Option<Instant>,
}

impl AppState {
    pub open spec fn wf(self) -> bool {
        &&& self.config.wf()
        &&& self.prices.wf()
        &&& valid_prices(all_series(self.prices))
        &&& self.last_updated matches Some(moment) ==> moment.valid()
    }

    /// No prices have been loaded yet.
    pub open spec fn is_blank(self) -> bool {
        all_series(self.prices) == Map::<Seq<char>, Seq<(Date, Double)>>::empty()
    }

    fn blank(&self) -> (r: bool)
        ensures
            r == self.is_blank(),
    {
        proof {
            if self.prices@ == Map::<Seq<char>, PriceSeries>::empty() {
                assert(all_series(self.prices) =~= Map::<Seq<char>, Seq<(Date, Double)>>::empty());
            } else {
                assert(!(self.prices@ =~= Map::<Seq<char>, PriceSeries>::empty()));
                let t = choose|t: Seq<char>| self.prices@.contains_key(t);
                assert(all_series(self.prices).contains_key(t));
            }
        }
        self.prices.is_empty()
    }
}

// ─── Query parameters ────────────────────────────────────────────────────────

#[derive(Debug)]
pub struct LayerQuery {
    /// "sector" (default) or "industry"
    pub layer: Option<String>,
    /// "daily" (default) or "weekly"
    pub timeframe: Option<String>,
}

#[derive(Debug)]
pub struct DetailQuery {
    /// "daily" (default) or "weekly"
    pub timeframe: Option<String>,
}

/// The timeframe is asked for by its name; every other text means daily.
pub open spec fn asks_weekly(timeframe: Option<String>) -> bool {
    timeframe matches Some(text) && text@ == "weekly"@
}

/// The parameters of the timeframe that is asked for.
pub open spec fn asked_timeframe(timeframe: Option<String>) -> Timeframe {
    if asks_weekly(timeframe) { weekly_timeframe() } else { daily_timeframe() }
}

impl LayerQuery {
    pub fn resolve_timeframe(&self) -> (r: Timeframe)
        ensures
            r == asked_timeframe(self.timeframe),
    {
        if is_text(&self.timeframe, "weekly") { Timeframe::weekly() } else { Timeframe::daily() }
    }

    pub fn is_weekly(&self) -> (r: bool)
        ensures
            r == asks_weekly(self.timeframe),
    {
        is_text(&self.timeframe, "weekly")
    }
}

impl DetailQuery {
    pub fn resolve_timeframe(&self) -> (r: Timeframe)
        ensures
            r == asked_timeframe(self.timeframe),
    {
        if is_text(&self.timeframe, "weekly") { Timeframe::weekly() } else { Timeframe::daily() }
    }

    pub fn is_weekly(&self) -> (r: bool)
        ensures
            r == asks_weekly(self.timeframe),
    {
        is_text(&self.timeframe, "weekly")
    }
}

/// The prices in the bars of a timeframe.
pub open spec fn in_bars(
    all: Map<Seq<char>, Seq<(Date, Double)>>,
    weekly_bars: bool,
) -> Map<Seq<char>, Seq<(Date, Double)>> {
    if weekly_bars {
        all_weekly(all)
    } else {
        all
    }
}

fn bars(daily: &PriceMap, weekly_bars: bool) -> (r: PriceMap)
    requires
        daily.wf(),
        valid_prices(all_series(*daily)),
    ensures
        r.wf(),
        all_series(r) == in_bars(all_series(*daily), weekly_bars),
        r.tickers() == daily.tickers(),
        valid_prices(all_series(r)),
{
    proof {
        resampling_keeps_dates_valid(all_series(*daily));
    }
    if weekly_bars { resample_all(daily) } else { copy_prices(daily) }
}

/// The prices for the timeframe that is asked for: daily as they are, weekly
/// resampled.
pub fn prices_for_timeframe(daily: &PriceMap, query: &LayerQuery) -> (r: PriceMap)
    requires
        daily.wf(),
        valid_prices(all_series(*daily)),
    ensures
        r.wf(),
        all_series(r) == in_bars(all_series(*daily), asks_weekly(query.timeframe)),
        r.tickers() == daily.tickers(),
{
    bars(daily, query.is_weekly())
}

// ─── Response envelope ───────────────────────────────────────────────────────

#[derive(Debug)]
pub struct ApiResponse<T> {
    pub ok: bool,
    pub data: T,
    pub last_updated: Option<String>,
}

/// The text is the moment in RFC 3339, if there is one.
pub open spec fn is_stamp(moment: Option<Instant>, text: Option<String>) -> bool {
    match moment {
        Some(instant) => text matches Some(t) && is_instant_text(instant, t@),
        None => text is None,
    }
}

fn stamp(moment: Option<Instant>) -> (r: Option<String>)
    requires
        moment matches Some(instant) ==> instant.valid(),
    ensures
        is_stamp(moment, r),
{
    match moment {
        Some(instant) => Some(instant_text(instant)),
        None => None,
    }
}

impl<T> ApiResponse<T> {
    /// A good answer.
    pub fn ok(data: T, last_updated: Option<Instant>) -> (r: ApiResponse<T>)
        requires
            last_updated matches Some(instant) ==> instant.valid(),
        ensures
            r.ok,
            r.data == data,
            is_stamp(last_updated, r.last_updated),
    {
        ApiResponse { ok: true, data, last_updated: stamp(last_updated) }
    }
}

#[derive(Debug)]
pub struct ErrorResponse {
    pub ok: bool,
    pub error: String,
}

/// A status code and what is said with it.
pub type ApiError = (u16, ErrorResponse);

/// The status of an internal error.
pub const INTERNAL_SERVER_ERROR: u16 = 500;

/// The error is an internal one, with the given message.
pub open spec fn is_err(error: ApiError, msg: Seq<char>) -> bool {
    error.0 == INTERNAL_SERVER_ERROR && !error.1.ok && error.1.error@ == msg
}

/// An internal error with a message.
pub fn err(msg: String) -> (r: ApiError)
    ensures
        is_err(r, msg@),
{
    (INTERNAL_SERVER_ERROR, ErrorResponse { ok: false, error: msg })
}

/// The error is that no data has been loaded.
pub open spec fn is_no_data(error: ApiError) -> bool {
    is_err(error, "No data loaded yet. Call POST /api/refresh first."@)
}

/// The error that no data has been loaded.
pub fn no_data() -> (r: ApiError)
    ensures
        is_no_data(r),
{
    err("No data loaded yet. Call POST /api/refresh first.".to_owned())
}

/// The answer is good and stamped with the moment of the last fetch.
pub open spec fn is_good<T>(state: AppState, response: ApiResponse<T>) -> bool {
    response.ok && is_stamp(state.last_updated, response.last_updated)
}

// ─── Layers ──────────────────────────────────────────────────────────────────

/// The entries of the layer: the industries if they are asked for by name, the
/// sectors otherwise.
pub open spec fn asked_entries(config: Config, layer: Option<String>) -> Seq<TickerEntry> {
    if layer matches Some(text) && text@ == "industry"@ { config.industries() } else { config.sectors@ }
}

/// The ticker/name pairs of the layer that is asked for.
pub fn resolve_pairs<'a>(config: &'a Config, query: &LayerQuery) -> (r: Vec<(&'a str, &'a str)>)
    ensures
        pair_texts(r@) == pairs_of(asked_entries(*config, query.layer)),
{
    if is_text(&query.layer, "industry") { config.industry_pairs() } else { config.sector_pairs() }
}

/// The universe of the methods: the prices in the bars that are asked for.
pub open spec fn asked_prices(state: AppState, query: LayerQuery) -> Map<Seq<char>, Seq<(Date, Double)>> {
    in_bars(all_series(state.prices), asks_weekly(query.timeframe))
}

// ─── GET /api/rrg ────────────────────────────────────────────────────────────

/// The entries are the rotation graph of the given tickers.
pub open spec fn rrg_of<F: Fn(Operation) -> Double>(
    f: F,
    all: Map<Seq<char>, Seq<(Date, Double)>>,
    benchmark: Seq<char>,
    entries: Seq<TickerEntry>,
    tf: Timeframe,
    out: Seq<RrgEntry>,
) -> bool {
    is_rrg(f, candidates(all, benchmark, pairs_of(entries), tf.rrg_bars()), tf, out)
}

/// The relative rotation graph of a layer.
pub fn get_rrg<F: Fn(Operation) -> Double>(state: &AppState, query: &LayerQuery, f: &F) -> (r: Result<
    ApiResponse<Vec<RrgEntry>>,
    ApiError,
>)
    requires
        state.wf(),
        computes(*f),
    ensures
        r matches Err(error) ==> state.is_blank() && is_no_data(error),
        r matches Ok(response) ==> {
            &&& !state.is_blank()
            &&& is_good(*state, response)
            &&& rrg_of(
                *f,
                asked_prices(*state, *query),
                state.config.benchmark@,
                asked_entries(state.config, query.layer),
                asked_timeframe(query.timeframe),
                response.data@,
            )
        },
{
    if state.blank() {
        return Err(no_data());
    }
    let prices = prices_for_timeframe(&state.prices, query);
    let tickers = resolve_pairs(&state.config, query);
    let tf = query.resolve_timeframe();
    let entries = compute_rrg(&prices, state.config.benchmark.as_str(), tickers.as_slice(), &tf, f);
    Ok(ApiResponse::ok(entries, state.last_updated))
}

// ─── GET /api/rankings ───────────────────────────────────────────────────────

/// The entries are the rankings of the given tickers.
pub open spec fn rankings_of<F: Fn(Operation) -> Double>(
    f: F,
    all: Map<Seq<char>, Seq<(Date, Double)>>,
    benchmark: Seq<char>,
    entries: Seq<TickerEntry>,
    tf: Timeframe,
    out: Seq<RankEntry>,
) -> bool {
    is_rankings(f, candidates(all, benchmark, pairs_of(entries), tf.rank_bars()), tf, out)
}

/// `out` is `listed`, put in the order of the keys, equal keys as they came.
pub open spec fn is_sorted_by<T>(listed: Seq<T>, key: spec_fn(T) -> u64, out: Seq<T>) -> bool {
    exists|order: Seq<usize>|
        is_arrangement(order, listed.len() as int) && is_stable_order(smaller(listed.map_values(key)), order) && out
            == #[trigger] arranged(listed, order)
}

/// The rank by which rankings are listed.
pub open spec fn short_rank() -> spec_fn(RankEntry) -> u64 {
    |e: RankEntry| e.rank_20d as u64
}

fn sort_rankings(entries: Vec<RankEntry>) -> (r: Vec<RankEntry>)
    ensures
        is_sorted_by(entries@, short_rank(), r@),
{
    let mut keys: Vec<u64> = Vec::new();
    let mut i: usize = 0;
    while i < entries.len()
        invariant
            i <= entries@.len(),
            keys@ == entries@.take(i as int).map_values(short_rank()),
        decreases entries.len() - i,
    {
        keys.push(entries[i].rank_20d as u64);
        i += 1;
        assert(keys@ =~= entries@.take(i as int).map_values(short_rank()));
    }
    assert(entries@.take(i as int) =~= entries@);
    let order = ascending_order(&keys);
    arrange(entries, &order)
}

/// The relative strength rankings of a layer, best first.
pub fn get_rankings<F: Fn(Operation) -> Double>(state: &AppState, query: &LayerQuery, f: &F) -> (r: Result<
    ApiResponse<Vec<RankEntry>>,
    ApiError,
>)
    requires
        state.wf(),
        computes(*f),
        asked_entries(state.config, query.layer).len() <= i32::MAX,
    ensures
        r matches Err(error) ==> state.is_blank() && is_no_data(error),
        r matches Ok(response) ==> {
            &&& !state.is_blank()
            &&& is_good(*state, response)
            &&& exists|listed: Seq<RankEntry>| #[trigger]
                rankings_of(
                    *f,
                    asked_prices(*state, *query),
                    state.config.benchmark@,
                    asked_entries(state.config, query.layer),
                    asked_timeframe(query.timeframe),
                    listed,
                ) && is_sorted_by(listed, short_rank(), response.data@)
        },
{
    if state.blank() {
        return Err(no_data());
    }
    let prices = prices_for_timeframe(&state.prices, query);
    let tickers = resolve_pairs(&state.config, query);
    let tf = query.resolve_timeframe();
    proof {
        assert(pair_texts(tickers@).len() == tickers@.len());
    }
    let entries = compute_rankings(&prices, state.config.benchmark.as_str(), tickers.as_slice(), &tf, f);
    let ghost listed = entries@;
    proof {
        assert(rankings_of(
            *f,
            asked_prices(*state, *query),
            state.config.benchmark@,
            asked_entries(state.config, query.layer),
            asked_timeframe(query.timeframe),
            listed,
        ));
    }
    let sorted = sort_rankings(entries);
    Ok(ApiResponse::ok(sorted, state.last_updated))
}

// ─── GET /api/zscore ─────────────────────────────────────────────────────────

/// The entries are the z-scores of the given tickers.
pub open spec fn zscores_of<F: Fn(Operation) -> Double>(
    f: F,
    all: Map<Seq<char>, Seq<(Date, Double)>>,
    benchmark: Seq<char>,
    entries: Seq<TickerEntry>,
    tf: Timeframe,
    out: Seq<ZScoreEntry>,
) -> bool {
    is_zscores(f, candidates(all, benchmark, pairs_of(entries), tf.zscore_bars()), tf, out)
}

/// The short scores of the entries.
pub open spec fn short_scores(entries: Seq<ZScoreEntry>) -> Seq<Double> {
    entries.map_values(|e: ZScoreEntry| e.z_short)
}

/// `out` is `listed` with the greatest short score first, equal scores as they
/// came; with numbers and NaNs mixed only that it is `listed` rearranged.
pub open spec fn is_listed_by_score(listed: Seq<ZScoreEntry>, out: Seq<ZScoreEntry>) -> bool {
    exists|order: Seq<usize>|
        is_arrangement(order, listed.len() as int) && (comparable(short_scores(listed)) ==> is_stable_order(
            greater(short_scores(listed)),
            order,
        )) && out == #[trigger] arranged(listed, order)
}

fn sort_zscores(entries: Vec<ZScoreEntry>) -> (r: Vec<ZScoreEntry>)
    ensures
        is_listed_by_score(entries@, r@),
{
    let mut scores: Vec<Double> = Vec::new();
    let mut i: usize = 0;
    while i < entries.len()
        invariant
            i <= entries@.len(),
            scores@ == short_scores(entries@.take(i as int)),
        decreases entries.len() - i,
    {
        scores.push(entries[i].z_short);
        i += 1;
        assert(scores@ =~= short_scores(entries@.take(i as int)));
    }
    assert(entries@.take(i as int) =~= entries@);
    let order = descending_order(&scores);
    arrange(entries, &order)
}

/// The z-scores of a layer, greatest short score first.
pub fn get_zscores<F: Fn(Operation) -> Double>(state: &AppState, query: &LayerQuery, f: &F) -> (r: Result<
    ApiResponse<Vec<ZScoreEntry>>,
    ApiError,
>)
    requires
        state.wf(),
        computes(*f),
    ensures
        r matches Err(error) ==> state.is_blank() && is_no_data(error),
        r matches Ok(response) ==> {
            &&& !state.is_blank()
            &&& is_good(*state, response)
            &&& exists|listed: Seq<ZScoreEntry>| #[trigger]
                zscores_of(
                    *f,
                    asked_prices(*state, *query),
                    state.config.benchmark@,
                    asked_entries(state.config, query.layer),
                    asked_timeframe(query.timeframe),
                    listed,
                ) && is_listed_by_score(listed, response.data@)
        },
{
    if state.blank() {
        return Err(no_data());
    }
    let prices = prices_for_timeframe(&state.prices, query);
    let tickers = resolve_pairs(&state.config, query);
    let tf = query.resolve_timeframe();
    proof {
        lemma_zscore_window_fits(all_series(prices), state.config.benchmark@, pair_texts(tickers@), tf);
    }
    let entries = compute_zscores(&prices, state.config.benchmark.as_str(), tickers.as_slice(), &tf, f);
    let ghost listed = entries@;
    proof {
        assert(zscores_of(
            *f,
            asked_prices(*state, *query),
            state.config.benchmark@,
            asked_entries(state.config, query.layer),
            asked_timeframe(query.timeframe),
            listed,
        ));
    }
    let sorted = sort_zscores(entries);
    Ok(ApiResponse::ok(sorted, state.last_updated))
}

// ─── GET /api/convergence ────────────────────────────────────────────────────

/// The entries weigh what the three methods say of the given tickers.
pub open spec fn convergence_of<F: Fn(Operation) -> Double>(
    f: F,
    all: Map<Seq<char>, Seq<(Date, Double)>>,
    benchmark: Seq<char>,
    entries: Seq<TickerEntry>,
    tf: Timeframe,
    out: Seq<ConvergenceEntry>,
) -> bool {
    exists|rrg: Seq<RrgEntry>, rankings: Seq<RankEntry>, zscores: Seq<ZScoreEntry>|
        rrg_of(f, all, benchmark, entries, tf, rrg) && rankings_of(f, all, benchmark, entries, tf, rankings) && zscores_of(
            f,
            all,
            benchmark,
            entries,
            tf,
            zscores,
        ) && #[trigger] is_convergence(rrg, rankings, zscores, out)
}

/// High confidence first, then medium, then the rest.
pub open spec fn confidence_rank() -> spec_fn(ConvergenceEntry) -> u64 {
    |e: ConvergenceEntry|
        if e.confidence@ == "high"@ {
            0u64
        } else if e.confidence@ == "medium"@ {
            1u64
        } else {
            2u64
        }
}

fn sort_convergence(entries: Vec<ConvergenceEntry>) -> (r: Vec<ConvergenceEntry>)
    ensures
        is_sorted_by(entries@, confidence_rank(), r@),
{
    let mut keys: Vec<u64> = Vec::new();
    let mut i: usize = 0;
    while i < entries.len()
        invariant
            i <= entries@.len(),
            keys@ == entries@.take(i as int).map_values(confidence_rank()),
        decreases entries.len() - i,
    {
        let confidence = entries[i].confidence.as_str();
        let key: u64 = if same_text(confidence, "high") {
            0
        } else if same_text(confidence, "medium") {
            1
        } else {
            2
        };
        keys.push(key);
        i += 1;
        assert(keys@ =~= entries@.take(i as int).map_values(confidence_rank()));
    }
    assert(entries@.take(i as int) =~= entries@);
    let order = ascending_order(&keys);
    arrange(entries, &order)
}

/// The convergence of the three methods in a layer, highest confidence first.
pub fn get_convergence<F: Fn(Operation) -> Double>(state: &AppState, query: &LayerQuery, f: &F) -> (r: Result<
    ApiResponse<Vec<ConvergenceEntry>>,
    ApiError,
>)
    requires
        state.wf(),
        computes(*f),
        asked_entries(state.config, query.layer).len() <= i32::MAX,
    ensures
        r matches Err(error) ==> state.is_blank() && is_no_data(error),
        r matches Ok(response) ==> {
            &&& !state.is_blank()
            &&& is_good(*state, response)
            &&& exists|listed: Seq<ConvergenceEntry>| #[trigger]
                convergence_of(
                    *f,
                    asked_prices(*state, *query),
                    state.config.benchmark@,
                    asked_entries(state.config, query.layer),
                    asked_timeframe(query.timeframe),
                    listed,
                ) && is_sorted_by(listed, confidence_rank(), response.data@)
        },
{
    if state.blank() {
        return Err(no_data());
    }
    let prices = prices_for_timeframe(&state.prices, query);
    let tickers = resolve_pairs(&state.config, query);
    let tf = query.resolve_timeframe();
    let benchmark = state.config.benchmark.as_str();
    proof {
        assert(pair_texts(tickers@).len() == tickers@.len());
        lemma_zscore_window_fits(all_series(prices), benchmark@, pair_texts(tickers@), tf);
    }
    let rrg = compute_rrg(&prices, benchmark, tickers.as_slice(), &tf, f);
    let rankings = compute_rankings(&prices, benchmark, tickers.as_slice(), &tf, f);
    let zscores = compute_zscores(&prices, benchmark, tickers.as_slice(), &tf, f);
    let entries = compute_convergence(rrg.as_slice(), rankings.as_slice(), zscores.as_slice());
    let ghost listed = entries@;
    proof {
        assert(is_convergence(rrg@, rankings@, zscores@, listed));
        assert(convergence_of(
            *f,
            asked_prices(*state, *query),
            state.config.benchmark@,
            asked_entries(state.config, query.layer),
            asked_timeframe(query.timeframe),
            listed,
        ));
    }
    let sorted = sort_convergence(entries);
    Ok(ApiResponse::ok(sorted, state.last_updated))
}

// ─── GET /api/detail/:ticker ─────────────────────────────────────────────────

/// A day of the price history: both prices as percentages of where they
/// started, and one over the other.
#[derive(Debug)]
pub struct PricePoint {
    pub date: String,
    pub price: Double,
    pub benchmark: Double,
    pub ratio: Double,
}

#[derive(Debug)]
pub struct DetailResponse {
    pub ticker: String,
    pub name: String,
    pub rrg: Option<RrgEntry>,
    pub rank: Option<RankEntry>,
    pub zscore: Option<ZScoreEntry>,
    pub convergence: Option<ConvergenceEntry>,
    pub price_history: Vec<PricePoint>,
}

/// A price in percent of the first one: `price / first * 100`.
pub open spec fn normalised<F: Fn(Operation) -> Double>(f: F, price: Double, first: Double) -> Double {
    times(f, over(f, price, first), double(HUNDRED))
}

/// The point shows a day of two aligned series.
pub open spec fn is_price_point<F: Fn(Operation) -> Double>(
    f: F,
    a: Seq<(Date, Double)>,
    b: Seq<(Date, Double)>,
    i: int,
    point: PricePoint,
) -> bool {
    let price = normalised(f, a[i].1, a[0].1);
    let benchmark = normalised(f, b[i].1, b[0].1);
    &&& is_date_text(a[i].0.days as int, point.date@)
    &&& point.price == rounded_to(f, price, HUNDRED)
    &&& point.benchmark == rounded_to(f, benchmark, HUNDRED)
    &&& point.ratio == rounded_to(f, over(f, price, benchmark), THOUSAND)
}

/// The points show the days that the ticker shares with the benchmark; there
/// are none where one of the two has no prices.
pub open spec fn is_price_history<F: Fn(Operation) -> Double>(
    f: F,
    all: Map<Seq<char>, Seq<(Date, Double)>>,
    ticker: Seq<char>,
    benchmark: Seq<char>,
    points: Seq<PricePoint>,
) -> bool {
    if all.contains_key(ticker) && all.contains_key(benchmark) {
        let a = shared(all[ticker], all[benchmark]);
        let b = counterpart(all[ticker], all[benchmark]);
        &&& points.len() == a.len()
        &&& forall|i: int| 0 <= i < points.len() ==> is_price_point(f, a, b, i, #[trigger] points[i])
    } else {
        points.len() == 0
    }
}

fn normalise<F: Fn(Operation) -> Double>(price: Double, first: Double, f: &F) -> (r: Double)
    requires
        computes(*f),
    ensures
        r == normalised(*f, price, first),
{
    let share = perform(f, Operation::Divide(price, first));
    perform(f, Operation::Multiply(share, Double { bits: HUNDRED }))
}

/// The price history of a ticker next to the benchmark.
pub fn build_price_history<F: Fn(Operation) -> Double>(prices: &PriceMap, ticker: &str, benchmark: &str, f: &F) -> (r:
    Vec<PricePoint>)
    requires
        prices.wf(),
        valid_prices(all_series(*prices)),
        computes(*f),
    ensures
        is_price_history(*f, all_series(*prices), ticker@, benchmark@, r@),
{
    let ghost all = all_series(*prices);
    let mut r: Vec<PricePoint> = Vec::new();
    let (own, bench) = match (prices.get(ticker), prices.get(benchmark)) {
        (Some(own), Some(bench)) => (own, bench),
        _ => {
            return r;
        },
    };
    let (a, b) = align(own, bench);
    proof {
        assert(all.contains_key(ticker@) && own@ == all[ticker@] && bench@ == all[benchmark@]);
        alignment_keeps_dates_valid(own@, bench@);
    }
    let n = a.len();
    let mut i: usize = 0;
    while i < n
        invariant
            computes(*f),
            n == a@.len(),
            a@.len() == b@.len(),
            valid_dates(a@),
            i <= n,
            r@.len() == i,
            forall|k: int| 0 <= k < i ==> is_price_point(*f, a@, b@, k, #[trigger] r@[k]),
        decreases n - i,
    {
        assert(a@[i as int].0.valid());
        let price = normalise(a[i].1, a[0].1, f);
        let benchmark = normalise(b[i].1, b[0].1, f);
        let ratio = perform(f, Operation::Divide(price, benchmark));
        r.push(
            PricePoint {
                date: date_text(a[i].0.days),
                price: round_to(f, price, HUNDRED),
                benchmark: round_to(f, benchmark, HUNDRED),
                ratio: round_to(f, ratio, THOUSAND),
            },
        );
        i += 1;
    }
    r
}

/// The first entry of a ticker.
pub open spec fn first_of<T: Tickered>(entries: Seq<T>, ticker: Seq<char>) -> Option<T> {
    match first_place(entries, ticker) {
        Some(i) => Some(entries[i]),
        None => None,
    }
}

/// The entries that a ticker is compared with: the sectors if it is one, the
/// industries otherwise.
pub open spec fn peers(config: Config, ticker: Seq<char>) -> Seq<TickerEntry> {
    if tickers_of(config.sectors@).contains(ticker) { config.sectors@ } else { config.industries() }
}

/// The name of a ticker; its own text where the universe has none for it.
pub open spec fn shown_name(config: Config, ticker: Seq<char>) -> Seq<char> {
    match first_name(config.sectors@ + config.industries(), ticker) {
        Some(name) => name,
        None => ticker,
    }
}

/// The detail of a ticker: what each method says of it among its peers, and
/// its price history.
pub open spec fn is_detail<F: Fn(Operation) -> Double>(
    f: F,
    config: Config,
    all: Map<Seq<char>, Seq<(Date, Double)>>,
    ticker: Seq<char>,
    tf: Timeframe,
    detail: DetailResponse,
) -> bool {
    &&& detail.ticker@ == ticker
    &&& detail.name@ == shown_name(config, ticker)
    &&& is_price_history(f, all, ticker, config.benchmark@, detail.price_history@)
    &&& exists|rrg: Seq<RrgEntry>, rankings: Seq<RankEntry>, zscores: Seq<ZScoreEntry>, convergence: Seq<ConvergenceEntry>|
        {
            &&& rrg_of(f, all, config.benchmark@, peers(config, ticker), tf, rrg)
            &&& rankings_of(f, all, config.benchmark@, peers(config, ticker), tf, rankings)
            &&& zscores_of(f, all, config.benchmark@, peers(config, ticker), tf, zscores)
            &&& #[trigger] is_convergence(rrg, rankings, zscores, convergence)
            &&& detail.rrg == first_of(rrg, ticker)
            &&& detail.rank == first_of(rankings, ticker)
            &&& detail.zscore == first_of(zscores, ticker)
            &&& detail.convergence == first_of(convergence, ticker)
        }
}

/// Everything about one ticker.
pub fn get_detail<F: Fn(Operation) -> Double>(state: &AppState, ticker: String, query: &DetailQuery, f: &F) -> (r:
    Result<ApiResponse<DetailResponse>, ApiError>)
    requires
        state.wf(),
        computes(*f),
        peers(state.config, ticker@).len() <= i32::MAX,
    ensures
        r matches Err(error) ==> state.is_blank() && is_no_data(error),
        r matches Ok(response) ==> {
            &&& !state.is_blank()
            &&& is_good(*state, response)
            &&& is_detail(
                *f,
                state.config,
                in_bars(all_series(state.prices), asks_weekly(query.timeframe)),
                ticker@,
                asked_timeframe(query.timeframe),
                response.data,
            )
        },
{
    if state.blank() {
        return Err(no_data());
    }
    let prices = bars(&state.prices, query.is_weekly());
    let tf = query.resolve_timeframe();
    let cfg = &state.config;
    let benchmark = cfg.benchmark.as_str();
    let name = match cfg.name_of(ticker.as_str()) {
        Some(name) => name.to_owned(),
        None => ticker.clone(),
    };
    let tickers = if cfg.is_sector(ticker.as_str()) { cfg.sector_pairs() } else { cfg.industry_pairs() };
    proof {
        assert(pair_texts(tickers@).len() == tickers@.len());
        lemma_zscore_window_fits(all_series(prices), benchmark@, pair_texts(tickers@), tf);
    }
    let rrg = compute_rrg(&prices, benchmark, tickers.as_slice(), &tf, f);
    let rankings = compute_rankings(&prices, benchmark, tickers.as_slice(), &tf, f);
    let zscores = compute_zscores(&prices, benchmark, tickers.as_slice(), &tf, f);
    let convergence = compute_convergence(rrg.as_slice(), rankings.as_slice(), zscores.as_slice());
    let price_history = build_price_history(&prices, ticker.as_str(), benchmark, f);
    let ghost all = (rrg@, rankings@, zscores@, convergence@);
    let detail = DetailResponse {
        name,
        rrg: take_first(rrg, ticker.as_str()),
        rank: take_first(rankings, ticker.as_str()),
        zscore: take_first(zscores, ticker.as_str()),
        convergence: take_first(convergence, ticker.as_str()),
        ticker,
        price_history,
    };
    proof {
        assert(is_convergence(all.0, all.1, all.2, all.3));
    }
    Ok(ApiResponse::ok(detail, state.last_updated))
}

// ─── GET /api/universe ───────────────────────────────────────────────────────

#[derive(Debug)]
pub struct IndustryNode {
    pub ticker: String,
    pub name: String,
}

#[derive(Debug)]
pub struct SectorNode {
    pub ticker: String,
    pub name: String,
    pub children: Vec<IndustryNode>,
}

#[derive(Debug)]
pub struct UniverseResponse {
    pub benchmark: String,
    pub sectors: Vec<SectorNode>,
}

/// The tickers and names of the nodes.
pub open spec fn node_pairs(nodes: Seq<IndustryNode>) -> Seq<(Seq<char>, Seq<char>)> {
    nodes.map_values(|n: IndustryNode| (n.ticker@, n.name@))
}

/// The node shows a sector with its industries.
pub open spec fn is_sector_node(config: Config, entry: TickerEntry, node: SectorNode) -> bool {
    &&& node.ticker@ == entry.ticker@
    &&& node.name@ == entry.name@
    &&& node_pairs(node.children@) == pairs_of(config.industries_of(entry.ticker@))
}

fn industry_nodes(pairs: &Vec<(&str, &str)>) -> (r: Vec<IndustryNode>)
    ensures
        node_pairs(r@) == pair_texts(pairs@),
{
    let mut r: Vec<IndustryNode> = Vec::new();
    let mut i: usize = 0;
    while i < pairs.len()
        invariant
            i <= pairs@.len(),
            r@.len() == i,
            forall|k: int| 0 <= k < i ==> (#[trigger] r@[k]).ticker@ == pairs@[k].0@ && r@[k].name@ == pairs@[k].1@,
        decreases pairs.len() - i,
    {
        r.push(IndustryNode { ticker: pairs[i].0.to_owned(), name: pairs[i].1.to_owned() });
        i += 1;
    }
    assert(node_pairs(r@) =~= pair_texts(pairs@));
    r
}

/// The universe as a tree, sectors in their order.
pub fn get_universe(state: &AppState) -> (r: ApiResponse<UniverseResponse>)
    requires
        state.wf(),
    ensures
        r.ok,
        r.last_updated is None,
        r.data.benchmark@ == state.config.benchmark@,
        r.data.sectors@.len() == state.config.sectors@.len(),
        forall|i: int|
            0 <= i < r.data.sectors@.len() ==> is_sector_node(
                state.config,
                state.config.sectors@[i],
                #[trigger] r.data.sectors@[i],
            ),
{
    let cfg = &state.config;
    let mut sectors: Vec<SectorNode> = Vec::new();
    let mut i: usize = 0;
    while i < cfg.sectors.len()
        invariant
            cfg.wf(),
            i <= cfg.sectors@.len(),
            sectors@.len() == i,
            forall|k: int| 0 <= k < i ==> is_sector_node(*cfg, cfg.sectors@[k], #[trigger] sectors@[k]),
        decreases cfg.sectors.len() - i,
    {
        let pairs = cfg.industry_pairs_for(cfg.sectors[i].ticker.as_str());
        sectors.push(
            SectorNode {
                ticker: cfg.sectors[i].ticker.clone(),
                name: cfg.sectors[i].name.clone(),
                children: industry_nodes(&pairs),
            },
        );
        i += 1;
    }
    ApiResponse::ok(UniverseResponse { benchmark: cfg.benchmark.clone(), sectors }, None)
}

// ─── GET /api/status ─────────────────────────────────────────────────────────

#[derive(Debug)]
pub struct StatusResponse {
    pub loaded: bool,
    pub ticker_count: usize,
    pub last_updated: Option<String>,
}

/// Whether prices are loaded, of how many tickers, and since when.
pub fn get_status(state: &AppState) -> (r: ApiResponse<StatusResponse>)
    requires
        state.wf(),
    ensures
        is_good(*state, r),
        r.data.loaded == !state.is_blank(),
        r.data.ticker_count == all_series(state.prices).dom().len(),
        is_stamp(state.last_updated, r.data.last_updated),
{
    let loaded = !state.blank();
    let ticker_count = state.prices.len();
    proof {
        assert(all_series(state.prices).dom() =~= state.prices@.dom());
    }
    ApiResponse::ok(
        StatusResponse { loaded, ticker_count, last_updated: stamp(state.last_updated) },
        state.last_updated,
    )
}

// ─── POST /api/refresh ───────────────────────────────────────────────────────

#[derive(Debug)]
pub struct RefreshResponse {
    pub tickers_fetched: usize,
    pub tickers_failed: Vec<String>,
}

/// The tickers that were neither fetched nor known before, in their order.
pub open spec fn failed_tickers(
    tickers: Seq<Seq<char>>,
    fetched: Set<Seq<char>>,
    cached: Set<Seq<char>>,
) -> Seq<Seq<char>> {
    tickers.filter(|t: Seq<char>| !fetched.contains(t) && !cached.contains(t))
}

/// The texts of the strings.
pub open spec fn string_texts(strings: Seq<String>) -> Seq<Seq<char>> {
    strings.map_values(|s: String| s@)
}

fn failures(tickers: &Vec<&str>, fetched: &PriceMap, cached: &TickerMap<Date>) -> (r: Vec<String>)
    requires
        fetched.wf(),
        cached.wf(),
    ensures
        string_texts(r@) == failed_tickers(texts(tickers@), fetched@.dom(), cached@.dom()),
{
    let mut r: Vec<String> = Vec::new();
    let mut i: usize = 0;
    proof {
        reveal(Seq::filter);
        assert(string_texts(r@) =~= failed_tickers(texts(tickers@).take(0), fetched@.dom(), cached@.dom()));
    }
    while i < tickers.len()
        invariant
            fetched.wf(),
            cached.wf(),
            i <= tickers@.len(),
            string_texts(r@) == failed_tickers(texts(tickers@).take(i as int), fetched@.dom(), cached@.dom()),
        decreases tickers.len() - i,
    {
        let ghost held = string_texts(r@);
        proof {
            reveal(Seq::filter);
            assert(texts(tickers@).take(i + 1).drop_last() =~= texts(tickers@).take(i as int));
        }
        let ticker = tickers[i];
        if !fetched.contains(ticker) && !cached.contains(ticker) {
            r.push(ticker.to_owned());
            assert(string_texts(r@) =~= held.push(ticker@));
        }
        i += 1;
    }
    assert(texts(tickers@).take(i as int) =~= texts(tickers@));
    r
}

/// What a refresh writes to the cache: nothing where nothing was fetched.
pub fn refresh_update(new_prices: &PriceMap, now: Instant) -> (r: Option<CacheUpdate>)
    requires
        new_prices.wf(),
        valid_prices(all_series(*new_prices)),
        now.valid(),
    ensures
        r is None <==> new_prices@ == Map::<Seq<char>, PriceSeries>::empty(),
        r matches Some(update) ==> is_update(*new_prices, now, update),
{
    if new_prices.is_empty() { None } else { Some(upsert_prices(new_prices, now)) }
}

/// Takes over newly fetched prices: merges them into those there are, notes the
/// moment, and reports how many tickers were fetched and which are missing.
/// `cached` holds the tickers that were known before.
pub fn post_refresh(state: &mut AppState, cached: &TickerMap<Date>, new_prices: PriceMap, now: Instant) -> (r: Result<
    ApiResponse<RefreshResponse>,
    ApiError,
>)
    requires
        old(state).wf(),
        cached.wf(),
        new_prices.wf(),
        valid_prices(all_series(new_prices)),
        now.valid(),
    ensures
        final(state).wf(),
        final(state).config == old(state).config,
        all_series(final(state).prices) == merged(all_series(old(state).prices), all_series(new_prices)),
        final(state).last_updated == Some(now),
        r matches Ok(response) && is_good(*final(state), response) && response.data.tickers_fetched
            == new_prices@.dom().len() && string_texts(response.data.tickers_failed@) == failed_tickers(
            distinct(old(state).config.universe()),
            new_prices@.dom(),
            cached@.dom(),
        ),
{
    let tickers = state.config.all_tickers();
    let tickers_fetched = new_prices.len();
    let tickers_failed = failures(&tickers, &new_prices, cached);
    proof {
        merging_keeps_dates_valid(all_series(state.prices), all_series(new_prices));
    }
    merge_prices(&mut state.prices, new_prices);
    state.last_updated = Some(now);
    Ok(ApiResponse::ok(RefreshResponse { tickers_fetched, tickers_failed }, state.last_updated))
}

// ─── Laws ────────────────────────────────────────────────────────────────────

/// Sorting by a key leaves the keys going up.
pub proof fn sorted_keys_go_up<T>(listed: Seq<T>, key: spec_fn(T) -> u64, out: Seq<T>)
    requires
        is_sorted_by(listed, key, out),
    ensures
        out.len() == listed.len(),
        forall|a: int, b: int| 0 <= a < b < out.len() ==> key(#[trigger] out[a]) <= key(#[trigger] out[b]),
{
    let keys = listed.map_values(key);
    let order = choose|order: Seq<usize>|
        is_arrangement(order, listed.len() as int) && is_stable_order(smaller(keys), order) && out == #[trigger] arranged(
            listed,
            order,
        );
    assert forall|a: int, b: int| 0 <= a < b < out.len() implies key(#[trigger] out[a]) <= key(#[trigger] out[b]) by {
        assert(ahead(smaller(keys), order[a] as int, order[b] as int));
        assert(keys[order[a] as int] == key(out[a]) && keys[order[b] as int] == key(out[b]));
    }
}

/// Rankings are listed from the first rank on: the entry at a place has the
/// rank of that place.
pub proof fn rankings_are_listed_by_rank<F: Fn(Operation) -> Double>(
    f: F,
    all: Map<Seq<char>, Seq<(Date, Double)>>,
    benchmark: Seq<char>,
    entries: Seq<TickerEntry>,
    tf: Timeframe,
    listed: Seq<RankEntry>,
    out: Seq<RankEntry>,
)
    requires
        rankings_of(f, all, benchmark, entries, tf, listed),
        is_sorted_by(listed, short_rank(), out),
    ensures
        forall|k: int| 0 <= k < out.len() ==> (#[trigger] out[k]).rank_20d == k + 1,
{
    let keys = listed.map_values(short_rank());
    let n = listed.len() as int;
    let ranks = listed.map_values(|e: RankEntry| e.rank_20d);
    let order = choose|order: Seq<usize>|
        is_arrangement(order, n) && is_stable_order(smaller(keys), order) && out == #[trigger] arranged(listed, order);
    assert forall|a: int, b: int| 0 <= a < b < n implies (#[trigger] out[a]).rank_20d < (#[trigger] out[b]).rank_20d by {
        let (i, j) = (order[a] as int, order[b] as int);
        assert(ahead(smaller(keys), i, j));
        assert(keys[i] == out[a].rank_20d && keys[j] == out[b].rank_20d);
        assert(order[a] != order[b]);
        assert(ranks[i] != ranks[j]);
    }
    assert forall|k: int| 0 <= k < n implies 1 <= (#[trigger] out[k]).rank_20d <= n by {
        assert(1 <= ranks[order[k] as int] <= n);
    }
    assert forall|k: int| 0 <= k < out.len() implies (#[trigger] out[k]).rank_20d == k + 1 by {
        lemma_climb(out.map_values(|e: RankEntry| e.rank_20d as int), k, n);
    }
}

/// Whole numbers that go up from 1 to their number are the numbers in a row.
proof fn lemma_climb(values: Seq<int>, k: int, n: int)
    requires
        values.len() == n,
        0 <= k < n,
        forall|a: int, b: int| 0 <= a < b < n ==> #[trigger] values[a] < #[trigger] values[b],
        forall|a: int| 0 <= a < n ==> 1 <= #[trigger] values[a] <= n,
    ensures
        values[k] == k + 1,
{
    lemma_climb_low(values, k, n);
    lemma_climb_high(values, k, n);
}

proof fn lemma_climb_low(values: Seq<int>, k: int, n: int)
    requires
        values.len() == n,
        0 <= k < n,
        forall|a: int, b: int| 0 <= a < b < n ==> #[trigger] values[a] < #[trigger] values[b],
        forall|a: int| 0 <= a < n ==> 1 <= #[trigger] values[a] <= n,
    ensures
        values[k] >= k + 1,
    decreases k,
{
    if k > 0 {
        lemma_climb_low(values, k - 1, n);
        assert(values[k - 1] < values[k]);
    }
}

proof fn lemma_climb_high(values: Seq<int>, k: int, n: int)
    requires
        values.len() == n,
        0 <= k < n,
        forall|a: int, b: int| 0 <= a < b < n ==> #[trigger] values[a] < #[trigger] values[b],
        forall|a: int| 0 <= a < n ==> 1 <= #[trigger] values[a] <= n,
    ensures
        values[k] <= k + 1,
    decreases n - k,
{
    if k < n - 1 {
        lemma_climb_high(values, k + 1, n);
        assert(values[k] < values[k + 1]);
    }
}

/// Scores are listed from the greatest on, as long as they can be compared.
pub proof fn scores_go_down(listed: Seq<ZScoreEntry>, out: Seq<ZScoreEntry>)
    requires
        is_listed_by_score(listed, out),
        comparable(short_scores(listed)),
    ensures
        out.len() == listed.len(),
        forall|a: int, b: int| 0 <= a < b < out.len() ==> !(#[trigger] out[a]).z_short.below((#[trigger] out[b]).z_short),
{
    let scores = short_scores(listed);
    let order = choose|order: Seq<usize>|
        is_arrangement(order, listed.len() as int) && (comparable(scores) ==> is_stable_order(greater(scores), order))
            && out == #[trigger] arranged(listed, order);
    assert forall|a: int, b: int| 0 <= a < b < out.len() implies !(#[trigger] out[a]).z_short.below(
        (#[trigger] out[b]).z_short,
    ) by {
        assert(ahead(greater(scores), order[a] as int, order[b] as int));
        assert(scores[order[a] as int] == out[a].z_short && scores[order[b] as int] == out[b].z_short);
    }
}

/// The report of a refresh accounts for every ticker: it is missing just where
/// it was neither fetched nor known before.
pub proof fn refresh_accounts_for_every_ticker(
    tickers: Seq<Seq<char>>,
    fetched: Set<Seq<char>>,
    cached: Set<Seq<char>>,
    ticker: Seq<char>,
)
    requires
        tickers.contains(ticker),
    ensures
        failed_tickers(tickers, fetched, cached).contains(ticker) <==> !fetched.contains(ticker) && !cached.contains(ticker),
{
    broadcast use vstd::seq_lib::group_filter_ensures;

    let pred = |t: Seq<char>| !fetched.contains(t) && !cached.contains(t);
    let failed = failed_tickers(tickers, fetched, cached);
    let k = choose|k: int| 0 <= k < tickers.len() && tickers[k] == ticker;
    if pred(ticker) {
        assert(pred(tickers[k]));
        assert(failed.contains(tickers[k]));
    }
    if failed.contains(ticker) {
        let i = choose|i: int| 0 <= i < failed.len() && failed[i] == ticker;
        assert(pred(failed[i]));
    }
}

/// Once prices are there, no refresh takes them away, and a refresh that fetched
/// any brings them.
pub proof fn refreshed_state_has_prices(
    existing: Map<Seq<char>, Seq<(Date, Double)>>,
    new: Map<Seq<char>, Seq<(Date, Double)>>,
)
    ensures
        merged(existing, new) == Map::<Seq<char>, Seq<(Date, Double)>>::empty() <==> (existing == Map::<
            Seq<char>,
            Seq<(Date, Double)>,
        >::empty() && new == Map::<Seq<char>, Seq<(Date, Double)>>::empty()),
{
    let all = merged(existing, new);
    let none = Map::<Seq<char>, Seq<(Date, Double)>>::empty();
    if existing == none && new == none {
        assert(all =~= none);
    }
    if all == none {
        assert forall|t: Seq<char>| !(#[trigger] existing.contains_key(t)) by {
            assert(!all.contains_key(t));
        }
        assert forall|t: Seq<char>| !(#[trigger] new.contains_key(t)) by {
            assert(!all.contains_key(t));
        }
        assert(existing =~= none);
        assert(new =~= none);
    }
}

} // verus!
