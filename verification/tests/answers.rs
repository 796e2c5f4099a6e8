use chrono::{Datelike, NaiveDate};
use sector_rotation::arithmetic::Operation;
use sector_rotation::calendar::{Date, Instant};
use sector_rotation::compute::Timeframe;
use sector_rotation::config::{Config, ConfigFile, TickerEntry};
use sector_rotation::data::PriceMap;
use sector_rotation::handlers::{
    build_price_history, err, get_convergence, get_detail, get_rankings, get_rrg, get_status, get_universe,
    get_zscores, no_data, post_refresh, prices_for_timeframe, refresh_update, resolve_pairs, ApiResponse, AppState,
    DetailQuery, LayerQuery,
};
use sector_rotation::number::{Double, NAN};
use sector_rotation::tickers::TickerMap;

fn d(x: f64) -> Double {
    Double { bits: x.to_bits() }
}

fn f(x: Double) -> f64 {
    f64::from_bits(x.bits)
}

fn float(op: Operation) -> Double {
    let r = match op {
        Operation::Add(a, b) => f(a) + f(b),
        Operation::Subtract(a, b) => f(a) - f(b),
        Operation::Multiply(a, b) => f(a) * f(b),
        Operation::Divide(a, b) => f(a) / f(b),
        Operation::MultiplyAdd(a, b, c) => f(a).mul_add(f(b), f(c)),
        Operation::Square(a) => f(a).powi(2),
        Operation::SquareRoot(a) => f(a).sqrt(),
        Operation::Round(a) => f(a).round(),
        Operation::Count(n) => n as f64,
    };
    if r.is_nan() { Double { bits: NAN } } else { d(r) }
}

fn day(y: i32, m: u32, d: u32) -> Date {
    Date { days: NaiveDate::from_ymd_opt(y, m, d).unwrap().num_days_from_ce() }
}

fn entry(ticker: &str, name: &str) -> TickerEntry {
    TickerEntry { ticker: ticker.to_string(), name: name.to_string(), tv_sectors: vec![], tv_industries: vec![] }
}

fn config() -> Config {
    let mut industry_groups = TickerMap::new();
    industry_groups.insert("XLK".to_string(), vec![entry("SMH", "Semiconductors"), entry("IGV", "Software")]);
    Config::load(ConfigFile {
        benchmark: "SPY".to_string(),
        sectors: vec![entry("XLK", "Technology"), entry("XLE", "Energy"), entry("XLV", "Health Care")],
        industry_groups,
    })
    .unwrap()
}

fn blank() -> AppState {
    AppState { config: config(), prices: TickerMap::new(), last_updated: None }
}

const NOW: Instant = Instant { secs: 1_705_093_200, nanos: 0 };
const STAMP: &str = "2024-01-12T21:00:00+00:00";

fn history(n: usize, growth: f64, kick: f64) -> Vec<(Date, Double)> {
    let start = day(2020, 1, 1).days;
    let mut p = 100.0;
    (0..n)
        .map(|i| {
            p *= if i + 10 >= n { 1.0 + growth + kick } else { 1.0 + growth };
            (Date { days: start + i as i32 }, d(p))
        })
        .collect()
}

fn market(n: usize) -> PriceMap {
    let mut m = TickerMap::new();
    m.insert("SPY".to_string(), history(n, 0.0005, 0.0));
    m.insert("XLK".to_string(), history(n, 0.001, -0.002));
    m.insert("XLE".to_string(), history(n, -0.0005, 0.01));
    m.insert("XLV".to_string(), history(n, 0.0002, 0.0));
    m.insert("SMH".to_string(), history(n, 0.0015, 0.0));
    m
}

fn loaded() -> AppState {
    AppState { config: config(), prices: market(400), last_updated: Some(NOW) }
}

fn layer(layer: Option<&str>, timeframe: Option<&str>) -> LayerQuery {
    LayerQuery { layer: layer.map(|t| t.to_string()), timeframe: timeframe.map(|t| t.to_string()) }
}

fn detail(timeframe: Option<&str>) -> DetailQuery {
    DetailQuery { timeframe: timeframe.map(|t| t.to_string()) }
}

#[test]
fn queries_default_to_daily_sectors() {
    for text in [None, Some("daily"), Some("Weekly"), Some("")] {
        assert!(!layer(None, text).is_weekly() && !detail(text).is_weekly());
        assert_eq!(layer(None, text).resolve_timeframe(), Timeframe::daily());
        assert_eq!(detail(text).resolve_timeframe(), Timeframe::daily());
    }
    assert!(layer(None, Some("weekly")).is_weekly() && detail(Some("weekly")).is_weekly());
    assert_eq!(layer(None, Some("weekly")).resolve_timeframe(), Timeframe::weekly());
    assert_eq!(detail(Some("weekly")).resolve_timeframe(), Timeframe::weekly());
    let c = config();
    assert_eq!(resolve_pairs(&c, &layer(None, None)), c.sector_pairs());
    assert_eq!(resolve_pairs(&c, &layer(Some("sector"), None)), c.sector_pairs());
    assert_eq!(resolve_pairs(&c, &layer(Some("industry"), None)), c.industry_pairs());
}

#[test]
fn answers_carry_the_moment() {
    let good = ApiResponse::ok(5, Some(NOW));
    assert!(good.ok);
    assert_eq!(good.data, 5);
    assert_eq!(good.last_updated.as_deref(), Some(STAMP));
    assert_eq!(ApiResponse::ok((), None).last_updated, None);
}

#[test]
fn errors_are_internal() {
    let (status, body) = err("out of order".to_string());
    assert_eq!(status, 500);
    assert!(!body.ok);
    assert_eq!(body.error, "out of order");
    assert_eq!(no_data().1.error, "No data loaded yet. Call POST /api/refresh first.");
}

#[test]
fn a_blank_state_has_no_answers() {
    let s = blank();
    let q = layer(None, None);
    let refused = "No data loaded yet. Call POST /api/refresh first.";
    assert_eq!(get_rrg(&s, &q, &float).unwrap_err().1.error, refused);
    assert_eq!(get_rankings(&s, &q, &float).unwrap_err().1.error, refused);
    assert_eq!(get_zscores(&s, &q, &float).unwrap_err().1.error, refused);
    assert_eq!(get_convergence(&s, &q, &float).unwrap_err().1.error, refused);
    let (status, body) = get_detail(&s, "XLK".to_string(), &detail(None), &float).unwrap_err();
    assert_eq!((status, body.error.as_str()), (500, refused));
    assert!(!get_status(&s).data.loaded);
}

#[test]
fn the_graph_covers_the_layer() {
    let s = loaded();
    let r = get_rrg(&s, &layer(None, None), &float).unwrap();
    assert!(r.ok);
    assert_eq!(r.last_updated.as_deref(), Some(STAMP));
    assert_eq!(r.data.iter().map(|e| e.ticker.as_str()).collect::<Vec<_>>(), vec!["XLK", "XLE", "XLV"]);
    assert!(r.data.iter().all(|e| e.tail.len() == 25));
    let r = get_rrg(&s, &layer(Some("industry"), Some("weekly")), &float).unwrap();
    assert_eq!(r.data.iter().map(|e| e.ticker.as_str()).collect::<Vec<_>>(), vec!["SMH"]);
    assert_eq!(r.data[0].tail.len(), 5);
}

#[test]
fn rankings_are_listed_from_the_first() {
    let r = get_rankings(&loaded(), &layer(None, None), &float).unwrap();
    assert_eq!(r.data.iter().map(|e| e.rank_20d).collect::<Vec<_>>(), vec![1, 2, 3]);
    assert_eq!(r.data[0].ticker, "XLE");
    assert!(f(r.data[0].rel_ret_20d) > f(r.data[1].rel_ret_20d));
}

#[test]
fn scores_are_listed_from_the_greatest() {
    let r = get_zscores(&loaded(), &layer(None, None), &float).unwrap();
    let scores: Vec<f64> = r.data.iter().map(|e| f(e.z_short)).collect();
    assert_eq!(scores.len(), 3);
    assert!(scores[0] >= scores[1] && scores[1] >= scores[2]);
    assert_eq!(r.data[0].ticker, "XLE");
}

#[test]
fn convergence_is_listed_by_confidence() {
    let r = get_convergence(&loaded(), &layer(None, None), &float).unwrap();
    let place = |c: &str| ["high", "medium", "low"].iter().position(|x| *x == c).unwrap();
    let places: Vec<usize> = r.data.iter().map(|e| place(&e.confidence)).collect();
    assert_eq!(places.len(), 3);
    assert!(places.windows(2).all(|w| w[0] <= w[1]));
    assert_eq!(r.data[0].ticker, "XLE");
}

#[test]
fn detail_looks_among_the_peers() {
    let s = loaded();
    let r = get_detail(&s, "XLK".to_string(), &detail(None), &float).unwrap();
    assert_eq!((r.data.ticker.as_str(), r.data.name.as_str()), ("XLK", "Technology"));
    assert_eq!(r.data.rrg.unwrap().ticker, "XLK");
    assert_eq!(r.data.rank.unwrap().ticker, "XLK");
    assert_eq!(r.data.zscore.unwrap().ticker, "XLK");
    assert_eq!(r.data.convergence.unwrap().ticker, "XLK");
    assert_eq!(r.data.price_history.len(), 400);
    let r = get_detail(&s, "SMH".to_string(), &detail(Some("weekly")), &float).unwrap();
    assert_eq!(r.data.name, "Semiconductors");
    assert_eq!(r.data.rank.unwrap().rank_20d, 1);
    assert_eq!(r.data.price_history.len(), 58);
    let r = get_detail(&s, "QQQ".to_string(), &detail(None), &float).unwrap();
    assert_eq!((r.data.ticker.as_str(), r.data.name.as_str()), ("QQQ", "QQQ"));
    assert!(r.data.rrg.is_none() && r.data.rank.is_none() && r.data.zscore.is_none() && r.data.convergence.is_none());
    assert!(r.data.price_history.is_empty());
}

#[test]
fn histories_start_at_100() {
    let mut m: PriceMap = TickerMap::new();
    let dates = [day(2024, 1, 2), day(2024, 1, 3), day(2024, 1, 4)];
    m.insert("SPY".to_string(), vec![(dates[0], d(400.0)), (dates[1], d(440.0)), (dates[2], d(300.0))]);
    m.insert("XLK".to_string(), vec![(dates[1], d(50.0)), (dates[2], d(55.0))]);
    let points = build_price_history(&m, "XLK", "SPY", &float);
    assert_eq!(points.len(), 2);
    assert_eq!(points[0].date, "2024-01-03");
    assert_eq!((f(points[0].price), f(points[0].benchmark), f(points[0].ratio)), (100.0, 100.0, 1.0));
    assert_eq!(points[1].date, "2024-01-04");
    assert_eq!((f(points[1].price), f(points[1].benchmark), f(points[1].ratio)), (110.0, 68.18, 1.613));
    assert!(build_price_history(&m, "XLK", "QQQ", &float).is_empty());
    assert!(build_price_history(&m, "QQQ", "SPY", &float).is_empty());
}

#[test]
fn weekly_prices_are_resampled() {
    let s = loaded();
    let daily = prices_for_timeframe(&s.prices, &layer(None, None));
    assert_eq!(daily.entries, s.prices.entries);
    let weekly = prices_for_timeframe(&s.prices, &layer(None, Some("weekly")));
    assert_eq!(weekly.get("SPY").unwrap().len(), 58);
    assert_eq!(weekly.len(), s.prices.len());
}

#[test]
fn the_universe_is_a_tree() {
    let r = get_universe(&loaded());
    assert!(r.ok);
    assert_eq!(r.last_updated, None);
    assert_eq!(r.data.benchmark, "SPY");
    assert_eq!(r.data.sectors.len(), 3);
    assert_eq!((r.data.sectors[0].ticker.as_str(), r.data.sectors[0].name.as_str()), ("XLK", "Technology"));
    let children: Vec<(&str, &str)> =
        r.data.sectors[0].children.iter().map(|c| (c.ticker.as_str(), c.name.as_str())).collect();
    assert_eq!(children, vec![("SMH", "Semiconductors"), ("IGV", "Software")]);
    assert!(r.data.sectors[1].children.is_empty());
}

#[test]
fn the_status_counts_the_tickers() {
    let r = get_status(&loaded());
    assert!(r.data.loaded);
    assert_eq!(r.data.ticker_count, 5);
    assert_eq!(r.data.last_updated.as_deref(), Some(STAMP));
    assert_eq!(r.last_updated.as_deref(), Some(STAMP));
    let r = get_status(&blank());
    assert_eq!((r.data.loaded, r.data.ticker_count, r.data.last_updated), (false, 0, None));
}

#[test]
fn a_refresh_merges_and_reports() {
    let mut s = blank();
    let mut cached = TickerMap::new();
    cached.insert("XLE".to_string(), day(2024, 1, 5));
    let mut new: PriceMap = TickerMap::new();
    new.insert("SPY".to_string(), vec![(day(2024, 1, 12), d(476.0)), (day(2024, 1, 5), d(470.0))]);
    new.insert("IGV".to_string(), vec![(day(2024, 1, 5), d(80.0))]);
    let update = refresh_update(&new, NOW).unwrap();
    assert_eq!(update.rows.len(), 3);
    assert_eq!(update.last_updated, STAMP);
    let r = post_refresh(&mut s, &cached, new, NOW).unwrap();
    assert!(r.ok);
    assert_eq!(r.last_updated.as_deref(), Some(STAMP));
    assert_eq!(r.data.tickers_fetched, 2);
    assert_eq!(r.data.tickers_failed, vec!["XLK", "XLV", "SMH"]);
    assert_eq!(s.last_updated, Some(NOW));
    assert_eq!(s.prices.get("SPY"), Some(&vec![(day(2024, 1, 5), d(470.0)), (day(2024, 1, 12), d(476.0))]));
    assert!(get_status(&s).data.loaded);
    let later = Instant { secs: NOW.secs + 60, nanos: 0 };
    let r = post_refresh(&mut s, &cached, TickerMap::new(), later).unwrap();
    assert_eq!(r.data.tickers_fetched, 0);
    assert_eq!(s.last_updated, Some(later));
    assert_eq!(s.prices.len(), 2);
    assert!(refresh_update(&TickerMap::new(), NOW).is_none());
}

#[test]
fn later_rows_keep_earlier_prices() {
    let mut s = loaded();
    let before = s.prices.get("SPY").unwrap().clone();
    let next = Date { days: before[before.len() - 1].0.days + 1 };
    let mut new: PriceMap = TickerMap::new();
    new.insert("SPY".to_string(), vec![(next, d(1.0))]);
    post_refresh(&mut s, &TickerMap::new(), new, NOW).unwrap();
    let after = s.prices.get("SPY").unwrap();
    assert_eq!(after[..before.len()], before[..]);
    assert_eq!(after[before.len()], (next, d(1.0)));
}
