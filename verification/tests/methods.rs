use sector_rotation::arithmetic::Operation;
use sector_rotation::calendar::Date;
use sector_rotation::compute::{
    classify_quadrant, classify_signal, compute_convergence, compute_rankings, compute_rrg, compute_zscores, RankEntry,
    RrgEntry, RrgPoint, Timeframe, ZScoreEntry,
};
use sector_rotation::data::PriceMap;
use sector_rotation::number::{Double, NAN};
use sector_rotation::tickers::TickerMap;

fn d(x: f64) -> Double {
    Double { bits: x.to_bits() }
}

fn f(x: Double) -> f64 {
    f64::from_bits(x.bits)
}

fn float(op: Operation) -> Double {
    let r = match op {
        Operation::Add(a, b) => f(a) + f(b),
        Operation::Subtract(a, b) => f(a) - f(b),
        Operation::Multiply(a, b) => f(a) * f(b),
        Operation::Divide(a, b) => f(a) / f(b),
        Operation::MultiplyAdd(a, b, c) => f(a).mul_add(f(b), f(c)),
        Operation::Square(a) => f(a).powi(2),
        Operation::SquareRoot(a) => f(a).sqrt(),
        Operation::Round(a) => f(a).round(),
        Operation::Count(n) => n as f64,
    };
    if r.is_nan() { Double { bits: NAN } } else { d(r) }
}

fn market(rows: &[(&str, Vec<f64>)]) -> PriceMap {
    let mut m = TickerMap::new();
    for (ticker, prices) in rows {
        let series = prices.iter().enumerate().map(|(i, p)| (Date { days: 738_000 + i as i32 }, d(*p))).collect();
        m.insert(ticker.to_string(), series);
    }
    m
}

fn flat(n: usize) -> Vec<f64> {
    vec![100.0; n]
}

fn small() -> Timeframe {
    Timeframe {
        ema_short: 2,
        ema_long: 4,
        mom_lookback: 2,
        tail_len: 3,
        win_short: 1,
        win_med: 2,
        win_long: 3,
        rank_change_lookback: 1,
        z_short: 1,
        z_long: 2,
    }
}

fn with_end(n: usize, end: &[f64]) -> Vec<f64> {
    let mut v = flat(n - end.len());
    v.extend_from_slice(end);
    v
}

fn round2(v: f64) -> f64 {
    (v * 100.0).round() / 100.0
}

fn expected_average(values: &[f64], span: usize) -> Vec<f64> {
    let alpha = 2.0 / (span as f64 + 1.0);
    let mut last = values[..span].iter().sum::<f64>() / span as f64;
    let mut out = vec![last; span];
    for v in &values[span..] {
        last = (v - last).mul_add(alpha, last);
        out.push(last);
    }
    out
}

#[test]
fn timeframes_have_their_windows() {
    let daily = Timeframe::daily();
    assert_eq!((daily.ema_short, daily.ema_long, daily.mom_lookback, daily.tail_len), (50, 200, 20, 25));
    assert_eq!((daily.win_short, daily.win_med, daily.win_long, daily.rank_change_lookback), (20, 63, 126, 20));
    assert_eq!((daily.z_short, daily.z_long), (20, 63));
    let weekly = Timeframe::weekly();
    assert_eq!((weekly.ema_short, weekly.ema_long, weekly.mom_lookback, weekly.tail_len), (10, 40, 4, 5));
    assert_eq!((weekly.win_short, weekly.win_med, weekly.win_long, weekly.rank_change_lookback), (4, 13, 26, 4));
    assert_eq!((weekly.z_short, weekly.z_long), (4, 13));
}

#[test]
fn a_sector_that_moves_with_the_market_stands_at_100() {
    let moving: Vec<f64> = (0..20).map(|i| 50.0 + i as f64).collect();
    let twice: Vec<f64> = moving.iter().map(|p| 2.0 * p).collect();
    let m = market(&[("SPY", moving), ("XLK", twice)]);
    let out = compute_rrg(&m, "SPY", &[("XLK", "Technology")], &small(), &float);
    assert_eq!(out.len(), 1);
    assert_eq!((out[0].ticker.as_str(), out[0].name.as_str()), ("XLK", "Technology"));
    assert_eq!(out[0].tail.len(), 3);
    assert!(out[0].tail.iter().all(|p| f(p.rs_ratio) == 100.0 && f(p.rs_momentum) == 100.0));
    assert_eq!(out[0].quadrant, "Leading");
}

#[test]
fn the_rotation_graph_follows_its_formulas() {
    let tf = Timeframe::weekly();
    let n = 70;
    let sector: Vec<f64> = (0..n).map(|i| 100.0 + 10.0 * (i as f64 / 7.0).sin() + i as f64 * 0.3).collect();
    let bench: Vec<f64> = (0..n).map(|i| 90.0 + 5.0 * (i as f64 / 5.0).cos()).collect();
    let rs: Vec<f64> = sector.iter().zip(&bench).map(|(s, b)| s / b).collect();
    let (short, long) = (expected_average(&rs, 10), expected_average(&rs, 40));
    let ratio: Vec<f64> = short.iter().zip(&long).map(|(s, l)| 100.0 + (s - l) / l * 100.0).collect();
    let m = market(&[("SPY", bench), ("XLK", sector)]);
    let out = compute_rrg(&m, "SPY", &[("XLK", "Technology")], &tf, &float);
    let tail = &out[0].tail;
    assert_eq!(tail.len(), 5);
    for k in 0..5 {
        let i = n - 5 + k;
        let moved = 100.0 + (ratio[i] - ratio[i - 4]) / ratio[i - 4] * 100.0;
        assert_eq!(f(tail[k].rs_ratio), round2(ratio[i]));
        assert_eq!(f(tail[k].rs_momentum), round2(moved));
    }
    assert_eq!(out[0].current, tail[4]);
    assert_eq!(out[0].quadrant, classify_quadrant(tail[4].rs_ratio, tail[4].rs_momentum));
}

#[test]
fn tickers_without_enough_history_are_left_out() {
    // the small graph takes 4 + 2 + 3 + 5 bars
    let m = market(&[("SPY", flat(20)), ("XLK", flat(14)), ("XLE", flat(13))]);
    let tickers = [("XLE", "Energy"), ("XLK", "Technology"), ("XLV", "Health")];
    let out = compute_rrg(&m, "SPY", &tickers, &small(), &float);
    assert_eq!(out.iter().map(|e| e.ticker.as_str()).collect::<Vec<_>>(), vec!["XLK"]);
    // the small rankings take 3 + 1 + 5 bars, the small scores 2 + 5
    let m = market(&[("SPY", flat(20)), ("A", flat(9)), ("B", flat(8)), ("C", flat(7)), ("D", flat(6))]);
    let tickers = [("A", "a"), ("B", "b"), ("C", "c"), ("D", "d")];
    assert_eq!(compute_rankings(&m, "SPY", &tickers, &small(), &float).len(), 1);
    assert_eq!(compute_zscores(&m, "SPY", &tickers, &small(), &float).len(), 3);
}

#[test]
fn without_the_benchmark_there_is_nothing() {
    let m = market(&[("XLK", flat(20))]);
    assert!(compute_rrg(&m, "SPY", &[("XLK", "Technology")], &small(), &float).is_empty());
    assert!(compute_rankings(&m, "SPY", &[("XLK", "Technology")], &small(), &float).is_empty());
    assert!(compute_zscores(&m, "SPY", &[("XLK", "Technology")], &small(), &float).is_empty());
}

#[test]
fn a_graph_without_a_tail_has_no_entries() {
    let m = market(&[("SPY", flat(20)), ("XLK", flat(20))]);
    let tf = Timeframe { tail_len: 0, ..small() };
    assert!(compute_rrg(&m, "SPY", &[("XLK", "Technology")], &tf, &float).is_empty());
}

#[test]
fn the_graph_of_joined_lists_is_the_joined_graphs() {
    let wave = |k: f64| (0..20).map(|i| 100.0 + k * (i as f64 / 3.0).sin()).collect::<Vec<f64>>();
    let m = market(&[("SPY", wave(1.0)), ("A", wave(4.0)), ("B", wave(-3.0)), ("C", wave(9.0)), ("D", flat(5))]);
    let graph = |tickers: &[(&str, &str)]| compute_rrg(&m, "SPY", tickers, &small(), &float);
    let first = [("C", "c"), ("D", "d")];
    let second = [("A", "a"), ("C", "again"), ("X", "x"), ("B", "b")];
    let both: Vec<(&str, &str)> = first.iter().chain(&second).copied().collect();
    let joined: Vec<RrgEntry> = graph(&first).into_iter().chain(graph(&second)).collect();
    let whole = graph(&both);
    assert_eq!(whole.len(), 4);
    assert_eq!(format!("{whole:?}"), format!("{joined:?}"));
    assert_eq!(format!("{:?}", whole.clone()), format!("{joined:?}"));
}

#[test]
fn quadrants_are_told_apart_at_100() {
    assert_eq!(classify_quadrant(d(100.0), d(100.0)), "Leading");
    assert_eq!(classify_quadrant(d(100.0), d(99.99)), "Weakening");
    assert_eq!(classify_quadrant(d(99.99), d(99.99)), "Lagging");
    assert_eq!(classify_quadrant(d(99.99), d(100.0)), "Improving");
    assert_eq!(classify_quadrant(d(f64::NAN), d(f64::NAN)), "Lagging");
}

#[test]
fn ranks_and_trends_come_from_relative_returns() {
    let ends = [[110.0, 110.0], [108.0, 109.08], [106.0, 108.12], [104.0, 107.12], [102.0, 106.08]];
    let names = ["T0", "T1", "T2", "T3", "T4"];
    let mut rows = vec![("SPY", flat(12))];
    for i in 0..5 {
        rows.push((names[i], with_end(12, &ends[i])));
    }
    let tickers: Vec<(&str, &str)> = names.iter().map(|n| (*n, *n)).collect();
    let out = compute_rankings(&market(&rows), "SPY", &tickers, &small(), &float);
    let now: Vec<usize> = out.iter().map(|e| e.rank_20d).collect();
    assert_eq!(now, vec![5, 4, 3, 2, 1]);
    let change: Vec<i32> = out.iter().map(|e| e.rank_change).collect();
    assert_eq!(change, vec![-4, -2, 0, 2, 4]);
    let trends: Vec<&str> = out.iter().map(|e| e.trend.as_str()).collect();
    assert_eq!(trends, vec!["falling", "stable", "stable", "stable", "rising"]);
    assert_eq!(out.iter().map(|e| f(e.rel_ret_20d)).collect::<Vec<_>>(), vec![0.0, 1.0, 2.0, 3.0, 4.0]);
    assert_eq!(out.iter().map(|e| f(e.rel_ret_63d)).collect::<Vec<_>>(), vec![10.0, 9.08, 8.12, 7.12, 6.08]);
    assert_eq!(out.iter().map(|e| e.rank_63d).collect::<Vec<_>>(), vec![1, 2, 3, 4, 5]);
    assert_eq!(out.iter().map(|e| e.rank_126d).collect::<Vec<_>>(), vec![1, 2, 3, 4, 5]);
}

#[test]
fn returns_are_relative_to_the_benchmark() {
    let m = market(&[("SPY", with_end(12, &[100.0, 110.0])), ("XLK", with_end(12, &[100.0, 125.0]))]);
    let out = compute_rankings(&m, "SPY", &[("XLK", "Technology")], &small(), &float);
    assert_eq!(f(out[0].rel_ret_20d), 15.0);
    assert_eq!(out[0].rank_20d, 1);
    assert_eq!(out[0].trend, "stable");
}

#[test]
fn scores_compare_the_tickers_with_each_other() {
    let m = market(&[
        ("SPY", flat(10)),
        ("UP", with_end(10, &[100.0, 120.0])),
        ("DOWN", with_end(10, &[100.0, 110.0])),
    ]);
    let out = compute_zscores(&m, "SPY", &[("UP", "Up"), ("DOWN", "Down")], &small(), &float);
    assert_eq!(out.len(), 2);
    assert_eq!((f(out[0].z_short), f(out[0].z_long)), (1.0, 1.0));
    assert_eq!((f(out[1].z_short), f(out[1].z_long)), (-1.0, -1.0));
    assert_eq!(out[0].signal, "neutral");
    let alone = compute_zscores(&m, "SPY", &[("UP", "Up")], &small(), &float);
    assert_eq!((f(alone[0].z_short), alone[0].signal.as_str()), (0.0, "neutral"));
}

#[test]
fn signals_follow_the_two_scores() {
    assert_eq!(classify_signal(d(1.51), d(0.51)), "leader");
    assert_eq!(classify_signal(d(1.5), d(0.51)), "neutral");
    assert_eq!(classify_signal(d(1.51), d(0.5)), "neutral");
    assert_eq!(classify_signal(d(0.51), d(-0.01)), "improving");
    assert_eq!(classify_signal(d(0.51), d(-2.0)), "improving");
    assert_eq!(classify_signal(d(0.5), d(-0.01)), "neutral");
    assert_eq!(classify_signal(d(-1.51), d(-0.51)), "lagging");
    assert_eq!(classify_signal(d(-1.5), d(-0.51)), "neutral");
    assert_eq!(classify_signal(d(0.01), d(-1.51)), "reverting");
    assert_eq!(classify_signal(d(0.0), d(-1.51)), "neutral");
    assert_eq!(classify_signal(d(f64::NAN), d(-2.0)), "neutral");
}

fn graph_entry(ticker: &str, quadrant: &str, ratios: &[f64]) -> RrgEntry {
    let tail: Vec<RrgPoint> = ratios.iter().map(|r| RrgPoint { rs_ratio: d(*r), rs_momentum: d(100.0) }).collect();
    RrgEntry {
        ticker: ticker.to_string(),
        name: format!("{ticker} name"),
        current: RrgPoint { rs_ratio: d(100.0), rs_momentum: d(100.0) },
        tail,
        quadrant: quadrant.to_string(),
    }
}

fn rank_entry(ticker: &str, rank_change: i32) -> RankEntry {
    RankEntry {
        ticker: ticker.to_string(),
        name: String::new(),
        rel_ret_20d: d(0.0),
        rel_ret_63d: d(0.0),
        rel_ret_126d: d(0.0),
        rank_20d: 1,
        rank_63d: 1,
        rank_126d: 1,
        rank_change,
        trend: "stable".to_string(),
    }
}

fn score_entry(ticker: &str, signal: &str) -> ZScoreEntry {
    ZScoreEntry {
        ticker: ticker.to_string(),
        name: String::new(),
        z_short: d(0.0),
        z_long: d(0.0),
        signal: signal.to_string(),
    }
}

#[test]
fn confidence_grows_with_the_signals() {
    let weigh = |quadrant: &str, ratios: &[f64], change: i32, signal: &str| {
        let mut out = compute_convergence(
            &[graph_entry("XLK", quadrant, ratios)],
            &[rank_entry("XLK", change)],
            &[score_entry("XLK", signal)],
        );
        let e = out.remove(0);
        assert_eq!((e.ticker.as_str(), e.name.as_str()), ("XLK", "XLK name"));
        (e.rrg_signal, e.rank_signal, e.zscore_signal, e.confidence)
    };
    let up = [99.0, 100.0];
    assert_eq!(weigh("Leading", &up, 2, "leader"), (true, true, true, "high".to_string()));
    assert_eq!(weigh("Improving", &up, 1, "improving"), (true, false, true, "medium".to_string()));
    assert_eq!(weigh("Weakening", &up, 2, "reverting"), (false, true, true, "medium".to_string()));
    assert_eq!(weigh("Lagging", &up, 5, "lagging"), (false, true, false, "low".to_string()));
    assert_eq!(weigh("Leading", &[100.0, 100.0], 0, "neutral"), (false, false, false, "low".to_string()));
    assert_eq!(weigh("Leading", &[100.0], 2, "neutral"), (false, true, false, "low".to_string()));
    assert_eq!(weigh("Leading", &[], 2, "neutral"), (false, true, false, "low".to_string()));
}

#[test]
fn sectors_unknown_to_a_method_are_not_weighed() {
    let graph = [
        graph_entry("A", "Leading", &[1.0, 2.0]),
        graph_entry("B", "Leading", &[1.0, 2.0]),
        graph_entry("C", "Leading", &[1.0, 2.0]),
    ];
    let out = compute_convergence(
        &graph,
        &[rank_entry("C", 0), rank_entry("A", 0), rank_entry("C", 3)],
        &[score_entry("C", "neutral"), score_entry("B", "leader"), score_entry("C", "leader")],
    );
    assert_eq!(out.len(), 1);
    // of several entries of a ticker the last one counts
    assert_eq!((out[0].ticker.as_str(), out[0].confidence.as_str()), ("C", "high"));
}

#[test]
fn every_sector_of_the_graph_is_weighed() {
    for (tf, n) in [(Timeframe::weekly(), 54), (Timeframe::daily(), 250)] {
        let m = market(&[("SPY", flat(n)), ("A", flat(n)), ("B", flat(n - 1)), ("C", flat(n))]);
        let tickers = [("C", "c"), ("B", "b"), ("A", "a")];
        let rrg = compute_rrg(&m, "SPY", &tickers, &tf, &float);
        let rankings = compute_rankings(&m, "SPY", &tickers, &tf, &float);
        let zscores = compute_zscores(&m, "SPY", &tickers, &tf, &float);
        let out = compute_convergence(&rrg, &rankings, &zscores);
        assert_eq!(rrg.len(), 2);
        assert_eq!(rankings.len(), 3);
        assert_eq!(out.iter().map(|e| e.ticker.as_str()).collect::<Vec<_>>(), vec!["C", "A"]);
    }
}
