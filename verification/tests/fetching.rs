use chrono::{Datelike, NaiveDate};
use sector_rotation::calendar::{Date, FIRST_DAY, LAST_DAY};
use sector_rotation::data::PriceSeries;
use sector_rotation::fetch::{
    fetch_incremental, fetch_url, pause, plan_fetches, read_response, utc_date, Fetch, FetchAction, FetchError,
    FetchEvent, YfAdjClose, YfChart, YfIndicators, YfQuote, YfResponse, YfResult, MAX_RETRIES,
};
use sector_rotation::number::Double;
use sector_rotation::tickers::TickerMap;

fn day(y: i32, m: u32, d: u32) -> Date {
    Date { days: NaiveDate::from_ymd_opt(y, m, d).unwrap().num_days_from_ce() }
}

fn stamp(y: i32, m: u32, d: u32, hour: u32) -> i64 {
    NaiveDate::from_ymd_opt(y, m, d).unwrap().and_hms_opt(hour, 30, 0).unwrap().and_utc().timestamp()
}

fn price(x: f64) -> Double {
    Double { bits: x.to_bits() }
}

fn closes(xs: &[Option<f64>]) -> Vec<Option<Double>> {
    xs.iter().map(|x| x.map(price)).collect()
}

fn answer(result: Option<Vec<YfResult>>, error: Option<&str>) -> YfResponse {
    YfResponse { chart: YfChart { result, error: error.map(|e| e.to_string()) } }
}

fn result(timestamp: Vec<i64>, adjclose: Option<Vec<&[Option<f64>]>>, quote: Vec<&[Option<f64>]>) -> YfResult {
    YfResult {
        timestamp,
        indicators: YfIndicators {
            adjclose: adjclose.map(|a| a.into_iter().map(|c| YfAdjClose { adjclose: closes(c) }).collect()),
            quote: quote.into_iter().map(|c| YfQuote { close: closes(c) }).collect(),
        },
    }
}

fn january() -> Vec<i64> {
    vec![stamp(2024, 1, 2, 14), stamp(2024, 1, 5, 14), stamp(2024, 1, 8, 14), stamp(2024, 1, 10, 14)]
}

#[test]
fn the_url_asks_for_two_years_or_from_midnight_on() {
    assert_eq!(
        fetch_url("SPY", None, 1_700_000_000),
        "https://query1.finance.yahoo.com/v8/finance/chart/SPY?interval=1d&range=2y"
    );
    assert_eq!(
        fetch_url("XLK", Some(day(1970, 1, 2)), 1_700_000_000),
        "https://query1.finance.yahoo.com/v8/finance/chart/XLK?interval=1d&period1=86400&period2=1700000000"
    );
    assert_eq!(
        fetch_url("^GSPC", Some(day(1969, 12, 31)), -5),
        "https://query1.finance.yahoo.com/v8/finance/chart/^GSPC?interval=1d&period1=-86400&period2=-5"
    );
    let last = fetch_url("A", Some(Date { days: LAST_DAY }), 0);
    let midnight = NaiveDate::MAX.and_hms_opt(0, 0, 0).unwrap().and_utc().timestamp();
    assert!(last.ends_with(&format!("period1={midnight}&period2=0")));
}

#[test]
fn seconds_fall_on_utc_days() {
    assert_eq!(utc_date(0), Some(day(1970, 1, 1)));
    assert_eq!(utc_date(86_399), Some(day(1970, 1, 1)));
    assert_eq!(utc_date(86_400), Some(day(1970, 1, 2)));
    assert_eq!(utc_date(-1), Some(day(1969, 12, 31)));
    let first = NaiveDate::MIN.and_hms_opt(0, 0, 0).unwrap().and_utc().timestamp();
    let last = NaiveDate::MAX.and_hms_opt(23, 59, 59).unwrap().and_utc().timestamp();
    assert_eq!(utc_date(first), Some(Date { days: FIRST_DAY }));
    assert_eq!(utc_date(first - 1), None);
    assert_eq!(utc_date(last), Some(Date { days: LAST_DAY }));
    assert_eq!(utc_date(last + 1), None);
    assert_eq!(utc_date(i64::MAX), None);
    assert_eq!(utc_date(i64::MIN), None);
}

#[test]
fn adjusted_closes_come_before_closes() {
    let adjusted: &[Option<f64>] = &[Some(1.0), Some(2.0), Some(3.0), Some(4.0)];
    let plain: &[Option<f64>] = &[Some(10.0), Some(20.0), Some(30.0), Some(40.0)];
    let read = |r: YfResult| read_response(answer(Some(vec![r]), None), None).unwrap();
    let weekly = |a: f64, b: f64| -> PriceSeries { vec![(day(2024, 1, 5), price(a)), (day(2024, 1, 10), price(b))] };
    assert_eq!(read(result(january(), Some(vec![adjusted]), vec![plain])), weekly(2.0, 4.0));
    assert_eq!(read(result(january(), Some(vec![]), vec![plain])), weekly(20.0, 40.0));
    assert_eq!(read(result(january(), None, vec![plain])), weekly(20.0, 40.0));
    assert!(read(result(january(), None, vec![])).is_empty());
    assert!(read(result(january(), Some(vec![&[]]), vec![plain])).is_empty());
}

#[test]
fn missing_prices_and_impossible_times_are_passed_over() {
    let mut times = january();
    times[3] = i64::MAX;
    let gaps: &[Option<f64>] = &[Some(1.0), None, Some(3.0), Some(4.0)];
    let series = read_response(answer(Some(vec![result(times, None, vec![gaps])]), None), None).unwrap();
    assert_eq!(series, vec![(day(2024, 1, 2), price(1.0)), (day(2024, 1, 8), price(3.0))]);
    let short: &[Option<f64>] = &[Some(1.0)];
    let series = read_response(answer(Some(vec![result(january(), None, vec![short])]), None), None).unwrap();
    assert_eq!(series, vec![(day(2024, 1, 2), price(1.0))]);
}

#[test]
fn only_days_after_the_cutoff_are_kept() {
    let all: &[Option<f64>] = &[Some(1.0), Some(2.0), Some(3.0), Some(4.0)];
    let read = |since: Date| {
        read_response(answer(Some(vec![result(january(), None, vec![all])]), None), Some(since)).unwrap()
    };
    assert_eq!(read(day(2024, 1, 2)), vec![(day(2024, 1, 5), price(2.0)), (day(2024, 1, 10), price(4.0))]);
    assert_eq!(read(day(2024, 1, 5)), vec![(day(2024, 1, 10), price(4.0))]);
    assert!(read(day(2024, 1, 10)).is_empty());
    assert!(read(day(2024, 1, 4)).iter().all(|(date, _)| date.days > day(2024, 1, 4).days));
}

#[test]
fn reported_errors_and_empty_answers_fail() {
    let all: &[Option<f64>] = &[Some(1.0)];
    let reported = read_response(answer(Some(vec![result(january(), None, vec![all])]), Some("Not Found")), None);
    let error = reported.unwrap_err();
    assert!(matches!(&error, FetchError::Api(why) if why == "Not Found"));
    assert_eq!(error.message("SPY"), "Yahoo Finance API error for SPY: Not Found");
    let none = read_response(answer(None, None), None).unwrap_err();
    assert!(matches!(none, FetchError::NoData));
    assert_eq!(none.message("SPY"), "No data returned for SPY");
    assert!(matches!(read_response(answer(Some(vec![]), None), None), Err(FetchError::NoData)));
}

#[test]
fn failures_in_words() {
    assert_eq!(FetchError::Transport("no route".to_string()).message("SPY"), "no route");
    assert_eq!(FetchError::Body("not json".to_string()).message("SPY"), "not json");
    assert_eq!(FetchError::Http("429 Too Many Requests".to_string()).message("SPY"), "SPY: HTTP 429 Too Many Requests");
}

#[test]
fn passing_failures_are_retried_twice() {
    let mut fetch = Fetch::new(None);
    let first = fetch.step(FetchEvent::SendFailed("down".to_string()));
    assert!(matches!(first, FetchAction::SendAfter(1000)));
    let second = fetch.step(FetchEvent::Answered(503, "503 Service Unavailable".to_string()));
    assert!(matches!(second, FetchAction::SendAfter(2000)));
    assert_eq!(fetch.attempt, MAX_RETRIES);
    let third = fetch.step(FetchEvent::BodyUnreadable("cut off".to_string()));
    assert!(matches!(third, FetchAction::Finish(Err(FetchError::Body(why))) if why == "cut off"));
}

#[test]
fn each_failure_is_the_outcome_of_the_last_try() {
    let last = || Fetch { since: None, attempt: MAX_RETRIES };
    assert!(matches!(
        last().step(FetchEvent::SendFailed("down".to_string())),
        FetchAction::Finish(Err(FetchError::Transport(_)))
    ));
    assert!(matches!(
        last().step(FetchEvent::Answered(429, "429".to_string())),
        FetchAction::Finish(Err(FetchError::Http(_)))
    ));
}

#[test]
fn only_some_statuses_are_retried() {
    for status in [429, 500, 503, 599] {
        let action = Fetch::new(None).step(FetchEvent::Answered(status, status.to_string()));
        assert!(matches!(action, FetchAction::SendAfter(1000)), "{status}");
    }
    for status in [200, 301, 404, 428, 430, 499, 600] {
        let mut fetch = Fetch::new(None);
        assert!(matches!(fetch.step(FetchEvent::Answered(status, status.to_string())), FetchAction::ReadBody), "{status}");
        assert_eq!(fetch.attempt, 0);
    }
}

#[test]
fn an_answer_decides_at_once() {
    let mut fetch = Fetch::new(Some(day(2024, 1, 5)));
    let all: &[Option<f64>] = &[Some(1.0), Some(2.0), Some(3.0), Some(4.0)];
    let read = answer(Some(vec![result(january(), None, vec![all])]), None);
    match fetch.step(FetchEvent::BodyRead(read)) {
        FetchAction::Finish(Ok(series)) => assert_eq!(series, vec![(day(2024, 1, 10), price(4.0))]),
        other => panic!("{other:?}"),
    }
    let reported = Fetch::new(None).step(FetchEvent::BodyRead(answer(None, Some("bad"))));
    assert!(matches!(reported, FetchAction::Finish(Err(FetchError::Api(_)))));
}

#[test]
fn tickers_known_up_to_today_are_left_out() {
    let mut cached = TickerMap::new();
    cached.insert("SPY".to_string(), day(2024, 1, 10));
    cached.insert("XLK".to_string(), day(2024, 1, 9));
    cached.insert("XLV".to_string(), day(2024, 1, 11));
    let jobs = plan_fetches(&["SPY", "XLK", "XLE", "XLV"], &cached, day(2024, 1, 10));
    let plan: Vec<(&str, Option<Date>)> = jobs.iter().map(|j| (j.ticker.as_str(), j.since)).collect();
    assert_eq!(plan, vec![("XLK", Some(day(2024, 1, 9))), ("XLE", None)]);
}

#[test]
fn only_what_was_fetched_and_is_not_empty_is_gathered() {
    let rows: PriceSeries = vec![(day(2024, 1, 5), price(2.0))];
    let later: PriceSeries = vec![(day(2024, 1, 12), price(3.0))];
    let gathered = fetch_incremental(vec![
        ("SPY".to_string(), Ok(rows.clone())),
        ("XLK".to_string(), Err(FetchError::NoData)),
        ("XLE".to_string(), Ok(vec![])),
        ("XLV".to_string(), Ok(rows.clone())),
        ("SPY".to_string(), Ok(later.clone())),
    ]);
    assert_eq!(gathered.len(), 2);
    assert_eq!(gathered.get("SPY"), Some(&later));
    assert_eq!(gathered.get("XLV"), Some(&rows));
}

#[test]
fn pauses_are_short_and_vary() {
    let pauses: Vec<u64> = (0..500).map(|_| pause()).collect();
    assert!(pauses.iter().all(|p| (100..=300).contains(p)));
    assert!(pauses.iter().any(|p| *p != pauses[0]));
}
