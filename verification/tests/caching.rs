use chrono::{DateTime, Datelike, NaiveDate, Utc};
use sector_rotation::cache::{
    collect_dates, latest_dates, load_prices, restore_prices, upsert_prices, CacheError, DatedRow, PriceRow,
};
use sector_rotation::calendar::{Date, Instant, FIRST_DAY, LAST_DAY};
use sector_rotation::data::{merge_prices, PriceMap, PriceSeries};
use sector_rotation::number::Double;
use sector_rotation::tickers::TickerMap;
use std::collections::BTreeMap;

fn day(y: i32, m: u32, d: u32) -> Date {
    Date { days: NaiveDate::from_ymd_opt(y, m, d).unwrap().num_days_from_ce() }
}

fn price(x: f64) -> Double {
    Double { bits: x.to_bits() }
}

fn row(ticker: &str, date: &str, close: f64) -> PriceRow {
    PriceRow { ticker: ticker.to_string(), date: date.to_string(), close: price(close) }
}

fn prices() -> PriceMap {
    let mut m = TickerMap::new();
    m.insert("SPY".to_string(), vec![(day(2024, 1, 5), price(470.5)), (day(2024, 1, 12), price(476.25))]);
    m.insert("NONE".to_string(), vec![]);
    m.insert("XLK".to_string(), vec![(day(2024, 1, 5), price(190.0))]);
    m
}

const MOMENT: &str = "2024-01-12T21:00:00+00:00";

#[test]
fn rows_state_every_price() {
    let update = upsert_prices(&prices(), Instant { secs: 1_705_093_200, nanos: 0 });
    let rows: Vec<(&str, &str, f64)> =
        update.rows.iter().map(|r| (r.ticker.as_str(), r.date.as_str(), f64::from_bits(r.close.bits))).collect();
    assert_eq!(
        rows,
        vec![("SPY", "2024-01-05", 470.5), ("SPY", "2024-01-12", 476.25), ("XLK", "2024-01-05", 190.0)]
    );
    assert_eq!(update.last_updated, MOMENT);
}

#[test]
fn an_empty_map_has_no_rows() {
    let update = upsert_prices(&TickerMap::new(), Instant { secs: 0, nanos: 0 });
    assert!(update.rows.is_empty());
    assert_eq!(update.last_updated, "1970-01-01T00:00:00+00:00");
}

#[test]
fn what_was_written_is_read_back() {
    let now = Instant { secs: 1_705_093_200, nanos: 123_456_789 };
    let update = upsert_prices(&prices(), now);
    let (loaded, moment) = load_prices(Some(update.last_updated), update.rows).unwrap().unwrap();
    assert_eq!(moment, now);
    assert_eq!(loaded.len(), 2);
    assert_eq!(loaded.get("SPY"), prices().get("SPY"));
    assert_eq!(loaded.get("XLK"), prices().get("XLK"));
    assert_eq!(loaded.get("NONE"), None);
}

#[test]
fn rows_are_gathered_whatever_the_order_of_the_tickers() {
    let update = upsert_prices(&prices(), Instant { secs: 0, nanos: 0 });
    let mut rows = update.rows;
    let spy = rows.remove(0);
    rows.push(spy);
    rows.swap(0, 2);
    rows.swap(1, 2);
    let (loaded, _) = load_prices(Some(update.last_updated), rows).unwrap().unwrap();
    assert_eq!(loaded.get("SPY"), prices().get("SPY"));
    assert_eq!(loaded.get("XLK"), prices().get("XLK"));
}

#[test]
fn dates_of_all_ages_are_read_back() {
    let days = [
        FIRST_DAY,
        -1_000_000,
        -366,
        -365,
        0,
        1,
        59,
        60,
        day(1899, 12, 31).days,
        day(2000, 2, 29).days,
        day(2024, 2, 29).days,
        day(9999, 12, 31).days,
        day(9999, 12, 31).days + 1,
        10_000_000,
        LAST_DAY,
    ];
    for days in days {
        let series: PriceSeries = vec![(Date { days }, price(1.0))];
        let mut m = TickerMap::new();
        m.insert("T".to_string(), series.clone());
        let update = upsert_prices(&m, Instant { secs: 0, nanos: 0 });
        assert_eq!(update.rows[0].date, NaiveDate::from_num_days_from_ce_opt(days).unwrap().to_string());
        let (loaded, _) = load_prices(Some(update.last_updated), update.rows).unwrap().unwrap();
        assert_eq!(loaded.get("T"), Some(&series));
    }
}

#[test]
fn moments_of_all_kinds_are_read_back() {
    let first = DateTime::<Utc>::MIN_UTC.timestamp();
    let last = DateTime::<Utc>::MAX_UTC.timestamp();
    let moments = [
        (0, 0),
        (-1, 999_999_999),
        (1_705_093_200, 500_000_000),
        (1_705_093_200, 120_000),
        (1_705_093_200, 1),
        (59, 1_500_000_000),
        (-1, 1_000_000_000),
        (first, 0),
        (last, 999_999_999),
        (last, 1_999_999_999),
        (253_402_300_800, 7_000),
    ];
    for (secs, nanos) in moments {
        let mut m = TickerMap::new();
        m.insert("T".to_string(), vec![(day(2024, 1, 5), price(1.0))]);
        let update = upsert_prices(&m, Instant { secs, nanos });
        assert_eq!(update.last_updated, DateTime::from_timestamp(secs, nanos).unwrap().to_rfc3339());
        let (_, moment) = load_prices(Some(update.last_updated), update.rows).unwrap().unwrap();
        assert_eq!(moment, Instant { secs, nanos });
    }
}

#[test]
fn moments_are_written_with_the_digits_they_need() {
    let text = |secs, nanos| upsert_prices(&TickerMap::new(), Instant { secs, nanos }).last_updated;
    assert_eq!(text(851_042_397, 0), "1996-12-20T00:39:57+00:00");
    assert_eq!(text(851_042_397, 500_000_000), "1996-12-20T00:39:57.500+00:00");
    assert_eq!(text(851_042_397, 1_500_000), "1996-12-20T00:39:57.001500+00:00");
    assert_eq!(text(851_042_397, 42), "1996-12-20T00:39:57.000000042+00:00");
    assert_eq!(text(59, 1_000_000_000), "1970-01-01T00:00:60+00:00");
}

#[test]
fn an_empty_cache_holds_nothing() {
    assert!(load_prices(None, vec![row("SPY", "2024-01-05", 1.0)]).unwrap().is_none());
    assert!(load_prices(None, vec![row("SPY", "never", 1.0)]).unwrap().is_none());
    assert!(load_prices(Some(MOMENT.to_string()), vec![]).unwrap().is_none());
    let own = upsert_prices(&TickerMap::new(), Instant { secs: 59, nanos: 1_500_000_000 });
    assert!(load_prices(Some(own.last_updated), own.rows).unwrap().is_none());
}

#[test]
fn unreadable_texts_are_errors() {
    let rows = || vec![row("SPY", "2024-01-05", 1.0), row("SPY", "2024-13-05", 1.0)];
    assert_eq!(load_prices(Some("yesterday".to_string()), rows()).unwrap_err(), CacheError::BadTimestamp);
    assert_eq!(load_prices(Some("yesterday".to_string()), vec![]).unwrap_err(), CacheError::BadTimestamp);
    assert_eq!(load_prices(Some(MOMENT.to_string()), rows()).unwrap_err(), CacheError::BadDate);
}

#[test]
fn moments_in_other_zones_are_taken_to_utc() {
    let (_, moment) =
        load_prices(Some("2024-01-12T16:00:00-05:00".to_string()), vec![row("SPY", "2024-01-05", 1.0)]).unwrap().unwrap();
    assert_eq!(moment, Instant { secs: 1_705_093_200, nanos: 0 });
}

#[test]
fn restored_rows_are_gathered_by_ticker() {
    let dated = |ticker: &str, date: Option<Date>, close: f64| DatedRow {
        ticker: ticker.to_string(),
        date,
        close: price(close),
    };
    let now = Instant { secs: 5, nanos: 6 };
    let rows = || vec![dated("A", Some(day(2024, 1, 5)), 1.0), dated("B", Some(day(2024, 1, 5)), 2.0)];
    assert!(restore_prices(None, rows()).unwrap().is_none());
    assert_eq!(restore_prices(Some(None), rows()).unwrap_err(), CacheError::BadTimestamp);
    assert!(restore_prices(Some(Some(now)), vec![]).unwrap().is_none());
    let mut bad = rows();
    bad.push(dated("A", None, 3.0));
    assert_eq!(restore_prices(Some(Some(now)), bad).unwrap_err(), CacheError::BadDate);
    let mut more = rows();
    more.push(dated("A", Some(day(2024, 1, 4)), 3.0));
    let (loaded, moment) = restore_prices(Some(Some(now)), more).unwrap().unwrap();
    assert_eq!(moment, now);
    assert_eq!(loaded.get("A"), Some(&vec![(day(2024, 1, 5), price(1.0)), (day(2024, 1, 4), price(3.0))]));
    assert_eq!(loaded.get("B"), Some(&vec![(day(2024, 1, 5), price(2.0))]));
}

#[test]
fn latest_dates_pass_over_what_is_missing() {
    let dates = latest_dates(vec![
        (Some("SPY".to_string()), "2024-01-12".to_string()),
        (None, "2024-01-12".to_string()),
        (Some("XLK".to_string()), "soon".to_string()),
        (Some("XLE".to_string()), "2023-12-29".to_string()),
    ]);
    assert_eq!(dates.len(), 2);
    assert_eq!(dates.get("SPY"), Some(&day(2024, 1, 12)));
    assert_eq!(dates.get("XLE"), Some(&day(2023, 12, 29)));
}

#[test]
fn collected_dates_are_by_ticker() {
    let dates = collect_dates(vec![
        (Some("A".to_string()), Some(day(2024, 1, 1))),
        (Some("B".to_string()), None),
        (None, Some(day(2024, 1, 3))),
        (Some("A".to_string()), Some(day(2024, 1, 2))),
    ]);
    assert_eq!(dates.len(), 1);
    assert_eq!(dates.get("A"), Some(&day(2024, 1, 2)));
}

fn upsert_into(table: &mut BTreeMap<(String, String), u64>, prices: &PriceMap) {
    for r in upsert_prices(prices, Instant { secs: 0, nanos: 0 }).rows {
        table.insert((r.ticker, r.date), r.close.bits);
    }
}

#[test]
fn the_table_keeps_step_with_memory() {
    let mut memory = prices();
    let mut new: PriceMap = TickerMap::new();
    new.insert("SPY".to_string(), vec![(day(2024, 1, 19), price(482.0)), (day(2024, 1, 12), price(477.0))]);
    new.insert("XLE".to_string(), vec![(day(2024, 1, 12), price(84.0))]);
    let mut table = BTreeMap::new();
    upsert_into(&mut table, &memory);
    upsert_into(&mut table, &new);
    merge_prices(&mut memory, new);
    let mut merged = BTreeMap::new();
    upsert_into(&mut merged, &memory);
    assert_eq!(table, merged);
    assert_eq!(table.len(), 5);
}

#[test]
fn a_new_cache_gives_back_sorted_prices() {
    let mut written: PriceMap = TickerMap::new();
    written.insert("XLK".to_string(), vec![(day(2024, 1, 12), price(2.0)), (day(987, 6, 5), price(1.0))]);
    written.insert("NONE".to_string(), vec![]);
    written.insert("SPY".to_string(), vec![(day(9999, 12, 31), price(4.0)), (day(1999, 12, 31), price(3.0))]);
    let mut table = BTreeMap::new();
    for _ in 0..2 {
        upsert_into(&mut table, &written);
        let rows = table.iter().map(|((t, date), bits)| row(t, date, f64::from_bits(*bits))).collect();
        let (loaded, _) = load_prices(Some(MOMENT.to_string()), rows).unwrap().unwrap();
        assert_eq!(loaded.len(), 2);
        assert_eq!(loaded.get("XLK"), Some(&vec![(day(987, 6, 5), price(1.0)), (day(2024, 1, 12), price(2.0))]));
        assert_eq!(loaded.get("SPY"), Some(&vec![(day(1999, 12, 31), price(3.0)), (day(9999, 12, 31), price(4.0))]));
    }
}
