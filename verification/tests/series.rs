use chrono::{Datelike, NaiveDate};
use sector_rotation::calendar::{Date, EPOCH_DAY, FIRST_DAY, LAST_DAY};
use sector_rotation::data::{align, copy_prices, merge_prices, prices_only, resample_all, resample_weekly, PriceMap, PriceSeries};
use sector_rotation::number::Double;
use sector_rotation::tickers::TickerMap;

fn day(y: i32, m: u32, d: u32) -> Date {
    Date { days: NaiveDate::from_ymd_opt(y, m, d).unwrap().num_days_from_ce() }
}

fn price(x: f64) -> Double {
    Double { bits: x.to_bits() }
}

fn series(rows: &[(Date, f64)]) -> PriceSeries {
    rows.iter().map(|(date, p)| (*date, price(*p))).collect()
}

fn map(rows: &[(&str, PriceSeries)]) -> PriceMap {
    let mut m = TickerMap::new();
    for (ticker, s) in rows {
        m.insert(ticker.to_string(), s.clone());
    }
    m
}

#[test]
fn calendar_ends_are_those_of_chrono() {
    assert_eq!(FIRST_DAY, NaiveDate::MIN.num_days_from_ce());
    assert_eq!(LAST_DAY, NaiveDate::MAX.num_days_from_ce());
    assert_eq!(EPOCH_DAY, day(1970, 1, 1).days);
}

#[test]
fn prices_only_drops_the_dates() {
    let s = series(&[(day(2024, 1, 2), 1.0), (day(2024, 1, 1), 2.0)]);
    assert_eq!(prices_only(&s), vec![price(1.0), price(2.0)]);
    assert!(prices_only(&vec![]).is_empty());
}

#[test]
fn align_joins_on_dates() {
    let a = series(&[(day(2024, 1, 1), 1.0), (day(2024, 1, 2), 2.0), (day(2024, 1, 4), 4.0)]);
    let b = series(&[(day(2024, 1, 2), 20.0), (day(2024, 1, 3), 30.0), (day(2024, 1, 4), 40.0)]);
    let (left, right) = align(&a, &b);
    assert_eq!(left, series(&[(day(2024, 1, 2), 2.0), (day(2024, 1, 4), 4.0)]));
    assert_eq!(right, series(&[(day(2024, 1, 2), 20.0), (day(2024, 1, 4), 40.0)]));
}

#[test]
fn align_takes_the_last_price_of_a_repeated_date() {
    let a = series(&[(day(2024, 1, 2), 2.0), (day(2024, 1, 2), 3.0)]);
    let b = series(&[(day(2024, 1, 2), 20.0), (day(2024, 1, 2), 21.0)]);
    let (left, right) = align(&a, &b);
    assert_eq!(left, a);
    assert_eq!(right, series(&[(day(2024, 1, 2), 21.0), (day(2024, 1, 2), 21.0)]));
}

#[test]
fn align_of_disjoint_series_is_empty() {
    let a = series(&[(day(2024, 1, 1), 1.0)]);
    let (left, right) = align(&a, &series(&[(day(2024, 1, 2), 20.0)]));
    assert!(left.is_empty() && right.is_empty());
    assert!(align(&vec![], &a).0.is_empty());
}

#[test]
fn aligning_again_or_with_itself_changes_nothing() {
    let a = series(&[(day(2024, 1, 1), 1.0), (day(2024, 1, 2), 2.0), (day(2024, 1, 4), 4.0)]);
    let b = series(&[(day(2024, 1, 2), 20.0), (day(2024, 1, 4), 40.0)]);
    let once = align(&a, &b);
    assert_eq!(align(&once.0, &once.1), once);
    assert_eq!(align(&a, &a), (a.clone(), a));
}

#[test]
fn merge_replaces_same_dates_and_sorts() {
    let mut m = map(&[("XLK", series(&[(day(2024, 1, 5), 5.0), (day(2024, 1, 3), 3.0)]))]);
    merge_prices(&mut m, map(&[("XLK", series(&[(day(2024, 1, 4), 4.0), (day(2024, 1, 3), 33.0)]))]));
    let expected = series(&[(day(2024, 1, 3), 33.0), (day(2024, 1, 4), 4.0), (day(2024, 1, 5), 5.0)]);
    assert_eq!(m.get("XLK").unwrap(), &expected);
}

#[test]
fn merge_adds_tickers_and_leaves_others_alone() {
    let untouched = series(&[(day(2024, 1, 5), 5.0), (day(2024, 1, 3), 3.0)]);
    let mut m = map(&[("XLK", untouched.clone())]);
    merge_prices(&mut m, map(&[("SPY", series(&[(day(2024, 1, 4), 4.0), (day(2024, 1, 2), 2.0)]))]));
    assert_eq!(m.get("XLK").unwrap(), &untouched);
    assert_eq!(m.get("SPY").unwrap(), &series(&[(day(2024, 1, 2), 2.0), (day(2024, 1, 4), 4.0)]));
    assert_eq!(m.len(), 2);
}

#[test]
fn merging_again_and_lot_by_lot() {
    let a = || map(&[("XLK", series(&[(day(2024, 1, 1), 1.0), (day(2024, 1, 2), 2.0)]))]);
    let b = || map(&[("XLK", series(&[(day(2024, 1, 2), 22.0)])), ("SPY", series(&[(day(2024, 1, 9), 9.0)]))]);
    let c = || map(&[("SPY", series(&[(day(2024, 1, 9), 99.0), (day(2024, 1, 8), 8.0)]))]);
    let mut once = a();
    merge_prices(&mut once, b());
    let mut twice = copy_prices(&once);
    merge_prices(&mut twice, b());
    assert_eq!(twice.get("XLK"), once.get("XLK"));
    assert_eq!(twice.get("SPY"), once.get("SPY"));
    let mut left = a();
    merge_prices(&mut left, b());
    merge_prices(&mut left, c());
    let mut lots = b();
    merge_prices(&mut lots, c());
    let mut right = a();
    merge_prices(&mut right, lots);
    assert_eq!(left.get("XLK"), right.get("XLK"));
    assert_eq!(left.get("SPY"), right.get("SPY"));
    assert_eq!(left.get("SPY").unwrap(), &series(&[(day(2024, 1, 8), 8.0), (day(2024, 1, 9), 99.0)]));
}

#[test]
fn weeks_run_from_monday_to_sunday() {
    // 2024-01-01 was a Monday
    let daily = series(&[
        (day(2024, 1, 1), 1.0),
        (day(2024, 1, 5), 5.0),
        (day(2024, 1, 7), 7.0),
        (day(2024, 1, 8), 8.0),
        (day(2024, 1, 12), 12.0),
    ]);
    assert_eq!(resample_weekly(&daily), series(&[(day(2024, 1, 7), 7.0), (day(2024, 1, 12), 12.0)]));
}

#[test]
fn weeks_cross_the_turn_of_the_year() {
    let daily = series(&[
        (day(2020, 12, 31), 1.0),
        (day(2021, 1, 3), 2.0),
        (day(2021, 1, 4), 3.0),
        (day(2024, 12, 30), 4.0),
        (day(2025, 1, 3), 5.0),
    ]);
    let expected = series(&[(day(2021, 1, 3), 2.0), (day(2021, 1, 4), 3.0), (day(2025, 1, 3), 5.0)]);
    assert_eq!(resample_weekly(&daily), expected);
}

#[test]
fn the_latest_day_of_a_week_stands_whatever_the_order() {
    let daily = series(&[
        (day(2024, 1, 12), 12.0),
        (day(2024, 1, 5), 5.0),
        (day(2024, 1, 3), 3.0),
        (day(2024, 1, 5), 55.0),
    ]);
    // of two entries of the same date the first one stands
    assert_eq!(resample_weekly(&daily), series(&[(day(2024, 1, 5), 5.0), (day(2024, 1, 12), 12.0)]));
}

#[test]
fn resampling_again_changes_nothing_here() {
    let daily: PriceSeries = (0..40).map(|i| (Date { days: day(2023, 12, 1).days + i }, price(i as f64))).collect();
    let weekly = resample_weekly(&daily);
    assert_eq!(weekly.len(), 7);
    assert_eq!(resample_weekly(&weekly), weekly);
    // the first week has three days, the last two
    assert_eq!(weekly[0], (day(2023, 12, 3), price(2.0)));
    assert_eq!(weekly[5], (day(2024, 1, 7), price(37.0)));
    assert_eq!(weekly[6], (day(2024, 1, 9), price(39.0)));
}

#[test]
fn the_ends_of_the_calendar_have_weeks() {
    let daily = series(&[
        (Date { days: FIRST_DAY }, 1.0),
        (Date { days: FIRST_DAY + 7 }, 2.0),
        (Date { days: LAST_DAY - 7 }, 3.0),
        (Date { days: LAST_DAY }, 4.0),
    ]);
    assert_eq!(resample_weekly(&daily), daily);
    let nearby: PriceSeries = (0..7).map(|i| (Date { days: LAST_DAY - i }, price(0.0))).collect();
    assert_eq!(resample_weekly(&nearby).len(), 2);
}

#[test]
fn weeks_match_a_count_of_days() {
    // day 1 of the calendar was a Monday, so a week is a run of seven days
    let start = day(2015, 1, 1).days;
    let daily: PriceSeries = (0..4000).map(|i| (Date { days: start + i }, price(i as f64))).collect();
    let expected: PriceSeries =
        daily.iter().copied().filter(|(date, _)| date.days % 7 == 0 || date.days == start + 3999).collect();
    assert_eq!(resample_weekly(&daily), expected);
}

#[test]
fn resample_all_goes_ticker_by_ticker() {
    let m = map(&[
        ("XLK", series(&[(day(2024, 1, 1), 1.0), (day(2024, 1, 5), 5.0)])),
        ("SPY", series(&[])),
    ]);
    let w = resample_all(&m);
    assert_eq!(w.get("XLK").unwrap(), &series(&[(day(2024, 1, 5), 5.0)]));
    assert!(w.get("SPY").unwrap().is_empty());
    assert_eq!(w.entries[0].0, "XLK");
}

#[test]
fn a_copy_holds_the_same() {
    let m = map(&[("XLK", series(&[(day(2024, 1, 1), 1.0)]))]);
    let c = copy_prices(&m);
    assert_eq!(c.entries, m.entries);
}

#[test]
fn ticker_maps_hold_one_value_each() {
    let mut m: TickerMap<u8> = TickerMap::new();
    assert!(m.is_empty());
    m.insert("A".to_string(), 1);
    m.insert("B".to_string(), 2);
    m.insert("A".to_string(), 3);
    assert_eq!(m.len(), 2);
    assert_eq!(m.get("A"), Some(&3));
    assert_eq!(m.get("b"), None);
    assert!(m.contains("B") && !m.contains(""));
    assert_eq!(m.entries[0].0, "A");
    let mut lists: TickerMap<Vec<u8>> = TickerMap::new();
    lists.push_to("A", 1);
    lists.push_to("B", 2);
    lists.push_to("A", 3);
    assert_eq!(lists.get("A"), Some(&vec![1, 3]));
    assert_eq!(lists.get("B"), Some(&vec![2]));
}
