//! The price cache: the rows that are written to it and what is read back.
use vstd::prelude::*;

use crate::calendar::{
    date_text, date_texts_sort_by_day, has_plain_year, instant_text, is_date_text, is_instant_text, parse_date,
    parse_instant, parsed_date, parsed_instant, text_before, texts_do_not_precede_themselves, valid_day, Date, Instant,
};
use crate::data::{
    all_series, chronology, increasing_dates, lemma_is_chronology, lemma_price_on, lemma_price_on_increasing, merged,
    merging_prefers_new_prices, price_on, series_of, valid_dates, valid_prices, PriceMap, PriceSeries,
};
use crate::number::Double;
use crate::tickers::TickerMap;

verus! {

/// A row of the price table.
#[derive(Debug)]
pub struct PriceRow {
    pub ticker: String,
    pub date: String,
    pub close: Double,
}

/// What is written to the cache after a fetch.
#[derive(Debug)]
pub struct CacheUpdate {
    pub rows: Vec<PriceRow>,
    /// The moment of the fetch in RFC 3339.
    pub last_updated: String,
}

/// Why the cache cannot be read.
#[derive(Clone, Copy, Debug, PartialEq, Eq, Structural)]
pub enum CacheError {
    /// The moment of the last fetch is not one.
    BadTimestamp,
    /// The date of a row is not one.
    BadDate,
}

/// A price as the table has it: whose, of which day, and how much.
pub type Quote = (Seq<char>, Date, Double);

/// The prices of one ticker, entry by entry.
pub open spec fn quotes_of(ticker: Seq<char>, series: Seq<(Date, Double)>) -> Seq<Quote> {
    series.map_values(|p: (Date, Double)| (ticker, p.0, p.1))
}

/// The prices of the map, ticker by ticker and entry by entry.
pub open spec fn all_quotes(entries: Seq<(String, PriceSeries)>) -> Seq<Quote>
    decreases entries.len(),
{
    if entries.len() == 0 {
        Seq::empty()
    } else {
        all_quotes(entries.drop_last()) + quotes_of(entries.last().0@, entries.last().1@)
    }
}

/// The row states the price.
pub open spec fn states(row: PriceRow, quote: Quote) -> bool {
    &&& row.ticker@ == quote.0
    &&& is_date_text(quote.1.days as int, row.date@)
    &&& row.close == quote.2
}

/// The rows state the prices, one each.
pub open spec fn state_all(rows: Seq<PriceRow>, quotes: Seq<Quote>) -> bool {
    &&& rows.len() == quotes.len()
    &&& forall|i: int| 0 <= i < rows.len() ==> states(#[trigger] rows[i], quotes[i])
}

/// The update states the prices of the map and the moment.
pub open spec fn is_update(prices: PriceMap, moment: Instant, update: CacheUpdate) -> bool {
    &&& state_all(update.rows@, all_quotes(prices.entries@))
    &&& is_instant_text(moment, update.last_updated@)
}

// ─── Writing ─────────────────────────────────────────────────────────────────

fn push_rows(rows: &mut Vec<PriceRow>, ticker: &String, series: &PriceSeries, Ghost(quotes): Ghost<Seq<Quote>>)
    requires
        valid_dates(series@),
        state_all(old(rows)@, quotes),
    ensures
        state_all(final(rows)@, quotes + quotes_of(ticker@, series@)),
{
    let mut i: usize = 0;
    assert(quotes + quotes_of(ticker@, series@.take(0)) =~= quotes);
    while i < series.len()
        invariant
            valid_dates(series@),
            i <= series@.len(),
            state_all(rows@, quotes + quotes_of(ticker@, series@.take(i as int))),
        decreases series.len() - i,
    {
        let (date, close) = series[i];
        let ghost before = quotes + quotes_of(ticker@, series@.take(i as int));
        let ghost next = quotes + quotes_of(ticker@, series@.take(i + 1));
        let ghost held = rows@;
        assert(series@[i as int].0.valid());
        rows.push(PriceRow { ticker: ticker.clone(), date: date_text(date.days), close });
        assert(next =~= before.push((ticker@, date, close)));
        assert forall|k: int| 0 <= k < rows@.len() implies states(#[trigger] rows@[k], next[k]) by {
            if k < held.len() {
                assert(rows@[k] == held[k]);
                assert(states(held[k], before[k]));
            }
        }
        i += 1;
    }
    assert(series@.take(i as int) =~= series@);
}

/// The rows of all prices.
fn price_rows(prices: &PriceMap) -> (rows: Vec<PriceRow>)
    requires
        prices.wf(),
        valid_prices(all_series(*prices)),
    ensures
        state_all(rows@, all_quotes(prices.entries@)),
{
    let mut rows: Vec<PriceRow> = Vec::new();
    let mut i: usize = 0;
    while i < prices.entries.len()
        invariant
            prices.wf(),
            valid_prices(all_series(*prices)),
            i <= prices.entries@.len(),
            state_all(rows@, all_quotes(prices.entries@.take(i as int))),
        decreases prices.entries.len() - i,
    {
        proof {
            prices.lemma_place(i as int);
            assert(all_series(*prices).contains_key(prices.entries@[i as int].0@));
            assert(prices.entries@.take(i + 1).drop_last() =~= prices.entries@.take(i as int));
        }
        push_rows(
            &mut rows,
            &prices.entries[i].0,
            &prices.entries[i].1,
            Ghost(all_quotes(prices.entries@.take(i as int))),
        );
        i += 1;
    }
    assert(prices.entries@.take(i as int) =~= prices.entries@);
    rows
}

/// What to write to the cache for newly fetched prices: a row for each price,
/// to replace the row of the same ticker and date, and the moment.
pub fn upsert_prices(prices: &PriceMap, last_updated: Instant) -> (r: CacheUpdate)
    requires
        prices.wf(),
        valid_prices(all_series(*prices)),
        last_updated.valid(),
    ensures
        is_update(*prices, last_updated, r),
{
    CacheUpdate { rows: price_rows(prices), last_updated: instant_text(last_updated) }
}

// ─── Reading ─────────────────────────────────────────────────────────────────

/// The latest dates that the rows give: rows without a ticker, or with a date
/// that could not be read, are passed over.
pub open spec fn dates_given(rows: Seq<(Option<String>, Option<Date>)>) -> Map<Seq<char>, Date>
    decreases rows.len(),
{
    if rows.len() == 0 {
        Map::empty()
    } else {
        let rest = dates_given(rows.drop_last());
        match rows.last() {
            (Some(ticker), Some(date)) => rest.insert(ticker@, date),
            _ => rest,
        }
    }
}

/// Collects the dates of the tickers.
pub fn collect_dates(rows: Vec<(Option<String>, Option<Date>)>) -> (r: TickerMap<Date>)
    ensures
        r.wf(),
        r@ == dates_given(rows@),
{
    let mut r: TickerMap<Date> = TickerMap::new();
    let mut i: usize = 0;
    while i < rows.len()
        invariant
            r.wf(),
            i <= rows@.len(),
            r@ == dates_given(rows@.take(i as int)),
        decreases rows.len() - i,
    {
        assert(rows@.take(i + 1).drop_last() =~= rows@.take(i as int));
        if let (Some(ticker), Some(date)) = (&rows[i].0, rows[i].1) {
            r.insert(ticker.clone(), date);
        }
        i += 1;
    }
    assert(rows@.take(i as int) =~= rows@);
    r
}

/// The date that a text stands for.
pub open spec fn date_of(text: Seq<char>) -> Option<Date> {
    match parsed_date(text) {
        Some(days) => Some(Date { days }),
        None => None,
    }
}

/// The latest dates that rows of a ticker and the text of a date give.
pub open spec fn dates_of(rows: Seq<(Option<String>, String)>) -> Map<Seq<char>, Date> {
    dates_given(rows.map_values(|row: (Option<String>, String)| (row.0, date_of(row.1@))))
}

fn read_date(text: &str) -> (r: Option<Date>)
    ensures
        r == date_of(text@),
        r matches Some(date) ==> date.valid(),
        forall|day: i32| valid_day(day as int) && #[trigger] is_date_text(day as int, text@) ==> r == Some(Date { days: day }),
{
    match parse_date(text) {
        Some(days) => Some(Date { days }),
        None => None,
    }
}

/// The latest cached date of each ticker, from rows of a ticker and its date.
/// The text of a date stands for that date.
pub fn latest_dates(rows: Vec<(Option<String>, String)>) -> (r: TickerMap<Date>)
    ensures
        r.wf(),
        r@ == dates_of(rows@),
        forall|ticker: Seq<char>| #[trigger] r@.contains_key(ticker) ==> r@[ticker].valid(),
        forall|i: int, day: i32|
            0 <= i < rows@.len() && valid_day(day as int) && #[trigger] is_date_text(day as int, rows@[i].1@)
                ==> parsed_date(rows@[i].1@) == Some(day),
{
    let ghost given = rows@;
    let ghost read = given.map_values(|row: (Option<String>, String)| (row.0, date_of(row.1@)));
    let mut dated: Vec<(Option<String>, Option<Date>)> = Vec::new();
    let mut rest = rows;
    proof {
        assert(given.skip(0) =~= given);
    }
    while rest.len() > 0
        invariant
            dated@.len() + rest@.len() == given.len(),
            rest@ == given.skip(dated@.len() as int),
            read == given.map_values(|row: (Option<String>, String)| (row.0, date_of(row.1@))),
            dated@ == read.take(dated@.len() as int),
            forall|k: int|
                0 <= k < dated@.len() ==> ((#[trigger] dated@[k]).1 matches Some(date) ==> date.valid()),
            forall|k: int, day: i32|
                0 <= k < dated@.len() && valid_day(day as int) && #[trigger] is_date_text(day as int, given[k].1@)
                    ==> parsed_date(given[k].1@) == Some(day),
        decreases rest.len(),
    {
        let ghost k = dated@.len() as int;
        let (ticker, text) = rest.remove(0);
        assert(given[k] == (ticker, text));
        let date = read_date(text.as_str());
        dated.push((ticker, date));
        proof {
            assert(rest@ =~= given.skip(k + 1));
            assert(dated@ =~= read.take(k + 1));
        }
    }
    assert(dated@ =~= read);
    proof {
        lemma_dates_valid(dated@);
    }
    collect_dates(dated)
}

proof fn lemma_dates_valid(rows: Seq<(Option<String>, Option<Date>)>)
    requires
        forall|k: int| 0 <= k < rows.len() ==> ((#[trigger] rows[k]).1 matches Some(date) ==> date.valid()),
    ensures
        forall|ticker: Seq<char>| #[trigger]
            dates_given(rows).contains_key(ticker) ==> dates_given(rows)[ticker].valid(),
    decreases rows.len(),
{
    if rows.len() > 0 {
        let shorter = rows.drop_last();
        assert forall|k: int| 0 <= k < shorter.len() implies ((#[trigger] shorter[k]).1 matches Some(date) ==> date.valid()) by {
            assert(rows[k] == shorter[k]);
        }
        lemma_dates_valid(shorter);
        assert(rows[rows.len() - 1] == rows.last());
        assert forall|ticker: Seq<char>| #[trigger] dates_given(rows).contains_key(ticker) implies dates_given(
            rows,
        )[ticker].valid() by {
            let _ = dates_given(shorter).contains_key(ticker);
        }
    }
}

/// A row of the price table whose date has been read, if it could be.
#[derive(Debug)]
pub struct DatedRow {
    pub ticker: String,
    pub date: Option<Date>,
    pub close: Double,
}

/// The date of every row could be read.
pub open spec fn all_dated(rows: Seq<DatedRow>) -> bool {
    forall|i: int| 0 <= i < rows.len() ==> (#[trigger] rows[i]).date is Some
}

/// The prices that the rows state.
pub open spec fn dated_quotes(rows: Seq<DatedRow>) -> Seq<Quote> {
    rows.map_values(|row: DatedRow| (row.ticker@, row.date->0, row.close))
}

/// The prices gathered by ticker, in the order in which they come.
pub open spec fn gathered(quotes: Seq<Quote>) -> Map<Seq<char>, Seq<(Date, Double)>>
    decreases quotes.len(),
{
    if quotes.len() == 0 {
        Map::empty()
    } else {
        let rest = gathered(quotes.drop_last());
        let (ticker, date, close) = quotes.last();
        rest.insert(ticker, series_of(rest, ticker).push((date, close)))
    }
}

/// What the cache holds: nothing without the moment of a fetch or without
/// rows, and otherwise the rows gathered by ticker, with that moment.  The
/// moment is given as far as there is one, and as far as it could be read.
pub open spec fn is_restored(
    last_updated: Option<Option<Instant>>,
    rows: Seq<DatedRow>,
    r: Result<Option<(PriceMap, Instant)>, CacheError>,
) -> bool {
    match last_updated {
        None => r matches Ok(None),
        Some(None) => r == Err::<Option<(PriceMap, Instant)>, _>(CacheError::BadTimestamp),
        Some(Some(moment)) => if rows.len() == 0 {
            r matches Ok(None)
        } else if !all_dated(rows) {
            r == Err::<Option<(PriceMap, Instant)>, _>(CacheError::BadDate)
        } else {
            r matches Ok(Some(loaded)) && loaded.1 == moment && loaded.0.wf() && all_series(loaded.0) == gathered(
                dated_quotes(rows),
            )
        },
    }
}

/// Restores the prices from rows whose dates have been read.
pub fn restore_prices(last_updated: Option<Option<Instant>>, rows: Vec<DatedRow>) -> (r: Result<
    Option<(PriceMap, Instant)>,
    CacheError,
>)
    ensures
        is_restored(last_updated, rows@, r),
{
    let moment = match last_updated {
        None => {
            return Ok(None);
        },
        Some(None) => {
            return Err(CacheError::BadTimestamp);
        },
        Some(Some(moment)) => moment,
    };
    if rows.len() == 0 {
        return Ok(None);
    }
    let mut prices: PriceMap = TickerMap::new();
    let mut i: usize = 0;
    assert(all_series(prices) =~= gathered(dated_quotes(rows@.take(0))));
    while i < rows.len()
        invariant
            last_updated == Some(Some(moment)),
            rows@.len() > 0,
            prices.wf(),
            i <= rows@.len(),
            all_dated(rows@.take(i as int)),
            all_series(prices) == gathered(dated_quotes(rows@.take(i as int))),
        decreases rows.len() - i,
    {
        let date = match rows[i].date {
            Some(date) => date,
            None => {
                assert(rows@[i as int].date is None);
                return Err(CacheError::BadDate);
            },
        };
        let ghost before = all_series(prices);
        let ghost key = rows@[i as int].ticker@;
        let ghost close = rows@[i as int].close;
        assert(prices.list_of(key) == series_of(before, key));
        prices.push_to(rows[i].ticker.as_str(), (date, rows[i].close));
        proof {
            assert(all_series(prices) =~= before.insert(key, series_of(before, key).push((date, close))));
            let next = rows@.take(i + 1);
            assert(dated_quotes(next).drop_last() =~= dated_quotes(rows@.take(i as int)));
            assert(dated_quotes(next).last() == (key, date, close));
            assert(all_dated(next)) by {
                assert forall|k: int| 0 <= k < next.len() implies (#[trigger] next[k]).date is Some by {
                    if k < i {
                        assert(next[k] == rows@.take(i as int)[k]);
                    }
                }
            }
        }
        i += 1;
    }
    assert(rows@.take(i as int) =~= rows@);
    Ok(Some((prices, moment)))
}

/// The rows with their dates read.
pub open spec fn are_dated(rows: Seq<PriceRow>, dated: Seq<DatedRow>) -> bool {
    &&& dated.len() == rows.len()
    &&& forall|i: int|
        0 <= i < dated.len() ==> (#[trigger] dated[i]).ticker@ == rows[i].ticker@ && dated[i].date == date_of(
            rows[i].date@,
        ) && dated[i].close == rows[i].close
}

/// What is read from the texts of the cache.
pub open spec fn is_loaded(
    last_updated: Option<String>,
    rows: Seq<PriceRow>,
    r: Result<Option<(PriceMap, Instant)>, CacheError>,
) -> bool {
    exists|dated: Seq<DatedRow>| #[trigger]
        are_dated(rows, dated) && is_restored(
            match last_updated {
                Some(text) => Some(parsed_instant(text@)),
                None => None,
            },
            dated,
            r,
        )
}

fn read_dates(rows: Vec<PriceRow>) -> (dated: Vec<DatedRow>)
    ensures
        are_dated(rows@, dated@),
        forall|i: int| 0 <= i < dated@.len() ==> ((#[trigger] dated@[i]).date matches Some(date) ==> date.valid()),
        forall|quotes: Seq<Quote>| #[trigger]
            state_all(rows@, quotes) && valid_quotes(quotes) ==> all_dated(dated@) && dated_quotes(dated@) == quotes,
        forall|i: int, day: i32|
            0 <= i < rows@.len() && valid_day(day as int) && #[trigger] is_date_text(day as int, rows@[i].date@)
                ==> parsed_date(rows@[i].date@) == Some(day),
{
    let mut dated: Vec<DatedRow> = Vec::new();
    let mut i: usize = 0;
    while i < rows.len()
        invariant
            i <= rows@.len(),
            dated@.len() == i,
            forall|k: int|
                0 <= k < i ==> (#[trigger] dated@[k]).ticker@ == rows@[k].ticker@ && dated@[k].date == date_of(
                    rows@[k].date@,
                ) && dated@[k].close == rows@[k].close,
            forall|k: int| 0 <= k < i ==> ((#[trigger] dated@[k]).date matches Some(date) ==> date.valid()),
            forall|k: int, day: i32|
                0 <= k < i && valid_day(day as int) && #[trigger] is_date_text(day as int, rows@[k].date@)
                    ==> dated@[k].date == Some(Date { days: day }),
        decreases rows.len() - i,
    {
        let date = read_date(rows[i].date.as_str());
        dated.push(DatedRow { ticker: rows[i].ticker.clone(), date, close: rows[i].close });
        i += 1;
    }
    proof {
        assert forall|quotes: Seq<Quote>| #[trigger] state_all(rows@, quotes) && valid_quotes(quotes) implies all_dated(
            dated@,
        ) && dated_quotes(dated@) == quotes by {
            assert forall|k: int| 0 <= k < dated@.len() implies (#[trigger] dated@[k]).date == Some(quotes[k].1)
                && dated_quotes(dated@)[k] == quotes[k] by {
                assert(states(rows@[k], quotes[k]));
                assert(quotes[k].1.valid());
            }
            assert(dated_quotes(dated@) =~= quotes);
        }
    }
    dated
}

/// Every date is one that the calendar knows.
pub open spec fn valid_quotes(quotes: Seq<Quote>) -> bool {
    forall|i: int| 0 <= i < quotes.len() ==> (#[trigger] quotes[i]).1.valid()
}

/// The cache was read as these prices and this moment.
pub open spec fn reads_as(
    r: Result<Option<(PriceMap, Instant)>, CacheError>,
    all: Map<Seq<char>, Seq<(Date, Double)>>,
    moment: Instant,
) -> bool {
    r matches Ok(Some(loaded)) && loaded.1 == moment && all_series(loaded.0) == all
}

/// Reads the cache.  What was written comes back: rows that state the prices of
/// a map are read as the series of the map that are not empty, and the text of
/// a moment as the moment.  So it is with all rows that state prices, in
/// whatever order they come.  Where the rows are those of a table that holds the
/// prices of some series, listed by ticker and date, those series come back, in
/// the order of their dates.  Without rows there is nothing, and no error as long
/// as the moment can be read.  A date's or a moment's own text can be read.
pub fn load_prices(last_updated: Option<String>, rows: Vec<PriceRow>) -> (r: Result<
    Option<(PriceMap, Instant)>,
    CacheError,
>)
    ensures
        is_loaded(last_updated, rows@, r),
        r matches Ok(Some(loaded)) ==> valid_prices(all_series(loaded.0)) && loaded.1.valid(),
        forall|quotes: Seq<Quote>, moment: Instant|
            rows@.len() > 0 && #[trigger] state_all(rows@, quotes) && valid_quotes(quotes) && moment.valid()
                && last_updated is Some && #[trigger] is_instant_text(moment, last_updated->0@) ==> reads_as(
                r,
                gathered(quotes),
                moment,
            ),
        forall|prices: PriceMap, moment: Instant|
            rows@.len() > 0 && prices.wf() && valid_prices(all_series(prices)) && state_all(
                rows@,
                #[trigger] all_quotes(prices.entries@),
            ) && moment.valid() && last_updated is Some && #[trigger] is_instant_text(moment, last_updated->0@)
                ==> reads_as(r, stocked(all_series(prices)), moment),
        forall|all: Map<Seq<char>, Seq<(Date, Double)>>, quotes: Seq<Quote>, moment: Instant|
            rows@.len() > 0 && #[trigger] lists(table_of(all), quotes) && state_all(rows@, quotes) && in_row_order(rows@)
                && plain_years(quotes) && moment.valid() && last_updated is Some && #[trigger] is_instant_text(
                moment,
                last_updated->0@,
            ) ==> reads_as(r, chronological(all), moment),
        forall|moment: Instant|
            rows@.len() == 0 && moment.valid() && last_updated is Some && #[trigger] is_instant_text(
                moment,
                last_updated->0@,
            ) ==> (r matches Ok(None)),
        forall|moment: Instant|
            moment.valid() && last_updated is Some && #[trigger] is_instant_text(moment, last_updated->0@)
                ==> parsed_instant(last_updated->0@) == Some(moment),
        forall|i: int, day: i32|
            0 <= i < rows@.len() && valid_day(day as int) && #[trigger] is_date_text(day as int, rows@[i].date@)
                ==> parsed_date(rows@[i].date@) == Some(day),
{
    let ghost given = rows@;
    let moment = match &last_updated {
        Some(text) => Some(parse_instant(text.as_str())),
        None => None,
    };
    let dated = read_dates(rows);
    let ghost read = dated@;
    let r = restore_prices(moment, dated);
    proof {
        assert(are_dated(given, read));
        if r is Ok && r->Ok_0 is Some {
            assert(valid_quotes(dated_quotes(read))) by {
                assert forall|i: int| 0 <= i < read.len() implies (#[trigger] dated_quotes(read)[i]).1.valid() by {
                    assert(read[i].date is Some);
                }
            }
            lemma_gathered_valid(dated_quotes(read));
        }
        assert forall|prices: PriceMap| #![trigger all_quotes(prices.entries@)]
            prices.wf() && valid_prices(all_series(prices)) implies valid_quotes(all_quotes(prices.entries@)) && gathered(
            all_quotes(prices.entries@),
        ) == stocked(all_series(prices)) by {
            lemma_quotes_valid(prices);
            cache_gives_back_prices(prices, all_quotes(prices.entries@));
        }
        assert forall|all: Map<Seq<char>, Seq<(Date, Double)>>, quotes: Seq<Quote>| #[trigger]
            lists(table_of(all), quotes) && state_all(given, quotes) && in_row_order(given) && plain_years(
                quotes,
            ) implies valid_quotes(quotes) && gathered(quotes) == chronological(all) by {
            lemma_plain_years_valid(quotes);
            restart_gives_back_prices(all, given, quotes);
        }
    }
    r
}

proof fn lemma_gathered_valid(quotes: Seq<Quote>)
    requires
        valid_quotes(quotes),
    ensures
        valid_prices(gathered(quotes)),
    decreases quotes.len(),
{
    if quotes.len() > 0 {
        let shorter = quotes.drop_last();
        assert(valid_quotes(shorter)) by {
            assert forall|i: int| 0 <= i < shorter.len() implies (#[trigger] shorter[i]).1.valid() by {
                assert(quotes[i] == shorter[i]);
            }
        }
        lemma_gathered_valid(shorter);
        let rest = gathered(shorter);
        let (key, date, close) = quotes.last();
        assert(quotes[quotes.len() - 1].1.valid());
        let added = series_of(rest, key).push((date, close));
        assert(valid_dates(added)) by {
            assert forall|k: int| 0 <= k < added.len() implies (#[trigger] added[k]).0.valid() by {
                if k < added.len() - 1 {
                    assert(rest.contains_key(key));
                    assert(added[k] == rest[key][k]);
                }
            }
        }
    }
}

// ─── Laws ────────────────────────────────────────────────────────────────────

/// The prices of one ticker, in the order in which they come.
pub open spec fn of_ticker(quotes: Seq<Quote>, ticker: Seq<char>) -> Seq<(Date, Double)>
    decreases quotes.len(),
{
    if quotes.len() == 0 {
        Seq::empty()
    } else {
        let rest = of_ticker(quotes.drop_last(), ticker);
        if quotes.last().0 == ticker { rest.push((quotes.last().1, quotes.last().2)) } else { rest }
    }
}

/// Gathering gives every ticker its own prices, in their order, and holds no
/// ticker without prices.
pub proof fn gathering_parts_by_ticker(quotes: Seq<Quote>)
    ensures
        gathered(quotes) == Map::new(
            |ticker: Seq<char>| of_ticker(quotes, ticker).len() > 0,
            |ticker: Seq<char>| of_ticker(quotes, ticker),
        ),
    decreases quotes.len(),
{
    let parts = Map::new(
        |ticker: Seq<char>| of_ticker(quotes, ticker).len() > 0,
        |ticker: Seq<char>| of_ticker(quotes, ticker),
    );
    if quotes.len() > 0 {
        let shorter = quotes.drop_last();
        gathering_parts_by_ticker(shorter);
        let key = quotes.last().0;
        assert(series_of(gathered(shorter), key) =~= of_ticker(shorter, key));
    }
    assert(gathered(quotes) =~= parts);
}

proof fn lemma_of_ticker_append(a: Seq<Quote>, b: Seq<Quote>, ticker: Seq<char>)
    ensures
        of_ticker(a + b, ticker) == of_ticker(a, ticker) + of_ticker(b, ticker),
    decreases b.len(),
{
    if b.len() == 0 {
        assert(a + b =~= a);
        assert(of_ticker(a, ticker) + of_ticker(b, ticker) =~= of_ticker(a, ticker));
    } else {
        assert((a + b).drop_last() =~= a + b.drop_last());
        lemma_of_ticker_append(a, b.drop_last(), ticker);
        assert(of_ticker(a + b, ticker) =~= of_ticker(a, ticker) + of_ticker(b, ticker));
    }
}

proof fn lemma_of_ticker_series(key: Seq<char>, series: Seq<(Date, Double)>, ticker: Seq<char>)
    ensures
        of_ticker(quotes_of(key, series), ticker) == if key == ticker { series } else { Seq::empty() },
    decreases series.len(),
{
    if series.len() > 0 {
        assert(quotes_of(key, series).drop_last() =~= quotes_of(key, series.drop_last()));
        lemma_of_ticker_series(key, series.drop_last(), ticker);
        assert(series.drop_last().push(series.last()) =~= series);
    }
    assert(of_ticker(quotes_of(key, series), ticker) =~= if key == ticker { series } else { Seq::empty() });
}

/// Among the prices of a map those of a ticker are its series.
pub proof fn quotes_keep_series(prices: PriceMap, ticker: Seq<char>)
    requires
        prices.wf(),
    ensures
        of_ticker(all_quotes(prices.entries@), ticker) == series_of(all_series(prices), ticker),
{
    let n = prices.entries@.len() as int;
    lemma_quotes_prefix(prices, ticker, n);
    assert(prices.entries@.take(n) =~= prices.entries@);
    if prices.holds(ticker) {
        let p = prices.place(ticker);
        assert(prices.at(ticker, p));
    }
}

proof fn lemma_quotes_prefix(prices: PriceMap, ticker: Seq<char>, k: int)
    requires
        prices.wf(),
        0 <= k <= prices.entries@.len(),
    ensures
        of_ticker(all_quotes(prices.entries@.take(k)), ticker) == if prices.holds(ticker) && prices.place(ticker) < k {
            prices.entries@[prices.place(ticker)].1@
        } else {
            Seq::empty()
        },
    decreases k,
{
    let part = prices.entries@.take(k);
    if k > 0 {
        let last = part.last();
        assert(part.drop_last() =~= prices.entries@.take(k - 1));
        lemma_quotes_prefix(prices, ticker, k - 1);
        lemma_of_ticker_append(all_quotes(part.drop_last()), quotes_of(last.0@, last.1@), ticker);
        lemma_of_ticker_series(last.0@, last.1@, ticker);
        prices.lemma_place(k - 1);
        if prices.holds(ticker) {
            assert(prices.at(ticker, prices.place(ticker)));
        }
        assert(of_ticker(all_quotes(part.drop_last()), ticker) + Seq::<(Date, Double)>::empty() =~= of_ticker(
            all_quotes(part.drop_last()),
            ticker,
        ));
        if last.0@ == ticker {
            assert(of_ticker(all_quotes(part.drop_last()), ticker) + last.1@ =~= last.1@);
        }
    }
}

proof fn lemma_quotes_valid(prices: PriceMap)
    requires
        prices.wf(),
        valid_prices(all_series(prices)),
    ensures
        valid_quotes(all_quotes(prices.entries@)),
{
    lemma_quotes_valid_prefix(prices, prices.entries@.len() as int);
    assert(prices.entries@.take(prices.entries@.len() as int) =~= prices.entries@);
}

proof fn lemma_quotes_valid_prefix(prices: PriceMap, k: int)
    requires
        prices.wf(),
        valid_prices(all_series(prices)),
        0 <= k <= prices.entries@.len(),
    ensures
        valid_quotes(all_quotes(prices.entries@.take(k))),
    decreases k,
{
    if k > 0 {
        let part = prices.entries@.take(k);
        let last = part.last();
        assert(part.drop_last() =~= prices.entries@.take(k - 1));
        lemma_quotes_valid_prefix(prices, k - 1);
        prices.lemma_place(k - 1);
        assert(all_series(prices).contains_key(last.0@));
        let (a, b) = (all_quotes(part.drop_last()), quotes_of(last.0@, last.1@));
        assert forall|i: int| 0 <= i < (a + b).len() implies (#[trigger] (a + b)[i]).1.valid() by {
            if i < a.len() {
                assert((a + b)[i] == a[i]);
            } else {
                assert((a + b)[i] == b[i - a.len()]);
                assert(last.1@[i - a.len()].0.valid());
            }
        }
    }
}

/// The series that are not empty.
pub open spec fn stocked(all: Map<Seq<char>, Seq<(Date, Double)>>) -> Map<Seq<char>, Seq<(Date, Double)>> {
    Map::new(|ticker: Seq<char>| series_of(all, ticker).len() > 0, |ticker: Seq<char>| all[ticker])
}

/// What was written comes back: rows that hold the prices of a map, each ticker's
/// in their order and the tickers in any, are gathered to the series of the map
/// that are not empty.
pub proof fn cache_gives_back_prices(prices: PriceMap, quotes: Seq<Quote>)
    requires
        prices.wf(),
        forall|ticker: Seq<char>| #[trigger]
            of_ticker(quotes, ticker) == of_ticker(all_quotes(prices.entries@), ticker),
    ensures
        gathered(quotes) == stocked(all_series(prices)),
{
    gathering_parts_by_ticker(quotes);
    assert forall|ticker: Seq<char>| #[trigger] of_ticker(quotes, ticker) == series_of(all_series(prices), ticker) by {
        quotes_keep_series(prices, ticker);
    }
    assert(gathered(quotes) =~= stocked(all_series(prices)));
}

/// The price table: a price for each ticker and date.
pub type Table = Map<(Seq<char>, Date), Double>;

/// The table after rows are written to it, each replacing the row of the same
/// ticker and date.
pub open spec fn upserted(table: Table, quotes: Seq<Quote>) -> Table
    decreases quotes.len(),
{
    if quotes.len() == 0 {
        table
    } else {
        let (ticker, date, close) = quotes.last();
        upserted(table, quotes.drop_last()).insert((ticker, date), close)
    }
}

/// The prices of the series as a table.
pub open spec fn table_of(all: Map<Seq<char>, Seq<(Date, Double)>>) -> Table {
    Map::new(
        |key: (Seq<char>, Date)| price_on(series_of(all, key.0), key.1) is Some,
        |key: (Seq<char>, Date)| price_on(series_of(all, key.0), key.1)->0,
    )
}

/// What the table says of a ticker and date.
pub open spec fn looked_up(table: Table, ticker: Seq<char>, date: Date) -> Option<Double> {
    if table.contains_key((ticker, date)) { Some(table[(ticker, date)]) } else { None }
}

proof fn lemma_upserted(table: Table, quotes: Seq<Quote>, ticker: Seq<char>, date: Date)
    ensures
        looked_up(upserted(table, quotes), ticker, date) == match price_on(of_ticker(quotes, ticker), date) {
            Some(p) => Some(p),
            None => looked_up(table, ticker, date),
        },
    decreases quotes.len(),
{
    if quotes.len() > 0 {
        let shorter = quotes.drop_last();
        lemma_upserted(table, shorter, ticker, date);
        if quotes.last().0 == ticker {
            assert(of_ticker(quotes, ticker).drop_last() =~= of_ticker(shorter, ticker));
        }
    }
}

/// The quotes are the prices of the table, and no others.
pub open spec fn lists(table: Table, quotes: Seq<Quote>) -> bool {
    &&& forall|i: int|
        0 <= i < quotes.len() ==> looked_up(table, (#[trigger] quotes[i]).0, quotes[i].1) == Some(quotes[i].2)
    &&& forall|ticker: Seq<char>, date: Date| #[trigger]
        table.contains_key((ticker, date)) ==> exists|i: int|
            0 <= i < quotes.len() && (#[trigger] quotes[i]).0 == ticker && quotes[i].1 == date
}

/// The rows stand in the order of their tickers, and those of a ticker in the
/// order of their dates, as texts.
pub open spec fn in_row_order(rows: Seq<PriceRow>) -> bool {
    forall|i: int, j: int|
        #![trigger rows[i], rows[j]]
        0 <= i < j < rows.len() ==> text_before(rows[i].ticker@, rows[j].ticker@) || (rows[i].ticker@ == rows[j].ticker@
            && text_before(rows[i].date@, rows[j].date@))
}

/// The years of the dates have four digits.
pub open spec fn plain_years(quotes: Seq<Quote>) -> bool {
    forall|i: int| 0 <= i < quotes.len() ==> has_plain_year((#[trigger] quotes[i]).1.days as int)
}

/// The series that are not empty, in the order of their dates.
pub open spec fn chronological(all: Map<Seq<char>, Seq<(Date, Double)>>) -> Map<Seq<char>, Seq<(Date, Double)>> {
    Map::new(|ticker: Seq<char>| series_of(all, ticker).len() > 0, |ticker: Seq<char>| chronology(all[ticker]))
}

/// The prices of each ticker come in the order of their dates.
spec fn dates_climb(quotes: Seq<Quote>) -> bool {
    forall|i: int, j: int|
        #![trigger quotes[i], quotes[j]]
        0 <= i < j < quotes.len() && quotes[i].0 == quotes[j].0 ==> quotes[i].1.days < quotes[j].1.days
}

proof fn lemma_of_ticker(quotes: Seq<Quote>, ticker: Seq<char>)
    ensures
        forall|i: int|
            0 <= i < of_ticker(quotes, ticker).len() ==> quotes.contains(
                (ticker, (#[trigger] of_ticker(quotes, ticker)[i]).0, of_ticker(quotes, ticker)[i].1),
            ),
        forall|k: int|
            0 <= k < quotes.len() && (#[trigger] quotes[k]).0 == ticker ==> of_ticker(quotes, ticker).contains(
                (quotes[k].1, quotes[k].2),
            ),
        dates_climb(quotes) ==> increasing_dates(of_ticker(quotes, ticker)),
    decreases quotes.len(),
{
    let own = of_ticker(quotes, ticker);
    if quotes.len() > 0 {
        let shorter = quotes.drop_last();
        let rest = of_ticker(shorter, ticker);
        let last = quotes.last();
        lemma_of_ticker(shorter, ticker);
        assert forall|i: int| 0 <= i < own.len() implies quotes.contains((ticker, (#[trigger] own[i]).0, own[i].1)) by {
            if i < rest.len() {
                assert(own[i] == rest[i]);
                let k = choose|k: int| 0 <= k < shorter.len() && shorter[k] == (ticker, rest[i].0, rest[i].1);
                assert(quotes[k] == (ticker, own[i].0, own[i].1));
            } else {
                assert(quotes[quotes.len() - 1] == (ticker, own[i].0, own[i].1));
            }
        }
        assert forall|k: int| 0 <= k < quotes.len() && (#[trigger] quotes[k]).0 == ticker implies own.contains(
            (quotes[k].1, quotes[k].2),
        ) by {
            if k < shorter.len() {
                assert(shorter[k] == quotes[k]);
                let i = choose|i: int| 0 <= i < rest.len() && rest[i] == (quotes[k].1, quotes[k].2);
                assert(own[i] == rest[i]);
            } else {
                assert(own[own.len() - 1] == (quotes[k].1, quotes[k].2));
            }
        }
        if dates_climb(quotes) {
            assert(dates_climb(shorter)) by {
                assert forall|i: int, j: int|
                    #![trigger shorter[i], shorter[j]]
                    0 <= i < j < shorter.len() && shorter[i].0 == shorter[j].0 implies shorter[i].1.days
                    < shorter[j].1.days by {
                    assert(quotes[i] == shorter[i] && quotes[j] == shorter[j]);
                }
            }
            assert forall|i: int, j: int| 0 <= i < j < own.len() implies (#[trigger] own[i]).0.days < (
            #[trigger] own[j]).0.days by {
                assert(own[i] == rest[i]);
                if j < rest.len() {
                    assert(own[j] == rest[j]);
                } else {
                    let k = choose|k: int| 0 <= k < shorter.len() && shorter[k] == (ticker, rest[i].0, rest[i].1);
                    assert(quotes[k] == shorter[k]);
                    assert(quotes[k].1.days < quotes[quotes.len() - 1].1.days);
                }
            }
        }
    }
}

proof fn lemma_listed_series(all: Map<Seq<char>, Seq<(Date, Double)>>, quotes: Seq<Quote>, ticker: Seq<char>)
    requires
        lists(table_of(all), quotes),
        dates_climb(quotes),
    ensures
        of_ticker(quotes, ticker) == chronology(series_of(all, ticker)),
        of_ticker(quotes, ticker).len() > 0 <==> series_of(all, ticker).len() > 0,
{
    let own = of_ticker(quotes, ticker);
    let series = series_of(all, ticker);
    let table = table_of(all);
    lemma_of_ticker(quotes, ticker);
    assert forall|date: Date| #[trigger] price_on(own, date) == price_on(series, date) by {
        lemma_price_on(own, date);
        if price_on(series, date) is Some {
            assert(table.contains_key((ticker, date)));
            let k = choose|k: int| 0 <= k < quotes.len() && (#[trigger] quotes[k]).0 == ticker && quotes[k].1 == date;
            assert(looked_up(table, quotes[k].0, quotes[k].1) == Some(quotes[k].2));
            assert(own.contains((date, quotes[k].2)));
            let i = choose|i: int| 0 <= i < own.len() && own[i] == (date, quotes[k].2);
            lemma_price_on_increasing(own, i);
        } else if price_on(own, date) is Some {
            let i = choose|i: int| 0 <= i < own.len() && (#[trigger] own[i]).0 == date;
            assert(quotes.contains((ticker, own[i].0, own[i].1)));
            let k = choose|k: int| 0 <= k < quotes.len() && quotes[k] == (ticker, own[i].0, own[i].1);
            assert(looked_up(table, quotes[k].0, quotes[k].1) == Some(quotes[k].2));
        }
    }
    lemma_is_chronology(series, own);
    if own.len() > 0 {
        lemma_price_on_increasing(own, 0);
        let _ = price_on(own, own[0].0);
    }
    if series.len() > 0 {
        lemma_price_on(series, series[0].0);
        let _ = price_on(own, series[0].0);
    }
}

/// Prices survive a restart: where the table holds the prices of some series,
/// its rows, listed by ticker and date, are gathered to those series, in the
/// order of their dates.
pub proof fn restart_gives_back_prices(
    all: Map<Seq<char>, Seq<(Date, Double)>>,
    rows: Seq<PriceRow>,
    quotes: Seq<Quote>,
)
    requires
        lists(table_of(all), quotes),
        state_all(rows, quotes),
        in_row_order(rows),
        plain_years(quotes),
    ensures
        gathered(quotes) == chronological(all),
{
    assert(dates_climb(quotes)) by {
        assert forall|i: int, j: int|
            #![trigger quotes[i], quotes[j]]
            0 <= i < j < quotes.len() && quotes[i].0 == quotes[j].0 implies quotes[i].1.days < quotes[j].1.days by {
            assert(states(rows[i], quotes[i]) && states(rows[j], quotes[j]));
            texts_do_not_precede_themselves(rows[i].ticker@);
            date_texts_sort_by_day(
                quotes[i].1.days as int,
                rows[i].date@,
                quotes[j].1.days as int,
                rows[j].date@,
            );
        }
    }
    gathering_parts_by_ticker(quotes);
    assert forall|ticker: Seq<char>| #[trigger] of_ticker(quotes, ticker) == chronology(series_of(all, ticker)) && (
    of_ticker(quotes, ticker).len() > 0 <==> series_of(all, ticker).len() > 0) by {
        lemma_listed_series(all, quotes, ticker);
    }
    assert(gathered(quotes) =~= chronological(all));
}

proof fn lemma_plain_years_valid(quotes: Seq<Quote>)
    requires
        plain_years(quotes),
    ensures
        valid_quotes(quotes),
{
    assert forall|i: int| 0 <= i < quotes.len() implies (#[trigger] quotes[i]).1.valid() by {
        assert(has_plain_year(quotes[i].1.days as int));
    }
}

/// Prices written to an empty table, once or twice, and listed by ticker and
/// date come back, in the order of their dates.
pub proof fn new_cache_gives_back_prices(prices: PriceMap, rows: Seq<PriceRow>, quotes: Seq<Quote>)
    requires
        prices.wf(),
        lists(upserted(Map::empty(), all_quotes(prices.entries@)), quotes) || lists(
            upserted(upserted(Map::empty(), all_quotes(prices.entries@)), all_quotes(prices.entries@)),
            quotes,
        ),
        state_all(rows, quotes),
        in_row_order(rows),
        plain_years(quotes),
    ensures
        gathered(quotes) == chronological(all_series(prices)),
{
    first_write_fills_table(prices);
    writing_again_changes_nothing(Map::empty(), all_quotes(prices.entries@));
    restart_gives_back_prices(all_series(prices), rows, quotes);
}

/// Writing prices to an empty table makes it the table of those prices.
pub proof fn first_write_fills_table(prices: PriceMap)
    requires
        prices.wf(),
    ensures
        upserted(Map::empty(), all_quotes(prices.entries@)) == table_of(all_series(prices)),
{
    let left = upserted(Map::empty(), all_quotes(prices.entries@));
    let right = table_of(all_series(prices));
    assert forall|key: (Seq<char>, Date)| looked_up(left, key.0, key.1) == #[trigger] looked_up(right, key.0, key.1) by {
        lemma_upserted(Map::empty(), all_quotes(prices.entries@), key.0, key.1);
        quotes_keep_series(prices, key.0);
    }
    lemma_same_table(left, right);
}

/// Writing the same rows a second time changes nothing.
pub proof fn writing_again_changes_nothing(table: Table, quotes: Seq<Quote>)
    ensures
        upserted(upserted(table, quotes), quotes) == upserted(table, quotes),
{
    let once = upserted(table, quotes);
    let twice = upserted(once, quotes);
    assert forall|key: (Seq<char>, Date)| looked_up(twice, key.0, key.1) == #[trigger] looked_up(once, key.0, key.1) by {
        lemma_upserted(table, quotes, key.0, key.1);
        lemma_upserted(once, quotes, key.0, key.1);
    }
    lemma_same_table(twice, once);
}

proof fn lemma_same_table(left: Table, right: Table)
    requires
        forall|key: (Seq<char>, Date)| looked_up(left, key.0, key.1) == #[trigger] looked_up(right, key.0, key.1),
    ensures
        left == right,
{
    assert forall|key: (Seq<char>, Date)| #[trigger] left.contains_key(key) == right.contains_key(key) by {
        let _ = looked_up(right, key.0, key.1);
    }
    assert forall|key: (Seq<char>, Date)| #[trigger] left.contains_key(key) implies left[key] == right[key] by {
        let _ = looked_up(right, key.0, key.1);
    }
    assert(left =~= right);
}

/// Memory and cache stay in step: writing the new prices to the table of the
/// existing ones gives the table of the merged ones.
pub proof fn upserting_agrees_with_merging(existing: Map<Seq<char>, Seq<(Date, Double)>>, new: PriceMap)
    requires
        new.wf(),
    ensures
        upserted(table_of(existing), all_quotes(new.entries@)) == table_of(merged(existing, all_series(new))),
{
    let left = upserted(table_of(existing), all_quotes(new.entries@));
    let right = table_of(merged(existing, all_series(new)));
    assert forall|key: (Seq<char>, Date)| looked_up(left, key.0, key.1) == #[trigger] looked_up(right, key.0, key.1) by {
        lemma_upserted(table_of(existing), all_quotes(new.entries@), key.0, key.1);
        quotes_keep_series(new, key.0);
        merging_prefers_new_prices(existing, all_series(new), key.0, key.1);
    }
    lemma_same_table(left, right);
}

} // verus!
