//! Fetching prices: what to ask Yahoo Finance for, what to make of its answers,
//! and when to ask again.
use vstd::arithmetic::power2::{lemma_pow2_unfold, lemma2_to64, pow2};
use vstd::prelude::*;
use vstd::string::StringExecFns;

use crate::calendar::{day_of_second, midnight, utc_day, valid_day, Date, DAY_SECONDS, EPOCH_DAY};
use crate::data::{
    all_series, lemma_week_close, lemma_weekly, lemma_weekly_valid, resample_weekly, valid_dates, valid_prices, weekly,
    PriceMap, PriceSeries,
};
use crate::number::Double;
use crate::text::{decimal, push_decimal, texts};
use crate::tickers::TickerMap;

verus! {

// ─── Yahoo Finance v8 API response ───────────────────────────────────────────

#[derive(Debug)]
pub struct YfResponse {
    pub chart: YfChart,
}

#[derive(Debug)]
pub struct YfChart {
    pub result: Option<Vec<YfResult>>,
    /// The error that the service reports, as text.
    pub error: Option<String>,
}

#[derive(Debug)]
pub struct YfResult {
    pub timestamp: Vec<i64>,
    pub indicators: YfIndicators,
}

#[derive(Debug)]
pub struct YfIndicators {
    pub adjclose: Option<Vec<YfAdjClose>>,
    pub quote: Vec<YfQuote>,
}

#[derive(Debug)]
pub struct YfAdjClose {
    pub adjclose: Vec<Option<Double>>,
}

#[derive(Debug)]
pub struct YfQuote {
    pub close: Vec<Option<Double>>,
}

/// Why a fetch failed.
#[derive(Debug)]
pub enum FetchError {
    /// No answer came; the text says why.
    Transport(String),
    /// The service asked to come back later, or failed; the text is its status.
    Http(String),
    /// The answer could not be read; the text says why.
    Body(String),
    /// The service reported an error.
    Api(String),
    /// The answer held no data.
    NoData,
}

impl FetchError {
    pub open spec fn text(self, ticker: Seq<char>) -> Seq<char> {
        match self {
            FetchError::Transport(why) => why@,
            FetchError::Http(status) => ticker + ": HTTP "@ + status@,
            FetchError::Body(why) => why@,
            FetchError::Api(why) => "Yahoo Finance API error for "@ + ticker + ": "@ + why@,
            FetchError::NoData => "No data returned for "@ + ticker,
        }
    }

    /// The error in words.
    pub fn message(&self, ticker: &str) -> (r: String)
        ensures
            r@ == self.text(ticker@),
    {
        match self {
            FetchError::Transport(why) => why.clone(),
            FetchError::Http(status) => {
                let mut r = ticker.to_owned();
                r.append(": HTTP ");
                r.append(status.as_str());
                r
            },
            FetchError::Body(why) => why.clone(),
            FetchError::Api(why) => {
                let mut r = "Yahoo Finance API error for ".to_owned();
                r.append(ticker);
                r.append(": ");
                r.append(why.as_str());
                r
            },
            FetchError::NoData => {
                let mut r = "No data returned for ".to_owned();
                r.append(ticker);
                r
            },
        }
    }
}

// ─── The request ─────────────────────────────────────────────────────────────

/// The address that is asked: from the midnight of `since` up to now, or for
/// two years.
pub open spec fn url_text(ticker: Seq<char>, since: Option<Date>, now: int) -> Seq<char> {
    match since {
        Some(date) => "https://query1.finance.yahoo.com/v8/finance/chart/"@ + ticker + "?interval=1d&period1="@
            + decimal((date.days - EPOCH_DAY) * DAY_SECONDS) + "&period2="@ + decimal(now),
        None => "https://query1.finance.yahoo.com/v8/finance/chart/"@ + ticker + "?interval=1d&range=2y"@,
    }
}

/// The address to ask for the daily prices of a ticker; `now` is in seconds
/// since 1970.
pub fn fetch_url(ticker: &str, since: Option<Date>, now: i64) -> (r: String)
    requires
        since matches Some(date) ==> date.valid(),
    ensures
        r@ == url_text(ticker@, since, now as int),
{
    let mut r = "https://query1.finance.yahoo.com/v8/finance/chart/".to_owned();
    r.append(ticker);
    match since {
        Some(date) => {
            let period1 = midnight(date.days);
            r.append("?interval=1d&period1=");
            push_decimal(&mut r, period1);
            r.append("&period2=");
            push_decimal(&mut r, now);
        },
        None => {
            r.append("?interval=1d&range=2y");
        },
    }
    r
}

// ─── The answer ──────────────────────────────────────────────────────────────

/// The adjusted closes, or else the closes, or else nothing.
pub open spec fn chosen_closes(indicators: YfIndicators) -> Seq<Option<Double>> {
    if indicators.adjclose matches Some(a) && a@.len() > 0 {
        indicators.adjclose->0@[0].adjclose@
    } else if indicators.quote@.len() > 0 {
        indicators.quote@[0].close@
    } else {
        Seq::empty()
    }
}

/// The first `n` bars that have a date and a price.
pub open spec fn daily_points(timestamps: Seq<i64>, closes: Seq<Option<Double>>, n: int) -> Seq<(Date, Double)>
    decreases n,
{
    if n <= 0 {
        Seq::empty()
    } else {
        let rest = daily_points(timestamps, closes, n - 1);
        let day = day_of_second(timestamps[n - 1] as int);
        if valid_day(day) && closes[n - 1] is Some {
            rest.push((Date { days: day as i32 }, closes[n - 1]->0))
        } else {
            rest
        }
    }
}

/// The daily prices of a result, time by time as far as there are closes.
pub open spec fn daily_prices(result: YfResult) -> Seq<(Date, Double)> {
    let closes = chosen_closes(result.indicators);
    let n = if result.timestamp@.len() <= closes.len() { result.timestamp@.len() } else { closes.len() };
    daily_points(result.timestamp@, closes, n as int)
}

/// Only the days after the cutoff: the cutoff itself is known already.
pub open spec fn after_cutoff(daily: Seq<(Date, Double)>, since: Option<Date>) -> Seq<(Date, Double)> {
    match since {
        Some(cutoff) => daily.filter(|p: (Date, Double)| p.0.days > cutoff.days),
        None => daily,
    }
}

/// The prices that a result adds to those up to `since`: of each week the close.
pub open spec fn fetched_series(result: YfResult, since: Option<Date>) -> Seq<(Date, Double)> {
    weekly(after_cutoff(daily_prices(result), since))
}

fn daily_of(timestamps: &Vec<i64>, closes: &Vec<Option<Double>>, since: Option<Date>) -> (r: PriceSeries)
    ensures
        ({
            let n = if timestamps@.len() <= closes@.len() { timestamps@.len() } else { closes@.len() };
            r@ == after_cutoff(daily_points(timestamps@, closes@, n as int), since)
        }),
        valid_dates(r@),
{
    let n = if timestamps.len() <= closes.len() { timestamps.len() } else { closes.len() };
    let mut r: PriceSeries = Vec::new();
    let mut i: usize = 0;
    proof {
        reveal(Seq::filter);
        assert(r@ =~= after_cutoff(daily_points(timestamps@, closes@, 0), since));
    }
    while i < n
        invariant
            n <= timestamps@.len(),
            n <= closes@.len(),
            i <= n,
            r@ == after_cutoff(daily_points(timestamps@, closes@, i as int), since),
            valid_dates(r@),
        decreases n - i,
    {
        proof {
            reveal(Seq::filter);
        }
        let ghost before = daily_points(timestamps@, closes@, i as int);
        let ghost held = r@;
        if let (Some(days), Some(price)) = (utc_day(timestamps[i]), closes[i]) {
            let kept = match since {
                Some(cutoff) => days > cutoff.days,
                None => true,
            };
            assert(before.push((Date { days }, price)).drop_last() =~= before);
            if kept {
                r.push((Date { days }, price));
                assert(valid_dates(r@)) by {
                    assert forall|k: int| 0 <= k < r@.len() implies (#[trigger] r@[k]).0.valid() by {
                        if k < held.len() {
                            assert(r@[k] == held[k]);
                        }
                    }
                }
            }
        }
        i += 1;
    }
    r
}

/// What an answer comes to: the error that it reports, or its first result.
pub open spec fn is_outcome(response: YfResponse, since: Option<Date>, r: Result<PriceSeries, FetchError>) -> bool {
    if response.chart.error matches Some(why) {
        r matches Err(FetchError::Api(shown)) && shown@ == response.chart.error->0@
    } else if response.chart.result matches Some(results) && results@.len() > 0 {
        r matches Ok(series) && series@ == fetched_series(response.chart.result->0@[0], since)
    } else {
        r matches Err(FetchError::NoData)
    }
}

/// Reads an answer.
pub fn read_response(response: YfResponse, since: Option<Date>) -> (r: Result<PriceSeries, FetchError>)
    ensures
        is_outcome(response, since, r),
        r matches Ok(series) ==> valid_dates(series@),
{
    if let Some(why) = response.chart.error {
        return Err(FetchError::Api(why));
    }
    match response.chart.result {
        Some(results) => {
            if results.len() == 0 {
                return Err(FetchError::NoData);
            }
            let result = &results[0];
            let none: Vec<Option<Double>> = Vec::new();
            let closes: &Vec<Option<Double>> = match &result.indicators.adjclose {
                Some(a) => {
                    if a.len() > 0 {
                        &a[0].adjclose
                    } else if result.indicators.quote.len() > 0 {
                        &result.indicators.quote[0].close
                    } else {
                        &none
                    }
                },
                None => {
                    if result.indicators.quote.len() > 0 {
                        &result.indicators.quote[0].close
                    } else {
                        &none
                    }
                },
            };
            assert(closes@ =~= chosen_closes(result.indicators));
            let daily = daily_of(&result.timestamp, closes, since);
            let series = resample_weekly(&daily);
            proof {
                lemma_weekly_valid(daily@, series@);
            }
            Ok(series)
        },
        None => Err(FetchError::NoData),
    }
}

// ─── Trying again ────────────────────────────────────────────────────────────

/// How often a request is repeated.
pub const MAX_RETRIES: u32 = 2;

/// What happened to a request.
#[derive(Debug)]
pub enum FetchEvent {
    /// No answer came; the text says why.
    SendFailed(String),
    /// An answer came with this status, shown as in the text.
    Answered(u16, String),
    /// The answer could not be read; the text says why.
    BodyUnreadable(String),
    /// The answer was read.
    BodyRead(YfResponse),
}

/// What to do next.
#[derive(Debug)]
pub enum FetchAction {
    /// Wait so many milliseconds, then send the request again.
    SendAfter(u64),
    /// Read the answer.
    ReadBody,
    /// Stop with this outcome.
    Finish(Result<PriceSeries, FetchError>),
}

/// The status asks for another try: too many requests, or a server error.
pub open spec fn is_transient(status: int) -> bool {
    status == 429 || 500 <= status <= 599
}

/// The failure that an event stands for, if it is one that may pass.
pub open spec fn is_passing_failure(event: FetchEvent, error: FetchError) -> bool {
    match event {
        FetchEvent::SendFailed(why) => error == FetchError::Transport(why),
        FetchEvent::Answered(status, shown) => is_transient(status as int) && error == FetchError::Http(shown),
        FetchEvent::BodyUnreadable(why) => error == FetchError::Body(why),
        FetchEvent::BodyRead(_) => false,
    }
}

/// The event is a failure that may pass.
pub open spec fn may_pass(event: FetchEvent) -> bool {
    match event {
        FetchEvent::SendFailed(_) => true,
        FetchEvent::Answered(status, _) => is_transient(status as int),
        FetchEvent::BodyUnreadable(_) => true,
        FetchEvent::BodyRead(_) => false,
    }
}

/// The number of repeats after an event: one more if it is a failure that may
/// pass and there are tries left.
pub open spec fn attempt_after(attempt: int, event: FetchEvent) -> int {
    if may_pass(event) && attempt < MAX_RETRIES { attempt + 1 } else { attempt }
}

/// The wait before a repeated try, in milliseconds; it doubles each time.
pub open spec fn backoff(attempt: nat) -> nat {
    pow2(attempt) * 500
}

fn backoff_ms(attempt: u32) -> (r: u64)
    requires
        attempt <= MAX_RETRIES,
    ensures
        r == backoff(attempt as nat),
{
    proof {
        lemma2_to64();
    }
    let mut r: u64 = 500;
    let mut i: u32 = 0;
    while i < attempt
        invariant
            i <= attempt <= MAX_RETRIES,
            r == backoff(i as nat),
            i == 0 ==> r == 500,
            i == 1 ==> r == 1000,
        decreases attempt - i,
    {
        proof {
            lemma_pow2_unfold((i + 1) as nat);
        }
        r = 2 * r;
        i += 1;
    }
    r
}

/// One ticker being fetched: how often the request has been repeated.
#[derive(Debug)]
pub struct Fetch {
    pub since: Option<Date>,
    pub attempt: u32,
}

impl Fetch {
    pub open spec fn wf(self) -> bool {
        self.attempt <= MAX_RETRIES
    }

    pub fn new(since: Option<Date>) -> (r: Fetch)
        ensures
            r.wf(),
            r.since == since,
            r.attempt == 0,
    {
        Fetch { since, attempt: 0 }
    }

    fn retry(&mut self, error: FetchError) -> (action: FetchAction)
        requires
            old(self).wf(),
        ensures
            final(self).wf(),
            final(self).since == old(self).since,
            if old(self).attempt < MAX_RETRIES {
                final(self).attempt == old(self).attempt + 1 && (action matches FetchAction::SendAfter(wait) && wait
                    == backoff(final(self).attempt as nat))
            } else {
                final(self).attempt == old(self).attempt && action == FetchAction::Finish(Err(error))
            },
    {
        if self.attempt < MAX_RETRIES {
            self.attempt = self.attempt + 1;
            FetchAction::SendAfter(backoff_ms(self.attempt))
        } else {
            FetchAction::Finish(Err(error))
        }
    }

    /// What follows an event: a failure that may pass leads to another try as
    /// long as there are tries left, and then is the outcome; any other
    /// status has the answer read; and an answer that was read decides.
    pub fn step(&mut self, event: FetchEvent) -> (action: FetchAction)
        requires
            old(self).wf(),
        ensures
            final(self).wf(),
            final(self).since == old(self).since,
            final(self).attempt == attempt_after(old(self).attempt as int, event),
            may_pass(event) && old(self).attempt < MAX_RETRIES ==> {
                &&& action matches FetchAction::SendAfter(wait)
                &&& action->SendAfter_0 == backoff(final(self).attempt as nat)
            },
            may_pass(event) && old(self).attempt == MAX_RETRIES ==> {
                &&& action matches FetchAction::Finish(Err(error))
                &&& is_passing_failure(event, action->Finish_0->Err_0)
            },
            !may_pass(event) && event is Answered ==> action is ReadBody,
            event matches FetchEvent::BodyRead(response) ==> {
                &&& action matches FetchAction::Finish(outcome)
                &&& is_outcome(response, old(self).since, action->Finish_0)
                &&& action->Finish_0 matches Ok(series) ==> valid_dates(series@)
            },
    {
        match event {
            FetchEvent::SendFailed(why) => self.retry(FetchError::Transport(why)),
            FetchEvent::Answered(status, shown) => {
                if status == 429 || (500 <= status && status <= 599) {
                    self.retry(FetchError::Http(shown))
                } else {
                    FetchAction::ReadBody
                }
            },
            FetchEvent::BodyUnreadable(why) => self.retry(FetchError::Body(why)),
            FetchEvent::BodyRead(response) => FetchAction::Finish(read_response(response, self.since)),
        }
    }
}

// ─── Many tickers ────────────────────────────────────────────────────────────

/// A ticker to fetch, from the given date on.
#[derive(Debug)]
pub struct FetchJob {
    pub ticker: String,
    pub since: Option<Date>,
}

/// The date up to which the prices of a ticker are known.
pub open spec fn known_until(cached: TickerMap<Date>, ticker: Seq<char>) -> Option<Date> {
    if cached@.contains_key(ticker) { Some(cached@[ticker]) } else { None }
}

/// The prices of the ticker are not known up to today.
pub open spec fn is_due(cached: TickerMap<Date>, today: Date, ticker: Seq<char>) -> bool {
    known_until(cached, ticker) matches Some(latest) ==> latest.days < today.days
}

/// One job for each ticker that is due, in the order given.
pub open spec fn is_plan(tickers: Seq<Seq<char>>, cached: TickerMap<Date>, today: Date, jobs: Seq<FetchJob>) -> bool {
    let due = tickers.filter(|t: Seq<char>| is_due(cached, today, t));
    &&& jobs.len() == due.len()
    &&& forall|i: int|
        0 <= i < jobs.len() ==> (#[trigger] jobs[i]).ticker@ == due[i] && jobs[i].since == known_until(cached, due[i])
}

/// Plans an incremental fetch: tickers that are known up to today are left out,
/// those known up to an earlier date are asked for from there on, and the
/// others for their full history.
pub fn plan_fetches(tickers: &[&str], cached: &TickerMap<Date>, today: Date) -> (jobs: Vec<FetchJob>)
    requires
        cached.wf(),
    ensures
        is_plan(texts(tickers@), *cached, today, jobs@),
{
    let ghost all = texts(tickers@);
    let ghost pred = |t: Seq<char>| is_due(*cached, today, t);
    let mut jobs: Vec<FetchJob> = Vec::new();
    let mut i: usize = 0;
    proof {
        reveal(Seq::filter);
    }
    while i < tickers.len()
        invariant
            cached.wf(),
            i <= tickers@.len(),
            all == texts(tickers@),
            is_plan(all.take(i as int), *cached, today, jobs@),
        decreases tickers.len() - i,
    {
        let ghost pred = |t: Seq<char>| is_due(*cached, today, t);
        let ghost before = all.take(i as int).filter(pred);
        let ghost next = all.take(i + 1).filter(pred);
        let ghost held = jobs@;
        let ticker = tickers[i];
        proof {
            reveal(Seq::filter);
            assert(all.take(i + 1).drop_last() =~= all.take(i as int));
            assert(all[i as int] == ticker@);
        }
        let since: Option<Date> = match cached.get(ticker) {
            Some(date) => Some(*date),
            None => None,
        };
        let due = match since {
            Some(latest) => latest.days < today.days,
            None => true,
        };
        if due {
            jobs.push(FetchJob { ticker: ticker.to_owned(), since });
            assert(next == before.push(ticker@));
            assert forall|k: int| 0 <= k < jobs@.len() implies (#[trigger] jobs@[k]).ticker@ == next[k] && jobs@[k].since
                == known_until(*cached, next[k]) by {
                if k < held.len() {
                    assert(jobs@[k] == held[k]);
                }
            }
        }
        i += 1;
    }
    assert(all.take(i as int) =~= all);
    jobs
}

/// The series that were fetched and are not empty, by ticker; the last one
/// where a ticker was fetched more than once.
pub open spec fn fetched(
    outcomes: Seq<(String, Result<PriceSeries, FetchError>)>,
) -> Map<Seq<char>, Seq<(Date, Double)>>
    decreases outcomes.len(),
{
    if outcomes.len() == 0 {
        Map::empty()
    } else {
        let rest = fetched(outcomes.drop_last());
        match outcomes.last().1 {
            Ok(series) => if series@.len() > 0 { rest.insert(outcomes.last().0@, series@) } else { rest },
            Err(_) => rest,
        }
    }
}

proof fn lemma_fetched_valid(outcomes: Seq<(String, Result<PriceSeries, FetchError>)>)
    ensures
        (forall|i: int|
            0 <= i < outcomes.len() ==> ((#[trigger] outcomes[i]).1 matches Ok(series) ==> valid_dates(series@)))
            ==> valid_prices(fetched(outcomes)),
    decreases outcomes.len(),
{
    if outcomes.len() > 0 && (forall|i: int|
        0 <= i < outcomes.len() ==> ((#[trigger] outcomes[i]).1 matches Ok(series) ==> valid_dates(series@))) {
        let shorter = outcomes.drop_last();
        assert forall|i: int| 0 <= i < shorter.len() implies ((#[trigger] shorter[i]).1 matches Ok(series) ==> valid_dates(
            series@,
        )) by {
            assert(outcomes[i] == shorter[i]);
        }
        lemma_fetched_valid(shorter);
        assert(outcomes[outcomes.len() - 1] == outcomes.last());
    }
}

/// Gathers the newly fetched rows: what failed or brought nothing leaves no trace.
pub fn fetch_incremental(outcomes: Vec<(String, Result<PriceSeries, FetchError>)>) -> (r: PriceMap)
    ensures
        r.wf(),
        all_series(r) == fetched(outcomes@),
        (forall|i: int|
            0 <= i < outcomes@.len() ==> ((#[trigger] outcomes@[i]).1 matches Ok(series) ==> valid_dates(series@)))
            ==> valid_prices(all_series(r)),
{
    proof {
        lemma_fetched_valid(outcomes@);
    }
    let ghost given = outcomes@;
    let mut r: PriceMap = TickerMap::new();
    let mut rest = outcomes;
    proof {
        assert(all_series(r) =~= Map::<Seq<char>, Seq<(Date, Double)>>::empty());
        assert(given.take(0) =~= Seq::empty());
    }
    while rest.len() > 0
        invariant
            r.wf(),
            rest@.len() <= given.len(),
            rest@ == given.skip(given.len() - rest@.len()),
            all_series(r) == fetched(given.take(given.len() - rest@.len())),
        decreases rest.len(),
    {
        let ghost done = given.len() - rest@.len();
        let (ticker, outcome) = rest.remove(0);
        proof {
            assert(rest@ =~= given.skip(done + 1));
            assert(given.take(done + 1).drop_last() =~= given.take(done));
            assert(given.take(done + 1).last() == (ticker, outcome));
        }
        if let Ok(series) = outcome {
            if series.len() > 0 {
                let ghost before = all_series(r);
                let ghost key = ticker@;
                let ghost rows = series@;
                r.insert(ticker, series);
                assert(all_series(r) =~= before.insert(key, rows));
            }
        }
    }
    assert(given.take(given.len() as int) =~= given);
    r
}

/// `rand`'s `Rng::random_range` over an inclusive range, on `rand::rng()`: a
/// number of the range.
#[verifier::external_body]
fn random_between(low: u64, high: u64) -> (r: u64)
    requires
        low <= high,
    ensures
        low <= r <= high,
{
    rand::Rng::random_range(&mut rand::rng(), low..=high)
}

/// How long to wait between two tickers, in milliseconds: from 100 to 300, by
/// chance.
pub fn pause() -> (r: u64)
    ensures
        100 <= r <= 300,
{
    random_between(100, 300)
}

/// The UTC date of a second since 1970, if the calendar knows it.
pub fn utc_date(secs: i64) -> (r: Option<Date>)
    ensures
        r == if valid_day(day_of_second(secs as int)) {
            Some(Date { days: day_of_second(secs as int) as i32 })
        } else {
            None
        },
{
    match utc_day(secs) {
        Some(days) => Some(Date { days }),
        None => None,
    }
}

// ─── Laws ────────────────────────────────────────────────────────────────────

/// What is fetched after a cutoff is later than the cutoff.
pub proof fn fetched_rows_are_new(result: YfResult, cutoff: Date)
    ensures
        forall|i: int|
            0 <= i < fetched_series(result, Some(cutoff)).len() ==> cutoff.days < (#[trigger] fetched_series(
                result,
                Some(cutoff),
            )[i]).0.days,
{
    broadcast use vstd::seq_lib::group_filter_ensures;

    let daily = after_cutoff(daily_prices(result), Some(cutoff));
    let series = fetched_series(result, Some(cutoff));
    lemma_weekly(daily);
    assert forall|i: int| 0 <= i < series.len() implies cutoff.days < (#[trigger] series[i]).0.days by {
        let d = lemma_week_close(daily, series[i]);
        let pred = |p: (Date, Double)| p.0.days > cutoff.days;
        assert(pred(daily_prices(result).filter(pred)[d]));
    }
}

/// A plan has a job for every ticker that is due, and none for a ticker that is
/// known up to today.
pub proof fn plans_cover_due_tickers(tickers: Seq<Seq<char>>, cached: TickerMap<Date>, today: Date, jobs: Seq<FetchJob>)
    requires
        is_plan(tickers, cached, today, jobs),
    ensures
        forall|i: int|
            0 <= i < jobs.len() ==> is_due(cached, today, (#[trigger] jobs[i]).ticker@) && jobs[i].since == known_until(
                cached,
                jobs[i].ticker@,
            ),
        forall|k: int|
            0 <= k < tickers.len() && is_due(cached, today, #[trigger] tickers[k]) ==> exists|i: int|
                0 <= i < jobs.len() && (#[trigger] jobs[i]).ticker@ == tickers[k],
{
    broadcast use vstd::seq_lib::group_filter_ensures;

    let pred = |t: Seq<char>| is_due(cached, today, t);
    let due = tickers.filter(pred);
    assert forall|i: int| 0 <= i < jobs.len() implies is_due(cached, today, (#[trigger] jobs[i]).ticker@) by {
        assert(pred(due[i]));
    }
    assert forall|k: int| 0 <= k < tickers.len() && is_due(cached, today, #[trigger] tickers[k]) implies exists|i: int|
        0 <= i < jobs.len() && (#[trigger] jobs[i]).ticker@ == tickers[k] by {
        assert(pred(tickers[k]));
        assert(due.contains(tickers[k]));
        let i = choose|i: int| 0 <= i < due.len() && due[i] == tickers[k];
        assert(jobs[i].ticker@ == tickers[k]);
    }
}

/// How often a request is repeated in the course of some events.
pub open spec fn repeats(attempt: int, events: Seq<FetchEvent>) -> int
    decreases events.len(),
{
    if events.len() == 0 {
        0
    } else {
        let next = attempt_after(attempt, events[0]);
        next - attempt + repeats(next, events.drop_first())
    }
}

/// How long is waited, in milliseconds, in the course of some events.
pub open spec fn waited(attempt: int, events: Seq<FetchEvent>) -> int
    decreases events.len(),
{
    if events.len() == 0 {
        0
    } else {
        let next = attempt_after(attempt, events[0]);
        (if next > attempt { backoff(next as nat) as int } else { 0 }) + waited(next, events.drop_first())
    }
}

/// Whatever happens, a request is repeated at most twice, after one second and
/// after two more.
pub proof fn retries_are_bounded(events: Seq<FetchEvent>)
    ensures
        0 <= repeats(0, events) <= MAX_RETRIES,
        backoff(1) == 1000,
        backoff(2) == 2000,
        0 <= waited(0, events) <= 3000,
{
    lemma2_to64();
    lemma_retries(0, events);
}

proof fn lemma_retries(attempt: int, events: Seq<FetchEvent>)
    requires
        0 <= attempt <= MAX_RETRIES,
    ensures
        0 <= repeats(attempt, events) <= MAX_RETRIES - attempt,
        0 <= waited(attempt, events),
        waited(attempt, events) <= if attempt == 0 {
            3000int
        } else if attempt == 1 {
            2000
        } else {
            0
        },
    decreases events.len(),
{
    lemma2_to64();
    if events.len() > 0 {
        lemma_retries(attempt_after(attempt, events[0]), events.drop_first());
    }
}

} // verus!
