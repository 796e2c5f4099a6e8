//! Dates and moments: the calendar that price series are keyed by.
//!
//! A date is the number of its day in the proleptic Gregorian calendar, with
//! 1 January of year 1 as day 1; that day was a Monday.  What the calendar
//! says of a day (its ISO week, its text, its midnight) is asked of `chrono`.
use vstd::arithmetic::div_mod::{lemma_fundamental_div_mod, lemma_mod_multiples_vanish};
use vstd::prelude::*;

use crate::text::{digit, digits};

verus! {

/// A day of the calendar.
#[derive(Clone, Copy, Debug, PartialEq, Eq, Structural)]
pub struct Date {
    pub days: i32,
}

/// 1 January of the first year that `chrono` knows, -262143.
pub const FIRST_DAY: i32 = -95_746_129;

/// 31 December of the last year that `chrono` knows, 262142.
pub const LAST_DAY: i32 = 95_745_399;

/// The number of 1 January 1970.
pub const EPOCH_DAY: i32 = 719_163;

/// The seconds of a day.
pub const DAY_SECONDS: i64 = 86_400;

impl Date {
    /// The day lies in the years that `chrono` knows.
    pub open spec fn valid(self) -> bool {
        valid_day(self.days as int)
    }
}

pub open spec fn valid_day(day: int) -> bool {
    FIRST_DAY <= day <= LAST_DAY
}

/// The number of 1 January of a year: one leap day every four years, but for
/// the centuries that 400 does not divide.
pub open spec fn first_day(year: int) -> int {
    365 * (year - 1) + (year - 1) / 4 - (year - 1) / 100 + (year - 1) / 400 + 1
}

/// The weeks, Monday to Sunday, counted from the week of day 1.
#[verifier::opaque]
pub open spec fn week_index(day: int) -> int {
    (day - 1) / 7
}

/// The Thursday of the week of a day.
pub open spec fn thursday(day: int) -> int {
    7 * week_index(day) + 4
}

/// ISO 8601: a week belongs to the year of its Thursday, and its number is the
/// place of that Thursday among the Thursdays of the year.
#[verifier::opaque]
pub open spec fn is_iso_week(day: int, year: int, week: int) -> bool {
    &&& first_day(year) <= thursday(day) < first_day(year + 1)
    &&& week == (thursday(day) - first_day(year)) / 7 + 1
}

/// `chrono`'s `Datelike::iso_week` of a `NaiveDate`: the ISO year and the ISO
/// week number of the day.
#[verifier::external_body]
pub(crate) fn iso_week(day: i32) -> (r: (i32, u32))
    requires
        valid_day(day as int),
    ensures
        is_iso_week(day as int, r.0 as int, r.1 as int),
{
    let date = chrono::NaiveDate::from_num_days_from_ce_opt(day).unwrap();
    let week = chrono::Datelike::iso_week(&date);
    (week.year(), week.week())
}

pub proof fn lemma_first_day_grows(a: int, b: int)
    requires
        a < b,
    ensures
        first_day(a) < first_day(b),
{
}

/// The first and the last day are the ends of the years -262143 and 262142.
pub proof fn day_range_is_whole_years()
    ensures
        FIRST_DAY == first_day(-262143),
        LAST_DAY + 1 == first_day(262143),
        EPOCH_DAY == first_day(1970),
{
}

/// ISO year and week number name a week, and order the weeks as time does.
pub proof fn iso_weeks_follow_time(a: int, ya: int, wa: int, b: int, yb: int, wb: int)
    requires
        is_iso_week(a, ya, wa),
        is_iso_week(b, yb, wb),
    ensures
        (ya == yb && wa == wb) <==> week_index(a) == week_index(b),
        (ya < yb || (ya == yb && wa < wb)) <==> week_index(a) < week_index(b),
{
    reveal(week_index);
    reveal(is_iso_week);
    if ya < yb {
        if ya + 1 < yb {
            lemma_first_day_grows(ya + 1, yb);
        }
    }
    if yb < ya {
        if yb + 1 < ya {
            lemma_first_day_grows(yb + 1, ya);
        }
    }
}

// ─── Moments ─────────────────────────────────────────────────────────────────

/// A moment in UTC: the seconds since 1970 and the nanoseconds within the
/// second, which pass a whole second only within a leap second.
#[derive(Clone, Copy, Debug, PartialEq, Eq, Structural)]
pub struct Instant {
    pub secs: i64,
    pub nanos: u32,
}

/// The day on which a second since 1970 lies.
pub open spec fn day_of_second(secs: int) -> int {
    secs / (DAY_SECONDS as int) + EPOCH_DAY
}

impl Instant {
    pub open spec fn valid(self) -> bool {
        &&& valid_day(day_of_second(self.secs as int))
        &&& self.nanos < 1_000_000_000 || (self.nanos < 2_000_000_000 && self.secs as int % 60 == 59)
    }
}

/// `chrono`'s `NaiveDate::and_hms_opt(0, 0, 0)`, `and_utc` and `timestamp`: the
/// seconds from 1970 to the midnight, UTC, at which the day begins.
#[verifier::external_body]
pub(crate) fn midnight(day: i32) -> (r: i64)
    requires
        valid_day(day as int),
    ensures
        r == (day - EPOCH_DAY) * DAY_SECONDS,
{
    let date = chrono::NaiveDate::from_num_days_from_ce_opt(day).unwrap();
    date.and_hms_opt(0, 0, 0).unwrap().and_utc().timestamp()
}

/// `chrono`'s `DateTime::from_timestamp` with no nanoseconds, `naive_local` and
/// `date`: the UTC day of a second since 1970, if `chrono` knows its year.
#[verifier::external_body]
pub(crate) fn utc_day(secs: i64) -> (r: Option<i32>)
    ensures
        r == if valid_day(day_of_second(secs as int)) {
            Some(day_of_second(secs as int) as i32)
        } else {
            None
        },
{
    match chrono::DateTime::from_timestamp(secs, 0) {
        Some(moment) => Some(chrono::Datelike::num_days_from_ce(&moment.naive_local().date())),
        None => None,
    }
}

// ─── Dates as text ───────────────────────────────────────────────────────────

/// The length of a month.
pub open spec fn month_length(year: int, month: int) -> int {
    if month == 2 {
        first_day(year + 1) - first_day(year) - 337
    } else if month == 4 || month == 6 || month == 9 || month == 11 {
        30
    } else {
        31
    }
}

/// The number of the first day of a month.
pub open spec fn month_start(year: int, month: int) -> int
    decreases month,
{
    if month <= 1 {
        first_day(year)
    } else {
        month_start(year, month - 1) + month_length(year, month - 1)
    }
}

/// The day is the given one of the given month.
pub open spec fn is_calendar_date(day: int, year: int, month: int, of_month: int) -> bool {
    &&& 1 <= month <= 12
    &&& 1 <= of_month <= month_length(year, month)
    &&& day == month_start(year, month) + of_month - 1
}

/// The last `width` decimal digits of a number.
pub open spec fn padded(n: nat, width: nat) -> Seq<char>
    decreases width,
{
    if width == 0 {
        Seq::empty()
    } else {
        padded(n / 10, (width - 1) as nat).push(digit(n % 10))
    }
}

/// A year in four digits, with a sign and more digits where four do not do.
pub open spec fn year_text(year: int) -> Seq<char> {
    if 0 <= year <= 9999 {
        padded(year as nat, 4)
    } else if year > 9999 {
        seq!['+'] + digits(year as nat)
    } else if year >= -9999 {
        seq!['-'] + padded((-year) as nat, 4)
    } else {
        seq!['-'] + digits((-year) as nat)
    }
}

/// Year, month and day of the month, as in `2015-09-05`.
pub open spec fn ymd_text(year: int, month: int, of_month: int) -> Seq<char> {
    year_text(year) + seq!['-'] + padded(month as nat, 2) + seq!['-'] + padded(of_month as nat, 2)
}

/// The text is the date of the day, as in `2015-09-05`.
pub open spec fn is_date_text(day: int, text: Seq<char>) -> bool {
    exists|year: int, month: int, of_month: int| #[trigger]
        is_calendar_date(day, year, month, of_month) && text == ymd_text(year, month, of_month)
}

proof fn lemma_digit(a: nat, b: nat)
    requires
        a < 10,
        b < 10,
    ensures
        digit(a) == digit(b) ==> a == b,
        digit(a) != '+' && digit(a) != '-',
{
    assert(digit(a) as nat == '0' as nat + a);
    assert(digit(b) as nat == '0' as nat + b);
}

proof fn lemma_padded_len(n: nat, width: nat)
    ensures
        padded(n, width).len() == width,
    decreases width,
{
    if width > 0 {
        lemma_padded_len(n / 10, (width - 1) as nat);
    }
}

/// The number of numbers that a width has room for.
spec fn room(width: nat) -> nat
    decreases width,
{
    if width == 0 { 1 } else { 10 * room((width - 1) as nat) }
}

proof fn lemma_padded(a: nat, b: nat, width: nat)
    requires
        a < room(width),
        b < room(width),
        padded(a, width) == padded(b, width),
    ensures
        a == b,
    decreases width,
{
    if width > 0 {
        let rest = (width - 1) as nat;
        assert(padded(a, width).last() == digit(a % 10) && padded(b, width).last() == digit(b % 10));
        assert(padded(a, width).drop_last() =~= padded(a / 10, rest));
        assert(padded(b, width).drop_last() =~= padded(b / 10, rest));
        lemma_digit(a % 10, b % 10);
        lemma_padded(a / 10, b / 10, rest);
    }
}

proof fn lemma_digits(a: nat, b: nat)
    requires
        digits(a) == digits(b),
    ensures
        a == b,
    decreases a,
{
    lemma_digits_len(a);
    lemma_digits_len(b);
    assert(digits(a).last() == digit(a % 10) && digits(b).last() == digit(b % 10));
    lemma_digit(a % 10, b % 10);
    if a >= 10 && b >= 10 {
        assert(digits(a).drop_last() =~= digits(a / 10));
        assert(digits(b).drop_last() =~= digits(b / 10));
        lemma_digits(a / 10, b / 10);
    }
}

proof fn lemma_digits_len(n: nat)
    ensures
        digits(n).len() >= 1,
        n >= 10 ==> digits(n).len() >= 2,
        n < 10 ==> digits(n).len() == 1,
        n >= 10000 ==> digits(n).len() >= 5,
        digits(n)[0] != '+' && digits(n)[0] != '-',
    decreases n,
{
    if n < 10 {
        lemma_digit(n, n);
    } else {
        lemma_digits_len(n / 10);
        reveal_with_fuel(digits, 5);
        assert(digits(n)[0] == digits(n / 10)[0]);
    }
}

proof fn lemma_year_text(a: int, b: int)
    requires
        year_text(a) == year_text(b),
    ensures
        a == b,
{
    let (ta, tb) = (year_text(a), year_text(b));
    assert forall|y: int| 0 <= y <= 9999 implies #[trigger] year_text(y)[0] != '+' && year_text(y)[0] != '-' by {
        reveal_with_fuel(padded, 5);
        let n = y as nat;
        lemma_digit(n / 10 / 10 / 10 % 10, 0);
        assert(padded(n, 4)[0] == digit(n / 10 / 10 / 10 % 10));
    }
    assert(a < 0 ==> ta[0] == '-');
    assert(a > 9999 ==> ta[0] == '+');
    assert(b < 0 ==> tb[0] == '-');
    assert(b > 9999 ==> tb[0] == '+');
    if 0 <= a <= 9999 {
        assert(ta[0] != '+' && ta[0] != '-');
        reveal_with_fuel(room, 5);
        lemma_padded(a as nat, b as nat, 4);
    } else if a > 9999 {
        if 0 <= b <= 9999 {
            assert(tb[0] != '+');
        }
        assert(ta.drop_first() =~= digits(a as nat));
        assert(tb.drop_first() =~= digits(b as nat));
        lemma_digits(a as nat, b as nat);
    } else {
        if 0 <= b <= 9999 {
            assert(tb[0] != '-');
        }
        let (m, n) = ((-a) as nat, (-b) as nat);
        lemma_padded_len(m, 4);
        lemma_padded_len(n, 4);
        lemma_digits_len(m);
        lemma_digits_len(n);
        assert(ta.drop_first() =~= if a >= -9999 { padded(m, 4) } else { digits(m) });
        assert(tb.drop_first() =~= if b >= -9999 { padded(n, 4) } else { digits(n) });
        if a >= -9999 {
            reveal_with_fuel(room, 5);
            lemma_padded(m, n, 4);
        } else {
            lemma_digits(m, n);
        }
    }
}

proof fn lemma_months_grow(year: int, a: int, b: int)
    requires
        1 <= a <= b,
    ensures
        month_start(year, a) <= month_start(year, b),
        a < b ==> month_start(year, a) + month_length(year, a) <= month_start(year, b),
    decreases b,
{
    if a < b {
        lemma_months_grow(year, a, b - 1);
    }
}

proof fn lemma_date_in_year(day: int, year: int, month: int, of_month: int)
    requires
        is_calendar_date(day, year, month, of_month),
    ensures
        first_day(year) <= day < first_day(year + 1),
        1 <= of_month <= 31,
{
    lemma_months_grow(year, 1, month);
    lemma_months_grow(year, month, 13);
    reveal_with_fuel(month_start, 14);
}

/// The text comes first in alphabetical order: the two agree up to a place, and
/// there it ends or has the smaller character.
pub open spec fn text_before(a: Seq<char>, b: Seq<char>) -> bool {
    exists|k: int|
        0 <= k <= a.len() && k < b.len() && #[trigger] a.take(k) == b.take(k) && (k == a.len() || a[k] < b[k])
}

/// No text comes before itself.
pub proof fn texts_do_not_precede_themselves(text: Seq<char>)
    ensures
        !text_before(text, text),
{
}

/// The year of the day has four digits.
pub open spec fn has_plain_year(day: int) -> bool {
    first_day(0) <= day < first_day(10_000)
}

proof fn lemma_padded_before(a: nat, b: nat, width: nat, k: int)
    requires
        a < room(width),
        b < room(width),
        0 <= k < width,
        padded(a, width).take(k) == padded(b, width).take(k),
        padded(a, width)[k] < padded(b, width)[k],
    ensures
        a < b,
    decreases width,
{
    let rest = (width - 1) as nat;
    lemma_padded_len(a / 10, rest);
    lemma_padded_len(b / 10, rest);
    let (x, y) = (padded(a / 10, rest), padded(b / 10, rest));
    if k < rest {
        assert(x.take(k) =~= padded(a, width).take(k));
        assert(y.take(k) =~= padded(b, width).take(k));
        lemma_padded_before(a / 10, b / 10, rest, k);
    } else {
        assert(x =~= padded(a, width).take(k));
        assert(y =~= padded(b, width).take(k));
        lemma_padded(a / 10, b / 10, rest);
        assert(digit(a % 10) as nat == '0' as nat + a % 10);
        assert(digit(b % 10) as nat == '0' as nat + b % 10);
    }
}

proof fn lemma_plain_year(day: int, year: int, month: int, of_month: int)
    requires
        is_calendar_date(day, year, month, of_month),
        has_plain_year(day),
    ensures
        0 <= year <= 9999,
{
    lemma_date_in_year(day, year, month, of_month);
    if year < 0 && year + 1 < 0 {
        lemma_first_day_grows(year + 1, 0);
    }
    if year > 10_000 {
        lemma_first_day_grows(10_000, year);
    }
}

proof fn lemma_ymd_parts(year: int, month: int, of_month: int)
    requires
        0 <= year <= 9999,
    ensures
        ymd_text(year, month, of_month).len() == 10,
        forall|i: int| 0 <= i < 4 ==> #[trigger] ymd_text(year, month, of_month)[i] == padded(year as nat, 4)[i],
        forall|i: int| 5 <= i < 7 ==> #[trigger] ymd_text(year, month, of_month)[i] == padded(month as nat, 2)[i - 5],
        forall|i: int| 8 <= i < 10 ==> #[trigger] ymd_text(year, month, of_month)[i] == padded(of_month as nat, 2)[i - 8],
        ymd_text(year, month, of_month)[4] == '-',
        ymd_text(year, month, of_month)[7] == '-',
        padded(year as nat, 4).len() == 4,
        padded(month as nat, 2).len() == 2,
        padded(of_month as nat, 2).len() == 2,
{
    lemma_padded_len(year as nat, 4);
    lemma_padded_len(month as nat, 2);
    lemma_padded_len(of_month as nat, 2);
}

proof fn lemma_ymd_before(ya: int, ma: int, da: int, yb: int, mb: int, db: int, k: int)
    requires
        0 <= ya <= 9999,
        0 <= yb <= 9999,
        1 <= ma <= 12,
        1 <= mb <= 12,
        1 <= da <= 31,
        1 <= db <= 31,
        0 <= k < 10,
        ymd_text(ya, ma, da).take(k) == ymd_text(yb, mb, db).take(k),
        ymd_text(ya, ma, da)[k] < ymd_text(yb, mb, db)[k],
    ensures
        ya < yb || (ya == yb && (ma < mb || (ma == mb && da < db))),
{
    let (ta, tb) = (ymd_text(ya, ma, da), ymd_text(yb, mb, db));
    lemma_ymd_parts(ya, ma, da);
    lemma_ymd_parts(yb, mb, db);
    assert forall|i: int| 0 <= i < k implies #[trigger] ta[i] == tb[i] by {
        assert(ta.take(k)[i] == tb.take(k)[i]);
    }
    reveal_with_fuel(room, 5);
    let (pa, pb) = (padded(ya as nat, 4), padded(yb as nat, 4));
    if k < 4 {
        assert(pa.take(k) =~= pb.take(k)) by {
            assert forall|i: int| 0 <= i < k implies pa[i] == pb[i] by {
                assert(ta[i] == tb[i]);
            }
        }
        assert(ta[k] == pa[k] && tb[k] == pb[k]);
        lemma_padded_before(ya as nat, yb as nat, 4, k);
    } else {
        assert(pa =~= pb) by {
            assert forall|i: int| 0 <= i < 4 implies pa[i] == pb[i] by {
                assert(ta[i] == tb[i]);
            }
        }
        lemma_padded(ya as nat, yb as nat, 4);
        let (qa, qb) = (padded(ma as nat, 2), padded(mb as nat, 2));
        if k < 7 {
            let j = k - 5;
            assert(j >= 0);
            assert(qa.take(j) =~= qb.take(j)) by {
                assert forall|i: int| 0 <= i < j implies qa[i] == qb[i] by {
                    assert(ta[i + 5] == tb[i + 5]);
                }
            }
            assert(ta[k] == qa[j] && tb[k] == qb[j]);
            lemma_padded_before(ma as nat, mb as nat, 2, j);
        } else {
            assert(qa =~= qb) by {
                assert forall|i: int| 0 <= i < 2 implies qa[i] == qb[i] by {
                    assert(ta[i + 5] == tb[i + 5]);
                }
            }
            lemma_padded(ma as nat, mb as nat, 2);
            let (ra, rb) = (padded(da as nat, 2), padded(db as nat, 2));
            let j = k - 8;
            assert(j >= 0);
            assert(ra.take(j) =~= rb.take(j)) by {
                assert forall|i: int| 0 <= i < j implies ra[i] == rb[i] by {
                    assert(ta[i + 8] == tb[i + 8]);
                }
            }
            assert(ta[k] == ra[j] && tb[k] == rb[j]);
            lemma_padded_before(da as nat, db as nat, 2, j);
        }
    }
}

/// As long as years have four digits, the texts of days sort as the days do.
pub proof fn date_texts_sort_by_day(a: int, ta: Seq<char>, b: int, tb: Seq<char>)
    requires
        is_date_text(a, ta),
        is_date_text(b, tb),
        has_plain_year(a),
        has_plain_year(b),
        text_before(ta, tb),
    ensures
        a < b,
{
    let (ya, ma, da) = choose|year: int, month: int, of_month: int| #[trigger]
        is_calendar_date(a, year, month, of_month) && ta == ymd_text(year, month, of_month);
    let (yb, mb, db) = choose|year: int, month: int, of_month: int| #[trigger]
        is_calendar_date(b, year, month, of_month) && tb == ymd_text(year, month, of_month);
    lemma_plain_year(a, ya, ma, da);
    lemma_plain_year(b, yb, mb, db);
    lemma_date_in_year(a, ya, ma, da);
    lemma_date_in_year(b, yb, mb, db);
    lemma_ymd_parts(ya, ma, da);
    lemma_ymd_parts(yb, mb, db);
    let k = choose|k: int|
        0 <= k <= ta.len() && k < tb.len() && #[trigger] ta.take(k) == tb.take(k) && (k == ta.len() || ta[k] < tb[k]);
    lemma_ymd_before(ya, ma, da, yb, mb, db, k);
    if ya < yb {
        if ya + 1 < yb {
            lemma_first_day_grows(ya + 1, yb);
        }
    } else if ma < mb {
        lemma_months_grow(ya, ma, mb);
    }
}

proof fn lemma_year_of(day: int, from: int) -> (year: int)
    requires
        first_day(from) <= day,
    ensures
        first_day(year) <= day < first_day(year + 1),
    decreases day - first_day(from),
{
    if day < first_day(from + 1) {
        from
    } else {
        lemma_first_day_grows(from, from + 1);
        lemma_year_of(day, from + 1)
    }
}

proof fn lemma_month_of(day: int, year: int, month: int) -> (of: int)
    requires
        1 <= month <= 12,
        first_day(year) <= day < month_start(year, month) + month_length(year, month),
    ensures
        1 <= of <= month,
        month_start(year, of) <= day < month_start(year, of) + month_length(year, of),
    decreases month,
{
    if month_start(year, month) <= day { month } else { lemma_month_of(day, year, month - 1) }
}

/// Every day that the calendar knows has a text.
pub proof fn every_day_has_a_text(day: int)
    requires
        valid_day(day),
    ensures
        exists|text: Seq<char>| is_date_text(day, text),
{
    day_range_is_whole_years();
    let year = lemma_year_of(day, -262143);
    reveal_with_fuel(month_start, 13);
    let month = lemma_month_of(day, year, 12);
    let of_month = day - month_start(year, month) + 1;
    assert(is_calendar_date(day, year, month, of_month));
    assert(is_date_text(day, ymd_text(year, month, of_month)));
}

/// Two days never have the same text.
pub proof fn days_have_their_own_text(a: int, b: int, text: Seq<char>)
    requires
        is_date_text(a, text),
        is_date_text(b, text),
    ensures
        a == b,
{
    let (ya, ma, da) = choose|year: int, month: int, of_month: int| #[trigger]
        is_calendar_date(a, year, month, of_month) && text == ymd_text(year, month, of_month);
    let (yb, mb, db) = choose|year: int, month: int, of_month: int| #[trigger]
        is_calendar_date(b, year, month, of_month) && text == ymd_text(year, month, of_month);
    lemma_padded_len(ma as nat, 2);
    lemma_padded_len(da as nat, 2);
    lemma_padded_len(mb as nat, 2);
    lemma_padded_len(db as nat, 2);
    let n = text.len() as int;
    assert(text.subrange(0, n - 6) =~= year_text(ya));
    assert(text.subrange(0, n - 6) =~= year_text(yb));
    assert(text.subrange(n - 5, n - 3) =~= padded(ma as nat, 2));
    assert(text.subrange(n - 5, n - 3) =~= padded(mb as nat, 2));
    assert(text.subrange(n - 2, n) =~= padded(da as nat, 2));
    assert(text.subrange(n - 2, n) =~= padded(db as nat, 2));
    lemma_year_text(ya, yb);
    reveal_with_fuel(room, 3);
    lemma_padded(ma as nat, mb as nat, 2);
    lemma_padded(da as nat, db as nat, 2);
}

/// `chrono`'s `Display` of a `NaiveDate`: the date as `%Y-%m-%d`.
#[verifier::external_body]
pub(crate) fn date_text(day: i32) -> (r: String)
    requires
        valid_day(day as int),
    ensures
        is_date_text(day as int, r@),
{
    chrono::NaiveDate::from_num_days_from_ce_opt(day).unwrap().to_string()
}

/// What `chrono` makes of a text when it parses a `NaiveDate` from it: the
/// number of the day, or nothing.
pub uninterp spec fn parsed_date(text: Seq<char>) -> Option<i32>;

/// `chrono`'s `FromStr` of `NaiveDate`.  It gives back the date that a date's
/// own text states; which other texts it takes is left to `chrono`.
#[verifier::external_body]
pub(crate) fn parse_date(text: &str) -> (r: Option<i32>)
    ensures
        r == parsed_date(text@),
        r matches Some(day) ==> valid_day(day as int),
        forall|day: i32| valid_day(day as int) && #[trigger] is_date_text(day as int, text@) ==> r == Some(day),
{
    match text.parse::<chrono::NaiveDate>() {
        Ok(date) => Some(chrono::Datelike::num_days_from_ce(&date)),
        Err(_) => None,
    }
}

/// The fraction of a second, in as many groups of three digits as it takes.
pub open spec fn fraction_text(nanos: nat) -> Seq<char> {
    if nanos == 0 {
        Seq::empty()
    } else if nanos % 1_000_000 == 0 {
        seq!['.'] + padded(nanos / 1_000_000, 3)
    } else if nanos % 1_000 == 0 {
        seq!['.'] + padded(nanos / 1_000, 6)
    } else {
        seq!['.'] + padded(nanos, 9)
    }
}

/// The time of day, as in `16:39:57.5`; a leap second counts 60.
pub open spec fn time_text(second_of_day: nat, nanos: nat) -> Seq<char> {
    let leap: nat = if nanos >= 1_000_000_000 { 1 } else { 0 };
    let rest: nat = if nanos >= 1_000_000_000 { (nanos - 1_000_000_000) as nat } else { nanos };
    padded(second_of_day / 3600, 2) + seq![':'] + padded(second_of_day / 60 % 60, 2) + seq![':']
        + padded(second_of_day % 60 + leap, 2) + fraction_text(rest)
}

/// Date, time and zone, as in `1996-12-19T16:39:57+00:00`.
pub open spec fn moment_text(instant: Instant, date: Seq<char>) -> Seq<char> {
    date + seq!['T'] + time_text(
        (instant.secs as int % DAY_SECONDS as int) as nat,
        instant.nanos as nat,
    ) + seq!['+', '0', '0', ':', '0', '0']
}

/// The text is the moment in RFC 3339.
pub open spec fn is_instant_text(instant: Instant, text: Seq<char>) -> bool {
    exists|date: Seq<char>| #[trigger]
        is_date_text(day_of_second(instant.secs as int), date) && text == moment_text(instant, date)
}

proof fn lemma_padded_plain(n: nat, width: nat)
    ensures
        forall|i: int| 0 <= i < padded(n, width).len() ==> #[trigger] padded(n, width)[i] != 'T',
    decreases width,
{
    if width > 0 {
        let rest = (width - 1) as nat;
        lemma_padded_plain(n / 10, rest);
        assert(digit(n % 10) as nat == '0' as nat + n % 10);
        assert forall|i: int| 0 <= i < padded(n, width).len() implies #[trigger] padded(n, width)[i] != 'T' by {
            if i < padded(n / 10, rest).len() {
                assert(padded(n, width)[i] == padded(n / 10, rest)[i]);
            }
        }
    }
}

proof fn lemma_digits_plain(n: nat)
    ensures
        forall|i: int| 0 <= i < digits(n).len() ==> #[trigger] digits(n)[i] != 'T',
    decreases n,
{
    assert(digit(n % 10) as nat == '0' as nat + n % 10);
    if n >= 10 {
        lemma_digits_plain(n / 10);
        assert forall|i: int| 0 <= i < digits(n).len() implies #[trigger] digits(n)[i] != 'T' by {
            if i < digits(n / 10).len() {
                assert(digits(n)[i] == digits(n / 10)[i]);
            }
        }
    }
}

proof fn lemma_date_text_plain(day: int, text: Seq<char>)
    requires
        is_date_text(day, text),
    ensures
        forall|i: int| 0 <= i < text.len() ==> #[trigger] text[i] != 'T',
{
    let (y, m, d) = choose|year: int, month: int, of_month: int| #[trigger]
        is_calendar_date(day, year, month, of_month) && text == ymd_text(year, month, of_month);
    lemma_padded_plain(y as nat, 4);
    lemma_padded_plain((-y) as nat, 4);
    lemma_digits_plain(y as nat);
    lemma_digits_plain((-y) as nat);
    lemma_padded_plain(m as nat, 2);
    lemma_padded_plain(d as nat, 2);
}

proof fn lemma_fraction_text(a: nat, b: nat)
    requires
        a < 1_000_000_000,
        b < 1_000_000_000,
        fraction_text(a) == fraction_text(b),
    ensures
        a == b,
{
    let (ta, tb) = (fraction_text(a), fraction_text(b));
    lemma_padded_len(a / 1_000_000, 3);
    lemma_padded_len(b / 1_000_000, 3);
    lemma_padded_len(a / 1_000, 6);
    lemma_padded_len(b / 1_000, 6);
    lemma_padded_len(a, 9);
    lemma_padded_len(b, 9);
    reveal_with_fuel(room, 10);
    assert(ta.len() == tb.len());
    if a != 0 {
        if a % 1_000_000 == 0 {
            assert(ta.drop_first() =~= padded(a / 1_000_000, 3));
            assert(tb.drop_first() =~= padded(b / 1_000_000, 3));
            lemma_padded(a / 1_000_000, b / 1_000_000, 3);
        } else if a % 1_000 == 0 {
            assert(ta.drop_first() =~= padded(a / 1_000, 6));
            assert(tb.drop_first() =~= padded(b / 1_000, 6));
            lemma_padded(a / 1_000, b / 1_000, 6);
        } else {
            assert(ta.drop_first() =~= padded(a, 9));
            assert(tb.drop_first() =~= padded(b, 9));
            lemma_padded(a, b, 9);
        }
    }
}

proof fn lemma_time_text(s: nat, n: nat, t: nat, m: nat)
    requires
        s < 86_400,
        t < 86_400,
        n < 1_000_000_000 || (n < 2_000_000_000 && s % 60 == 59),
        m < 1_000_000_000 || (m < 2_000_000_000 && t % 60 == 59),
        time_text(s, n) == time_text(t, m),
    ensures
        s == t,
        n == m,
{
    let (x, y) = (time_text(s, n), time_text(t, m));
    let (i, j): (nat, nat) = (if n >= 1_000_000_000 { 1 } else { 0 }, if m >= 1_000_000_000 { 1 } else { 0 });
    let p: nat = if n >= 1_000_000_000 { (n - 1_000_000_000) as nat } else { n };
    let q: nat = if m >= 1_000_000_000 { (m - 1_000_000_000) as nat } else { m };
    lemma_padded_len(s / 3600, 2);
    lemma_padded_len(t / 3600, 2);
    lemma_padded_len(s / 60 % 60, 2);
    lemma_padded_len(t / 60 % 60, 2);
    lemma_padded_len(s % 60 + i, 2);
    lemma_padded_len(t % 60 + j, 2);
    assert(x.subrange(0, 2) =~= padded(s / 3600, 2));
    assert(y.subrange(0, 2) =~= padded(t / 3600, 2));
    assert(x.subrange(3, 5) =~= padded(s / 60 % 60, 2));
    assert(y.subrange(3, 5) =~= padded(t / 60 % 60, 2));
    assert(x.subrange(6, 8) =~= padded(s % 60 + i, 2));
    assert(y.subrange(6, 8) =~= padded(t % 60 + j, 2));
    assert(x.skip(8) =~= fraction_text(p));
    assert(y.skip(8) =~= fraction_text(q));
    reveal_with_fuel(room, 3);
    lemma_padded(s / 3600, t / 3600, 2);
    lemma_padded(s / 60 % 60, t / 60 % 60, 2);
    lemma_padded(s % 60 + i, t % 60 + j, 2);
    lemma_fraction_text(p, q);
}

proof fn lemma_parted_at_t(da: Seq<char>, x: Seq<char>, db: Seq<char>, y: Seq<char>, zone: Seq<char>)
    requires
        forall|i: int| 0 <= i < da.len() ==> #[trigger] da[i] != 'T',
        forall|i: int| 0 <= i < db.len() ==> #[trigger] db[i] != 'T',
        da + seq!['T'] + x + zone == db + seq!['T'] + y + zone,
    ensures
        da == db,
        x == y,
{
    let left = da + seq!['T'] + x + zone;
    let right = db + seq!['T'] + y + zone;
    let (k, l) = (da.len() as int, db.len() as int);
    assert(left[k] == 'T' && right[l] == 'T');
    if k < l {
        assert(right[k] == db[k]);
    }
    if l < k {
        assert(left[l] == da[l]);
    }
    assert(da =~= left.take(k) && db =~= right.take(k));
    let n = left.len() as int;
    assert(x =~= left.subrange(k + 1, n - zone.len()));
    assert(y =~= right.subrange(k + 1, n - zone.len()));
}

proof fn lemma_same_day(a: int, ta: Seq<char>, b: int, tb: Seq<char>, x: Seq<char>, y: Seq<char>, zone: Seq<char>)
    requires
        is_date_text(a, ta),
        is_date_text(b, tb),
        ta + seq!['T'] + x + zone == tb + seq!['T'] + y + zone,
    ensures
        a == b,
        x == y,
{
    lemma_date_text_plain(a, ta);
    lemma_date_text_plain(b, tb);
    lemma_parted_at_t(ta, x, tb, y, zone);
    days_have_their_own_text(a, b, ta);
}

proof fn lemma_second_of_day(a: int, b: int)
    ensures
        0 <= a % 86_400 < 86_400,
        a % 86_400 % 60 == a % 60,
        a / 86_400 == b / 86_400 && a % 86_400 == b % 86_400 ==> a == b,
{
    let (q, r) = (a / 86_400, a % 86_400);
    lemma_fundamental_div_mod(a, 86_400);
    lemma_fundamental_div_mod(b, 86_400);
    lemma_mod_multiples_vanish(1440 * q, r, 60);
    assert(60 * (1440 * q) + r == a);
}

proof fn lemma_same_second(a: Instant, b: Instant, s: nat, t: nat)
    requires
        a.valid(),
        b.valid(),
        day_of_second(a.secs as int) == day_of_second(b.secs as int),
        s == a.secs as int % DAY_SECONDS as int,
        t == b.secs as int % DAY_SECONDS as int,
        time_text(s, a.nanos as nat) == time_text(t, b.nanos as nat),
    ensures
        a == b,
{
    assert(s == t && a.nanos == b.nanos) by {
        lemma_second_of_day(a.secs as int, 0);
        lemma_second_of_day(b.secs as int, 0);
        lemma_time_text(s, a.nanos as nat, t, b.nanos as nat);
    }
    lemma_second_of_day(a.secs as int, b.secs as int);
}

/// Two moments never have the same text.
pub proof fn moments_have_their_own_text(a: Instant, b: Instant, text: Seq<char>)
    requires
        a.valid(),
        b.valid(),
        is_instant_text(a, text),
        is_instant_text(b, text),
    ensures
        a == b,
{
    let (da, db) = (day_of_second(a.secs as int), day_of_second(b.secs as int));
    let ta = choose|date: Seq<char>| #[trigger] is_date_text(da, date) && text == moment_text(a, date);
    let tb = choose|date: Seq<char>| #[trigger] is_date_text(db, date) && text == moment_text(b, date);
    let s = (a.secs as int % DAY_SECONDS as int) as nat;
    let t = (b.secs as int % DAY_SECONDS as int) as nat;
    lemma_same_day(
        da,
        ta,
        db,
        tb,
        time_text(s, a.nanos as nat),
        time_text(t, b.nanos as nat),
        seq!['+', '0', '0', ':', '0', '0'],
    );
    lemma_same_second(a, b, s, t);
}

/// `chrono`'s `DateTime::to_rfc3339` of a `DateTime<Utc>`.
#[verifier::external_body]
pub(crate) fn instant_text(instant: Instant) -> (r: String)
    requires
        instant.valid(),
    ensures
        is_instant_text(instant, r@),
{
    chrono::DateTime::from_timestamp(instant.secs, instant.nanos).unwrap().to_rfc3339()
}

/// What `chrono` makes of a text when it parses a `DateTime<Utc>` from it.
pub uninterp spec fn parsed_instant(text: Seq<char>) -> Option<Instant>;

/// `chrono`'s `FromStr` of `DateTime<Utc>`.  It gives back the moment that a
/// moment's own text states; what it makes of other texts is left to `chrono`.
#[verifier::external_body]
pub(crate) fn parse_instant(text: &str) -> (r: Option<Instant>)
    ensures
        r == parsed_instant(text@),
        r matches Some(instant) ==> instant.valid(),
        forall|instant: Instant| instant.valid() && #[trigger] is_instant_text(instant, text@) ==> r == Some(instant),
{
    match text.parse::<chrono::DateTime<chrono::Utc>>() {
        Ok(t) => Some(Instant { secs: t.timestamp(), nanos: t.timestamp_subsec_nanos() }),
        Err(_) => None,
    }
}

} // verus!
