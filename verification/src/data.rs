//! Price series: alignment, merging and weekly resampling.
use std::collections::{BTreeMap, HashMap};
use vstd::prelude::*;
use vstd::std_specs::cmp::OrdSpec;
use vstd::std_specs::iter::IteratorSpec;

use crate::calendar::{is_iso_week, iso_week, iso_weeks_follow_time, week_index, Date};
use crate::number::Double;
use crate::tickers::TickerMap;

verus! {

/// The (date, adjusted close) pairs of one ticker.
pub type PriceSeries = Vec<(Date, Double)>;

/// The price series of each ticker.
pub type PriceMap = TickerMap<PriceSeries>;

// ─── Reading a series ────────────────────────────────────────────────────────

/// The price that a series gives for a date: the last one, where the date
/// occurs more than once.
pub open spec fn price_on(series: Seq<(Date, Double)>, date: Date) -> Option<Double>
    decreases series.len(),
{
    if series.len() == 0 {
        None
    } else if series.last().0 == date {
        Some(series.last().1)
    } else {
        price_on(series.drop_last(), date)
    }
}

/// The dates of the series go up, and none occurs twice.
pub open spec fn increasing_dates(series: Seq<(Date, Double)>) -> bool {
    forall|i: int, j: int|
        0 <= i < j < series.len() ==> (#[trigger] series[i]).0.days < (#[trigger] series[j]).0.days
}

pub proof fn lemma_price_on(series: Seq<(Date, Double)>, date: Date)
    ensures
        price_on(series, date) is Some <==> exists|i: int| 0 <= i < series.len() && (#[trigger] series[i]).0 == date,
        price_on(series, date) matches Some(p) ==> exists|i: int|
            0 <= i < series.len() && #[trigger] series[i] == (date, p),
    decreases series.len(),
{
    if series.len() > 0 {
        let shorter = series.drop_last();
        lemma_price_on(shorter, date);
        if series.last().0 == date {
            assert(series[series.len() - 1] == (date, series.last().1));
        } else {
            if price_on(shorter, date) is Some {
                let p = price_on(shorter, date)->0;
                let i = choose|i: int| 0 <= i < shorter.len() && #[trigger] shorter[i] == (date, p);
                assert(series[i] == (date, p));
            }
            if exists|i: int| 0 <= i < series.len() && (#[trigger] series[i]).0 == date {
                let i = choose|i: int| 0 <= i < series.len() && (#[trigger] series[i]).0 == date;
                assert(shorter[i].0 == date);
            }
        }
    }
}

/// In a series whose dates go up every entry gives the price of its date.
pub proof fn lemma_price_on_increasing(series: Seq<(Date, Double)>, i: int)
    requires
        increasing_dates(series),
        0 <= i < series.len(),
    ensures
        price_on(series, series[i].0) == Some(series[i].1),
    decreases series.len(),
{
    if i < series.len() - 1 {
        assert(series[i].0.days < series[series.len() - 1].0.days);
        let shorter = series.drop_last();
        assert(increasing_dates(shorter)) by {
            assert forall|a: int, b: int| 0 <= a < b < shorter.len() implies (#[trigger] shorter[a]).0.days < (
            #[trigger] shorter[b]).0.days by {
                assert(series[a].0.days < series[b].0.days);
            }
        }
        lemma_price_on_increasing(shorter, i);
    }
}

/// Reads a series into a map from days to prices, later entries over earlier.
fn price_index(series: &PriceSeries) -> (m: HashMap<i32, Double>)
    ensures
        forall|date: Date|
            #![trigger price_on(series@, date)]
            (if m@.contains_key(date.days) { Some(m@[date.days]) } else { None }) == price_on(series@, date),
{
    broadcast use vstd::std_specs::hash::group_hash_axioms;

    let mut m: HashMap<i32, Double> = HashMap::new();
    let mut i: usize = 0;
    while i < series.len()
        invariant
            i <= series@.len(),
            forall|date: Date|
                #![trigger price_on(series@.take(i as int), date)]
                (if m@.contains_key(date.days) { Some(m@[date.days]) } else { None }) == price_on(
                    series@.take(i as int),
                    date,
                ),
        decreases series.len() - i,
    {
        let (date, price) = series[i];
        let ghost before = m@;
        m.insert(date.days, price);
        proof {
            let next = series@.take(i + 1);
            assert(next.drop_last() =~= series@.take(i as int));
            assert forall|d: Date| (if m@.contains_key(d.days) { Some(m@[d.days]) } else { None }) == #[trigger]
                price_on(next, d) by {
                let _ = price_on(series@.take(i as int), d);
            }
        }
        i += 1;
    }
    assert(series@.take(i as int) =~= series@);
    m
}

/// The prices of a series.
pub fn prices_only(series: &PriceSeries) -> (r: Vec<Double>)
    ensures
        r@ == series@.map_values(|p: (Date, Double)| p.1),
{
    let mut r: Vec<Double> = Vec::new();
    let mut i: usize = 0;
    while i < series.len()
        invariant
            i <= series@.len(),
            r@ == series@.take(i as int).map_values(|p: (Date, Double)| p.1),
        decreases series.len() - i,
    {
        r.push(series[i].1);
        i += 1;
        assert(r@ =~= series@.take(i as int).map_values(|p: (Date, Double)| p.1));
    }
    assert(series@.take(i as int) =~= series@);
    r
}

// ─── Alignment ───────────────────────────────────────────────────────────────

/// The entries of `a` whose date `b` has a price for.
pub open spec fn shared(a: Seq<(Date, Double)>, b: Seq<(Date, Double)>) -> Seq<(Date, Double)> {
    a.filter(|p: (Date, Double)| price_on(b, p.0) is Some)
}

/// The same dates with the prices of `b`.
pub open spec fn counterpart(a: Seq<(Date, Double)>, b: Seq<(Date, Double)>) -> Seq<(Date, Double)> {
    shared(a, b).map_values(|p: (Date, Double)| (p.0, price_on(b, p.0)->0))
}

/// What alignment keeps stands in the first series, and the second has a price
/// for its date.
pub proof fn lemma_shared(a: Seq<(Date, Double)>, b: Seq<(Date, Double)>, i: int) -> (k: int)
    requires
        0 <= i < shared(a, b).len(),
    ensures
        i <= k < a.len(),
        a[k] == shared(a, b)[i],
        price_on(b, a[k].0) is Some,
    decreases a.len(),
{
    reveal(Seq::filter);
    if i < shared(a.drop_last(), b).len() { lemma_shared(a.drop_last(), b, i) } else { a.len() - 1 }
}

/// The two aligned series have the same dates, in the order of the first; of
/// each date they show the price that the series has.
pub proof fn alignment_joins_dates(a: Seq<(Date, Double)>, b: Seq<(Date, Double)>)
    ensures
        shared(a, b).len() == counterpart(a, b).len(),
        forall|i: int|
            0 <= i < shared(a, b).len() ==> counterpart(a, b)[i] == (
                (#[trigger] shared(a, b)[i]).0,
                price_on(b, shared(a, b)[i].0)->0,
            ) && a.contains(shared(a, b)[i]) && price_on(b, shared(a, b)[i].0) is Some,
        forall|k: int|
            0 <= k < a.len() && price_on(b, (#[trigger] a[k]).0) is Some ==> shared(a, b).contains(a[k]),
{
    broadcast use vstd::seq_lib::group_filter_ensures;

    assert forall|i: int| 0 <= i < shared(a, b).len() implies a.contains(#[trigger] shared(a, b)[i]) && price_on(
        b,
        shared(a, b)[i].0,
    ) is Some by {
        let k = lemma_shared(a, b, i);
    }
}

/// Aligning a series whose dates go up leaves them going up.
pub proof fn alignment_keeps_order(a: Seq<(Date, Double)>, b: Seq<(Date, Double)>)
    requires
        increasing_dates(a),
    ensures
        increasing_dates(shared(a, b)),
        increasing_dates(counterpart(a, b)),
    decreases a.len(),
{
    reveal(Seq::filter);
    let left = shared(a, b);
    if a.len() > 0 {
        let shorter = a.drop_last();
        assert(increasing_dates(shorter)) by {
            assert forall|x: int, y: int| 0 <= x < y < shorter.len() implies (#[trigger] shorter[x]).0.days < (
            #[trigger] shorter[y]).0.days by {
                assert(a[x].0.days < a[y].0.days);
            }
        }
        alignment_keeps_order(shorter, b);
        let kept = shared(shorter, b);
        assert forall|x: int, y: int| 0 <= x < y < left.len() implies (#[trigger] left[x]).0.days < (
        #[trigger] left[y]).0.days by {
            assert(left[x] == kept[x]);
            if y < kept.len() {
                assert(left[y] == kept[y]);
            } else {
                let k = lemma_shared(shorter, b, x);
                assert(a[k].0.days < a[a.len() - 1].0.days);
            }
        }
    }
    let right = counterpart(a, b);
    assert forall|x: int, y: int| 0 <= x < y < right.len() implies (#[trigger] right[x]).0.days < (
    #[trigger] right[y]).0.days by {
        assert(left[x].0.days < left[y].0.days);
    }
}

/// Aligning what is aligned changes nothing.
pub proof fn aligning_twice_changes_nothing(a: Seq<(Date, Double)>, b: Seq<(Date, Double)>)
    requires
        increasing_dates(a),
    ensures
        shared(shared(a, b), counterpart(a, b)) == shared(a, b),
        counterpart(shared(a, b), counterpart(a, b)) == counterpart(a, b),
{
    let (left, right) = (shared(a, b), counterpart(a, b));
    alignment_keeps_order(a, b);
    assert forall|i: int| 0 <= i < left.len() implies price_on(right, (#[trigger] left[i]).0) == Some(right[i].1) by {
        lemma_price_on_increasing(right, i);
    }
    lemma_all_shared(left, right);
    assert(counterpart(left, right) =~= right);
}

/// A series aligned with itself stays as it is, if its dates go up.
pub proof fn alignment_with_itself_changes_nothing(a: Seq<(Date, Double)>)
    requires
        increasing_dates(a),
    ensures
        shared(a, a) == a,
        counterpart(a, a) == a,
{
    assert forall|i: int| 0 <= i < a.len() implies price_on(a, (#[trigger] a[i]).0) == Some(a[i].1) by {
        lemma_price_on_increasing(a, i);
    }
    lemma_all_shared(a, a);
    assert(counterpart(a, a) =~= a);
}

proof fn lemma_all_shared(a: Seq<(Date, Double)>, b: Seq<(Date, Double)>)
    requires
        forall|i: int| 0 <= i < a.len() ==> price_on(b, (#[trigger] a[i]).0) is Some,
    ensures
        shared(a, b) == a,
    decreases a.len(),
{
    reveal(Seq::filter);
    if a.len() > 0 {
        let shorter = a.drop_last();
        assert forall|i: int| 0 <= i < shorter.len() implies price_on(b, (#[trigger] shorter[i]).0) is Some by {
            assert(a[i] == shorter[i]);
        }
        lemma_all_shared(shorter, b);
        assert(a[a.len() - 1] == a.last());
        assert(shorter.push(a.last()) =~= a);
    }
    assert(shared(a, b) =~= a);
}

/// Aligns two price series to the dates that both have (inner join on dates,
/// in the order of `a`).
pub fn align(a: &PriceSeries, b: &PriceSeries) -> (r: (PriceSeries, PriceSeries))
    ensures
        r.0@ == shared(a@, b@),
        r.1@ == counterpart(a@, b@),
{
    broadcast use vstd::std_specs::hash::group_hash_axioms;

    let m = price_index(b);
    let mut left: PriceSeries = Vec::new();
    let mut right: PriceSeries = Vec::new();
    let mut i: usize = 0;
    proof {
        reveal(Seq::filter);
        assert(left@ =~= shared(a@.take(0), b@));
        assert(right@ =~= counterpart(a@.take(0), b@));
    }
    while i < a.len()
        invariant
            i <= a@.len(),
            forall|date: Date|
                #![trigger price_on(b@, date)]
                (if m@.contains_key(date.days) { Some(m@[date.days]) } else { None }) == price_on(b@, date),
            left@ == shared(a@.take(i as int), b@),
            right@ == counterpart(a@.take(i as int), b@),
        decreases a.len() - i,
    {
        let (date, price) = a[i];
        proof {
            reveal(Seq::filter);
            assert(a@.take(i + 1).drop_last() =~= a@.take(i as int));
            let _ = price_on(b@, date);
        }
        if let Some(other) = m.get(&date.days) {
            left.push((date, price));
            right.push((date, *other));
        }
        i += 1;
        assert(left@ =~= shared(a@.take(i as int), b@));
        assert(right@ =~= counterpart(a@.take(i as int), b@));
    }
    assert(a@.take(i as int) =~= a@);
    (left, right)
}

// ─── Merging ─────────────────────────────────────────────────────────────────

/// `out` is `series` in the order of its dates, each date once, with the last
/// price that `series` gives for it.
pub open spec fn is_chronology(series: Seq<(Date, Double)>, out: Seq<(Date, Double)>) -> bool {
    &&& increasing_dates(out)
    &&& forall|date: Date| #[trigger] price_on(out, date) == price_on(series, date)
}

/// A series in the order of its dates (see [`is_chronology`]).
pub open spec fn chronology(series: Seq<(Date, Double)>) -> Seq<(Date, Double)> {
    choose|out: Seq<(Date, Double)>| is_chronology(series, out)
}

/// Series whose dates go up are told apart by the prices they give.
pub proof fn lemma_increasing_unique(a: Seq<(Date, Double)>, b: Seq<(Date, Double)>)
    requires
        increasing_dates(a),
        increasing_dates(b),
        forall|date: Date| #[trigger] price_on(a, date) == price_on(b, date),
    ensures
        a == b,
    decreases a.len(),
{
    if a.len() == 0 {
        if b.len() > 0 {
            lemma_price_on_increasing(b, 0);
            let _ = price_on(a, b[0].0);
        }
        assert(a =~= b);
    } else {
        let last = a.last();
        lemma_price_on_increasing(a, a.len() - 1);
        lemma_price_on(b, last.0);
        let i = choose|i: int| 0 <= i < b.len() && #[trigger] b[i] == (last.0, last.1);
        let k = b.len() - 1;
        if i < k {
            assert(b[i].0.days < b[k].0.days);
            lemma_price_on_increasing(b, k);
            let _ = price_on(a, b[k].0);
            lemma_price_on(a, b[k].0);
            let j = choose|j: int| 0 <= j < a.len() && (#[trigger] a[j]).0 == b[k].0;
            if j < a.len() - 1 {
                assert(a[j].0.days < a[a.len() - 1].0.days);
            }
        }
        assert(b.last() == last);
        let (sa, sb) = (a.drop_last(), b.drop_last());
        assert(increasing_dates(sa)) by {
            assert forall|x: int, y: int| 0 <= x < y < sa.len() implies (#[trigger] sa[x]).0.days < (
            #[trigger] sa[y]).0.days by {
                assert(a[x].0.days < a[y].0.days);
            }
        }
        assert(increasing_dates(sb)) by {
            assert forall|x: int, y: int| 0 <= x < y < sb.len() implies (#[trigger] sb[x]).0.days < (
            #[trigger] sb[y]).0.days by {
                assert(b[x].0.days < b[y].0.days);
            }
        }
        assert forall|date: Date| #[trigger] price_on(sa, date) == price_on(sb, date) by {
            if date == last.0 {
                lemma_price_on(sa, date);
                lemma_price_on(sb, date);
                if price_on(sa, date) is Some {
                    let j = choose|j: int| 0 <= j < sa.len() && (#[trigger] sa[j]).0 == date;
                    assert(a[j].0.days < a[a.len() - 1].0.days);
                }
                if price_on(sb, date) is Some {
                    let j = choose|j: int| 0 <= j < sb.len() && (#[trigger] sb[j]).0 == date;
                    assert(b[j].0.days < b[b.len() - 1].0.days);
                }
            } else {
                let _ = price_on(a, date);
            }
        }
        lemma_increasing_unique(sa, sb);
        assert(a =~= sa.push(last));
        assert(b =~= sb.push(last));
    }
}

pub proof fn lemma_is_chronology(series: Seq<(Date, Double)>, out: Seq<(Date, Double)>)
    requires
        is_chronology(series, out),
    ensures
        out == chronology(series),
{
    let other = chronology(series);
    assert(is_chronology(series, other));
    assert forall|date: Date| #[trigger] price_on(out, date) == price_on(other, date) by {
        let _ = price_on(other, date);
    }
    lemma_increasing_unique(out, other);
}

/// A series whose dates go up is its own chronology.
pub proof fn ordered_series_stay(series: Seq<(Date, Double)>)
    requires
        increasing_dates(series),
    ensures
        chronology(series) == series,
{
    lemma_is_chronology(series, series);
}

proof fn lemma_date_place(c: Seq<(Date, Double)>, day: int) -> (k: int)
    requires
        increasing_dates(c),
    ensures
        0 <= k <= c.len(),
        forall|i: int| 0 <= i < k ==> (#[trigger] c[i]).0.days < day,
        forall|i: int| k <= i < c.len() ==> day <= (#[trigger] c[i]).0.days,
    decreases c.len(),
{
    if c.len() == 0 || c.last().0.days < day {
        let n = c.len() as int;
        assert forall|i: int| 0 <= i < n implies (#[trigger] c[i]).0.days < day by {
            if i < n - 1 {
                assert(c[i].0.days < c[n - 1].0.days);
            }
        }
        n
    } else {
        let shorter = c.drop_last();
        assert(increasing_dates(shorter)) by {
            assert forall|a: int, b: int| 0 <= a < b < shorter.len() implies (#[trigger] shorter[a]).0.days < (
            #[trigger] shorter[b]).0.days by {
                assert(c[a].0.days < c[b].0.days);
            }
        }
        let k = lemma_date_place(shorter, day);
        assert forall|i: int| 0 <= i < k implies (#[trigger] c[i]).0.days < day by {
            assert(shorter[i] == c[i]);
        }
        assert forall|i: int| k <= i < c.len() implies day <= (#[trigger] c[i]).0.days by {
            if i < shorter.len() {
                assert(shorter[i] == c[i]);
            }
        }
        k
    }
}

proof fn lemma_build_chronology(series: Seq<(Date, Double)>) -> (out: Seq<(Date, Double)>)
    ensures
        is_chronology(series, out),
    decreases series.len(),
{
    if series.len() == 0 {
        series
    } else {
        let c = lemma_build_chronology(series.drop_last());
        let p = series.last();
        let k = lemma_date_place(c, p.0.days as int);
        let known = k < c.len() && c[k].0 == p.0;
        let out = if known { c.update(k, p) } else { c.insert(k, p) };
        assert(out[k] == p);
        assert forall|j: int| 0 <= j < out.len() && j != k implies #[trigger] out[j] == c[if known || j < k { j } else { j - 1 }] by {}
        assert(increasing_dates(out)) by {
            assert forall|a: int, b: int| 0 <= a < b < out.len() implies (#[trigger] out[a]).0.days < (
            #[trigger] out[b]).0.days by {
                let x = if known || a < k { a } else { a - 1 };
                let y = if known || b < k { b } else { b - 1 };
                if a != k {
                    assert(out[a] == c[x]);
                }
                if b != k {
                    assert(out[b] == c[y]);
                }
                if a != k && b != k {
                    assert(c[x].0.days < c[y].0.days);
                } else if a == k && known {
                    assert(c[k].0.days < c[y].0.days);
                }
            }
        }
        assert forall|date: Date| #[trigger] price_on(out, date) == price_on(series, date) by {
            lemma_price_on_increasing(out, k);
            let _ = price_on(c, date);
            lemma_price_on(c, date);
            lemma_price_on(out, date);
            if date != p.0 {
                if price_on(c, date) is Some {
                    let v = price_on(c, date)->0;
                    let j = choose|j: int| 0 <= j < c.len() && #[trigger] c[j] == (date, v);
                    let m = if known || j < k { j } else { j + 1 };
                    assert(out[m] == c[j]);
                    lemma_price_on_increasing(out, m);
                } else if price_on(out, date) is Some {
                    let j = choose|j: int| 0 <= j < out.len() && (#[trigger] out[j]).0 == date;
                    assert(j != k);
                    assert(out[j] == c[if known || j < k { j } else { j - 1 }]);
                }
            }
        }
        out
    }
}

/// Every series has a chronology.
pub proof fn lemma_chronology(series: Seq<(Date, Double)>)
    ensures
        is_chronology(series, chronology(series)),
{
    let out = lemma_build_chronology(series);
}

/// The entries of a chronology are entries of the series.
pub proof fn lemma_chronology_valid(series: Seq<(Date, Double)>)
    requires
        valid_dates(series),
    ensures
        valid_dates(chronology(series)),
{
    let out = chronology(series);
    lemma_chronology(series);
    assert forall|k: int| 0 <= k < out.len() implies (#[trigger] out[k]).0.valid() by {
        lemma_price_on_increasing(out, k);
        let _ = price_on(out, out[k].0);
        lemma_price_on(series, out[k].0);
        let i = choose|i: int| 0 <= i < series.len() && (#[trigger] series[i]).0 == out[k].0;
        assert(series[i].0.valid());
    }
}

/// Days, and pairs of a year and a week, are ordered as a `BTreeMap` asks.
proof fn lemma_keys_ordered()
    ensures
        vstd::laws_cmp::obeys_cmp::<i32>(),
        vstd::laws_cmp::obeys_cmp::<(i32, u32)>(),
{
    broadcast use vstd::laws_cmp::group_laws_cmp;

}

/// What the map from days to prices says of a date.
spec fn noted(m: Map<i32, Double>, date: Date) -> Option<Double> {
    if m.contains_key(date.days) { Some(m[date.days]) } else { None }
}

proof fn lemma_price_on_append(a: Seq<(Date, Double)>, b: Seq<(Date, Double)>, date: Date)
    ensures
        price_on(a + b, date) == match price_on(b, date) {
            Some(p) => Some(p),
            None => price_on(a, date),
        },
    decreases b.len(),
{
    if b.len() == 0 {
        assert(a + b =~= a);
    } else {
        assert((a + b).drop_last() =~= a + b.drop_last());
        lemma_price_on_append(a, b.drop_last(), date);
    }
}

fn note_prices(m: &mut BTreeMap<i32, Double>, series: &PriceSeries)
    ensures
        forall|date: Date| #[trigger]
            noted(final(m)@, date) == match price_on(series@, date) {
                Some(p) => Some(p),
                None => noted(old(m)@, date),
            },
{
    broadcast use vstd::std_specs::btree::group_btree_axioms;

    proof {
        lemma_keys_ordered();
    }
    let mut i: usize = 0;
    while i < series.len()
        invariant
            i <= series@.len(),
            forall|date: Date| #[trigger]
                noted(m@, date) == match price_on(series@.take(i as int), date) {
                    Some(p) => Some(p),
                    None => noted(old(m)@, date),
                },
        decreases series.len() - i,
    {
        let (date, price) = series[i];
        let ghost before = m@;
        m.insert(date.days, price);
        proof {
            let next = series@.take(i + 1);
            assert(next.drop_last() =~= series@.take(i as int));
            assert forall|d: Date| #[trigger]
                noted(m@, d) == match price_on(next, d) {
                    Some(p) => Some(p),
                    None => noted(old(m)@, d),
                } by {
                let _ = noted(before, d);
            }
        }
        i += 1;
    }
    assert(series@.take(i as int) =~= series@);
}

/// Writes the map out in the order of its days.
fn in_order(m: &BTreeMap<i32, Double>) -> (out: PriceSeries)
    ensures
        increasing_dates(out@),
        forall|date: Date| #[trigger] price_on(out@, date) == noted(m@, date),
{
    broadcast use {vstd::std_specs::btree::group_btree_axioms, vstd::laws_cmp::group_laws_cmp};

    let mut out: PriceSeries = Vec::new();
    let entries = m.iter();
    let ghost items = entries.remaining();
    for kv in it: entries
        invariant
            it.seq() == items,
            out@.len() == it.index(),
            forall|i: int| 0 <= i < out@.len() ==> (#[trigger] out@[i]) == (Date { days: *items[i].0 }, *items[i].1),
    {
        let (day, price) = kv;
        out.push((Date { days: *day }, *price));
    }
    proof {
        let days = items.map_values(|kv: (&i32, &Double)| *kv.0);
        assert(vstd::std_specs::btree::increasing_seq(days));
        assert(increasing_dates(out@)) by {
            assert forall|i: int, j: int| 0 <= i < j < out@.len() implies (#[trigger] out@[i]).0.days < (
            #[trigger] out@[j]).0.days by {
                assert(days[i].cmp_spec(&days[j]) is Less);
                assert(days[i] < days[j]);
            }
        }
        assert forall|date: Date| #[trigger] price_on(out@, date) == noted(m@, date) by {
            lemma_price_on(out@, date);
            if m@.contains_key(date.days) {
                assert(items.contains((&date.days, &m@[date.days])));
                let i = choose|i: int| 0 <= i < items.len() && items[i] == (&date.days, &m@[date.days]);
                assert(out@[i] == (date, m@[date.days]));
                lemma_price_on_increasing(out@, i);
            }
            if price_on(out@, date) is Some {
                let i = choose|i: int| 0 <= i < out@.len() && (#[trigger] out@[i]).0 == date;
                assert(m@.contains_key(*items[i].0));
            }
        }
    }
    out
}

fn merge_series(existing: &PriceSeries, new: &PriceSeries) -> (r: PriceSeries)
    ensures
        r@ == chronology(existing@ + new@),
{
    let mut merged: BTreeMap<i32, Double> = BTreeMap::new();
    note_prices(&mut merged, existing);
    let ghost half = merged@;
    note_prices(&mut merged, new);
    let r = in_order(&merged);
    proof {
        assert forall|date: Date| #[trigger] price_on(r@, date) == price_on(existing@ + new@, date) by {
            lemma_price_on_append(existing@, new@, date);
            let _ = noted(half, date);
            let _ = noted(merged@, date);
        }
        lemma_is_chronology(existing@ + new@, r@);
    }
    r
}

/// The price series of a map, by ticker.
pub open spec fn all_series(prices: PriceMap) -> Map<Seq<char>, Seq<(Date, Double)>> {
    prices@.map_values(|series: PriceSeries| series@)
}

/// The series of a ticker; empty where there is none.
pub open spec fn series_of(all: Map<Seq<char>, Seq<(Date, Double)>>, ticker: Seq<char>) -> Seq<(Date, Double)> {
    if all.contains_key(ticker) { all[ticker] } else { Seq::empty() }
}

/// Two maps merged: where both know a ticker, its entries are put together in
/// the order of the dates, and on a date that both have the new price stands.
pub open spec fn merged(
    existing: Map<Seq<char>, Seq<(Date, Double)>>,
    new: Map<Seq<char>, Seq<(Date, Double)>>,
) -> Map<Seq<char>, Seq<(Date, Double)>> {
    Map::new(
        |ticker: Seq<char>| existing.contains_key(ticker) || new.contains_key(ticker),
        |ticker: Seq<char>|
            if new.contains_key(ticker) {
                chronology(series_of(existing, ticker) + new[ticker])
            } else {
                existing[ticker]
            },
    )
}

/// Merges newly fetched rows into the existing price map.  The rows of a
/// ticker are added to those it has, a new price replaces the one of the same
/// date, and the series is put in the order of its dates.
pub fn merge_prices(existing: &mut PriceMap, new: PriceMap)
    requires
        old(existing).wf(),
        new.wf(),
    ensures
        final(existing).wf(),
        all_series(*final(existing)) == merged(all_series(*old(existing)), all_series(new)),
{
    let ghost before = all_series(*existing);
    let ghost added = all_series(new);
    let mut i: usize = 0;
    while i < new.entries.len()
        invariant
            new.wf(),
            existing.wf(),
            i <= new.entries@.len(),
            added == all_series(new),
            forall|t: Seq<char>| #[trigger]
                existing@.contains_key(t) == (before.contains_key(t) || (new@.contains_key(t) && new.place(t) < i)),
            forall|t: Seq<char>|
                existing@.contains_key(t) ==> (#[trigger] existing@[t])@ == if new@.contains_key(t) && new.place(t)
                    < i {
                    chronology(series_of(before, t) + added[t])
                } else {
                    before[t]
                },
        decreases new.entries.len() - i,
    {
        let ticker = new.entries[i].0.clone();
        let ghost key = ticker@;
        let ghost now = existing@;
        proof {
            new.lemma_place(i as int);
        }
        let rows = match existing.get(ticker.as_str()) {
            Some(series) => merge_series(series, &new.entries[i].1),
            None => {
                let none: PriceSeries = Vec::new();
                merge_series(&none, &new.entries[i].1)
            },
        };
        assert(rows@ == chronology(series_of(before, key) + added[key])) by {
            if now.contains_key(key) {
                assert(now[key]@ == before[key]);
            } else {
                assert(series_of(before, key) =~= Seq::<(Date, Double)>::empty());
            }
        }
        existing.insert(ticker, rows);
        proof {
            assert forall|t: Seq<char>| t != key && new@.contains_key(t) implies new.place(t) != i by {
                assert(new.at(t, new.place(t)));
            }
            assert forall|t: Seq<char>| #[trigger]
                existing@.contains_key(t) == (before.contains_key(t) || (new@.contains_key(t) && new.place(t) < i + 1)) by {
                let _ = now.contains_key(t);
            }
            assert forall|t: Seq<char>| existing@.contains_key(t) implies (#[trigger] existing@[t])@ == if new@.contains_key(t)
                && new.place(t) < i + 1 {
                chronology(series_of(before, t) + added[t])
            } else {
                before[t]
            } by {
                if t != key {
                    let _ = now[t];
                    assert(now.contains_key(t));
                }
            }
        }
        i += 1;
    }
    proof {
        let after = all_series(*existing);
        let expected = merged(before, added);
        assert forall|t: Seq<char>| #[trigger] new@.contains_key(t) implies new.place(t) < i by {
            assert(new.at(t, new.place(t)));
        }
        assert forall|t: Seq<char>| #[trigger] after.contains_key(t) == expected.contains_key(t) by {
            let _ = existing@.contains_key(t);
        }
        assert forall|t: Seq<char>| after.contains_key(t) implies #[trigger] after[t] == expected[t] by {
            let _ = existing@[t];
        }
        assert(after =~= expected);
    }
}

/// After a merge a ticker shows the new price of a date, if there is one, and
/// else the price it had.
pub proof fn merging_prefers_new_prices(
    existing: Map<Seq<char>, Seq<(Date, Double)>>,
    new: Map<Seq<char>, Seq<(Date, Double)>>,
    ticker: Seq<char>,
    date: Date,
)
    ensures
        price_on(series_of(merged(existing, new), ticker), date) == match price_on(series_of(new, ticker), date) {
            Some(p) => Some(p),
            None => price_on(series_of(existing, ticker), date),
        },
{
    if new.contains_key(ticker) {
        let rows = series_of(existing, ticker) + new[ticker];
        lemma_chronology(rows);
        let _ = price_on(chronology(rows), date);
        lemma_price_on_append(series_of(existing, ticker), new[ticker], date);
    }
}

/// After a merge the dates of every ticker that was merged go up, whatever the
/// order of the rows was.
pub proof fn merging_orders_dates(
    existing: Map<Seq<char>, Seq<(Date, Double)>>,
    new: Map<Seq<char>, Seq<(Date, Double)>>,
    ticker: Seq<char>,
)
    requires
        new.contains_key(ticker) || increasing_dates(series_of(existing, ticker)),
    ensures
        increasing_dates(series_of(merged(existing, new), ticker)),
{
    if new.contains_key(ticker) {
        lemma_chronology(series_of(existing, ticker) + new[ticker]);
    }
}

/// A merge loses no ticker, adds only those of the new rows, and leaves a
/// ticker without new rows as it was.
pub proof fn merging_leaves_others_alone(
    existing: Map<Seq<char>, Seq<(Date, Double)>>,
    new: Map<Seq<char>, Seq<(Date, Double)>>,
)
    ensures
        merged(existing, new).dom() == existing.dom().union(new.dom()),
        forall|ticker: Seq<char>|
            existing.contains_key(ticker) && !new.contains_key(ticker) ==> #[trigger] merged(existing, new)[ticker]
                == existing[ticker],
        merged(existing, Map::empty()) == existing,
{
    assert(merged(existing, new).dom() =~= existing.dom().union(new.dom()));
    assert(merged(existing, Map::empty()) =~= existing);
}

/// Rows that are later than a date leave the prices up to that date as they
/// were.
pub proof fn merging_later_rows_keeps_earlier_prices(
    existing: Map<Seq<char>, Seq<(Date, Double)>>,
    new: Map<Seq<char>, Seq<(Date, Double)>>,
    ticker: Seq<char>,
    date: Date,
)
    requires
        forall|i: int|
            0 <= i < series_of(new, ticker).len() ==> date.days < (#[trigger] series_of(new, ticker)[i]).0.days,
    ensures
        price_on(series_of(merged(existing, new), ticker), date) == price_on(series_of(existing, ticker), date),
{
    merging_prefers_new_prices(existing, new, ticker, date);
    lemma_price_on(series_of(new, ticker), date);
}

proof fn lemma_merged_series(
    existing: Map<Seq<char>, Seq<(Date, Double)>>,
    new: Map<Seq<char>, Seq<(Date, Double)>>,
    ticker: Seq<char>,
    series: Seq<(Date, Double)>,
)
    requires
        new.contains_key(ticker),
        increasing_dates(series),
        forall|date: Date| #[trigger]
            price_on(series, date) == match price_on(new[ticker], date) {
                Some(p) => Some(p),
                None => price_on(series_of(existing, ticker), date),
            },
    ensures
        merged(existing, new)[ticker] == series,
{
    let rows = series_of(existing, ticker) + new[ticker];
    assert forall|date: Date| #[trigger] price_on(series, date) == price_on(rows, date) by {
        lemma_price_on_append(series_of(existing, ticker), new[ticker], date);
    }
    lemma_is_chronology(rows, series);
}

/// Merging the same rows a second time changes nothing.
pub proof fn merging_again_changes_nothing(
    existing: Map<Seq<char>, Seq<(Date, Double)>>,
    new: Map<Seq<char>, Seq<(Date, Double)>>,
)
    ensures
        merged(merged(existing, new), new) == merged(existing, new),
{
    let once = merged(existing, new);
    let twice = merged(once, new);
    assert forall|t: Seq<char>| #[trigger] once.contains_key(t) implies twice[t] == once[t] by {
        if new.contains_key(t) {
            merging_orders_dates(existing, new, t);
            assert forall|date: Date| #[trigger]
                price_on(once[t], date) == match price_on(new[t], date) {
                    Some(p) => Some(p),
                    None => price_on(series_of(once, t), date),
                } by {
                merging_prefers_new_prices(existing, new, t, date);
            }
            lemma_merged_series(once, new, t, once[t]);
        }
    }
    assert(twice =~= once);
}

/// It does not matter whether rows that come in two lots are merged one lot
/// after the other, or into each other first.
pub proof fn merging_lot_by_lot(
    existing: Map<Seq<char>, Seq<(Date, Double)>>,
    first: Map<Seq<char>, Seq<(Date, Double)>>,
    second: Map<Seq<char>, Seq<(Date, Double)>>,
)
    ensures
        merged(merged(existing, first), second) == merged(existing, merged(first, second)),
{
    let one = merged(existing, first);
    let both = merged(first, second);
    let left = merged(one, second);
    let right = merged(existing, both);
    assert forall|t: Seq<char>| #[trigger] left.contains_key(t) implies left[t] == right[t] by {
        if second.contains_key(t) {
            merging_orders_dates(one, second, t);
            assert forall|date: Date| #[trigger]
                price_on(left[t], date) == match price_on(both[t], date) {
                    Some(p) => Some(p),
                    None => price_on(series_of(existing, t), date),
                } by {
                merging_prefers_new_prices(one, second, t, date);
                merging_prefers_new_prices(existing, first, t, date);
                merging_prefers_new_prices(first, second, t, date);
            }
            lemma_merged_series(existing, both, t, left[t]);
        }
    }
    assert(left =~= right);
}

// ─── Weekly resampling ───────────────────────────────────────────────────────

/// Every date of the series is one that the calendar knows.
pub open spec fn valid_dates(series: Seq<(Date, Double)>) -> bool {
    forall|i: int| 0 <= i < series.len() ==> (#[trigger] series[i]).0.valid()
}

/// The week, Monday to Sunday, of an entry.
pub open spec fn week_of(entry: (Date, Double)) -> int {
    week_index(entry.0.days as int)
}

/// No entry of the same week is later, and none of the same date comes first.
pub open spec fn closes_week(daily: Seq<(Date, Double)>, d: int) -> bool {
    forall|j: int|
        0 <= j < daily.len() && week_of(#[trigger] daily[j]) == week_of(daily[d]) ==> daily[j].0.days
            < daily[d].0.days || (daily[j].0 == daily[d].0 && d <= j)
}

/// The entry closes its week.
#[verifier::opaque]
pub open spec fn is_week_close(daily: Seq<(Date, Double)>, entry: (Date, Double)) -> bool {
    exists|d: int| 0 <= d < daily.len() && #[trigger] daily[d] == entry && closes_week(daily, d)
}

/// An entry of the series lies in the week.
pub open spec fn has_week(series: Seq<(Date, Double)>, week: int) -> bool {
    exists|k: int| 0 <= k < series.len() && week_of(#[trigger] series[k]) == week
}

/// `out` has an entry for every week of `daily`, in the order of the weeks:
/// the one with the latest date of that week.
pub open spec fn is_weekly(daily: Seq<(Date, Double)>, out: Seq<(Date, Double)>) -> bool {
    &&& forall|i: int, j: int| 0 <= i < j < out.len() ==> week_of(#[trigger] out[i]) < week_of(#[trigger] out[j])
    &&& forall|k: int| 0 <= k < out.len() ==> is_week_close(daily, #[trigger] out[k])
    &&& forall|d: int| 0 <= d < daily.len() ==> has_week(out, week_of(#[trigger] daily[d]))
}

/// A daily series resampled to weeks (see [`is_weekly`]).
pub open spec fn weekly(daily: Seq<(Date, Double)>) -> Seq<(Date, Double)> {
    choose|out: Seq<(Date, Double)>| is_weekly(daily, out)
}

pub proof fn lemma_week_close(daily: Seq<(Date, Double)>, entry: (Date, Double)) -> (d: int)
    requires
        is_week_close(daily, entry),
    ensures
        0 <= d < daily.len(),
        daily[d] == entry,
        closes_week(daily, d),
{
    reveal(is_week_close);
    choose|d: int| 0 <= d < daily.len() && #[trigger] daily[d] == entry && closes_week(daily, d)
}

pub proof fn lemma_closes_week(daily: Seq<(Date, Double)>, d: int)
    requires
        0 <= d < daily.len(),
        closes_week(daily, d),
    ensures
        is_week_close(daily, daily[d]),
{
    reveal(is_week_close);
}

type WeekMap = Map<(i32, u32), (Date, Double)>;

/// The map holds, under its ISO year and week, the close of every week.
#[verifier::opaque]
spec fn holds_weeks(m: WeekMap, daily: Seq<(Date, Double)>) -> bool {
    &&& forall|key: (i32, u32)| #[trigger]
        m.contains_key(key) ==> is_iso_week(m[key].0.days as int, key.0 as int, key.1 as int) && is_week_close(
            daily,
            m[key],
        )
    &&& forall|d: int|
        0 <= d < daily.len() ==> exists|key: (i32, u32)|
            m.contains_key(key) && week_of(#[trigger] m[key]) == week_of(#[trigger] daily[d])
}

proof fn lemma_weeks_grow(m: WeekMap, daily: Seq<(Date, Double)>, key: (i32, u32), new: (Date, Double))
    requires
        holds_weeks(m, daily),
        is_iso_week(new.0.days as int, key.0 as int, key.1 as int),
    ensures
        holds_weeks(
            if m.contains_key(key) && m[key].0.days >= new.0.days { m } else { m.insert(key, new) },
            daily.push(new),
        ),
{
    reveal(holds_weeks);
    let keep = m.contains_key(key) && m[key].0.days >= new.0.days;
    let next = if keep { m } else { m.insert(key, new) };
    let all = daily.push(new);
    let n = daily.len() as int;
    assert(all[n] == new);
    assert forall|k: (i32, u32)| m.contains_key(k) && week_of(m[k]) == week_of(new) implies k == key by {
        iso_weeks_follow_time(m[k].0.days as int, k.0 as int, k.1 as int, new.0.days as int, key.0 as int, key.1 as int);
    }
    if m.contains_key(key) {
        iso_weeks_follow_time(
            m[key].0.days as int,
            key.0 as int,
            key.1 as int,
            new.0.days as int,
            key.0 as int,
            key.1 as int,
        );
    }
    assert forall|k: (i32, u32)| #[trigger] next.contains_key(k) implies is_iso_week(
        next[k].0.days as int,
        k.0 as int,
        k.1 as int,
    ) && is_week_close(all, next[k]) by {
        if k == key && !keep {
            assert(closes_week(all, n)) by {
                assert forall|j: int| 0 <= j < all.len() && week_of(#[trigger] all[j]) == week_of(all[n]) implies all[j].0.days
                    < all[n].0.days || (all[j].0 == all[n].0 && n <= j) by {
                    if j < n {
                        assert(all[j] == daily[j]);
                        let k2 = choose|k2: (i32, u32)|
                            m.contains_key(k2) && week_of(#[trigger] m[k2]) == week_of(daily[j]);
                        assert(k2 == key);
                        let d = lemma_week_close(daily, m[key]);
                        assert(daily[j].0.days <= daily[d].0.days);
                    }
                }
            }
            lemma_closes_week(all, n);
        } else {
            assert(m.contains_key(k));
            let d = lemma_week_close(daily, m[k]);
            assert(all[d] == next[k]);
            assert(closes_week(all, d)) by {
                assert forall|j: int| 0 <= j < all.len() && week_of(#[trigger] all[j]) == week_of(all[d]) implies all[j].0.days
                    < all[d].0.days || (all[j].0 == all[d].0 && d <= j) by {
                    if j < n {
                        assert(all[j] == daily[j]);
                    } else {
                        assert(week_of(m[k]) == week_of(new));
                    }
                }
            }
            lemma_closes_week(all, d);
        }
    }
    assert forall|d: int| 0 <= d < all.len() implies exists|k: (i32, u32)|
        next.contains_key(k) && week_of(#[trigger] next[k]) == week_of(#[trigger] all[d]) by {
        if d < n {
            assert(all[d] == daily[d]);
            let k = choose|k: (i32, u32)| m.contains_key(k) && week_of(#[trigger] m[k]) == week_of(daily[d]);
            assert(next.contains_key(k) && week_of(next[k]) == week_of(all[d]));
        } else {
            assert(next.contains_key(key) && week_of(next[key]) == week_of(all[d]));
        }
    }
}

/// What stands in the map, key by key, in the order of the keys.
spec fn listed(m: WeekMap, keys: Seq<(i32, u32)>, out: Seq<(Date, Double)>) -> bool {
    &&& keys.len() == out.len()
    &&& forall|i: int| 0 <= i < keys.len() ==> m.contains_key(#[trigger] keys[i]) && m[keys[i]] == out[i]
    &&& forall|i: int, j: int|
        #![trigger keys[i], keys[j]]
        0 <= i < j < keys.len() ==> keys[i].0 < keys[j].0 || (keys[i].0 == keys[j].0 && keys[i].1 < keys[j].1)
    &&& forall|key: (i32, u32)| #[trigger] m.contains_key(key) ==> keys.contains(key)
}

/// Writes the map out in the order of its keys.
fn weeks_in_order(m: &BTreeMap<(i32, u32), (Date, Double)>) -> (out: PriceSeries)
    ensures
        exists|keys: Seq<(i32, u32)>| listed(m@, keys, out@),
{
    broadcast use {vstd::std_specs::btree::group_btree_axioms, vstd::laws_cmp::group_laws_cmp};

    let mut out: PriceSeries = Vec::new();
    let entries = m.iter();
    let ghost items = entries.remaining();
    for kv in it: entries
        invariant
            it.seq() == items,
            out@.len() == it.index(),
            forall|i: int| 0 <= i < out@.len() ==> #[trigger] out@[i] == *items[i].1,
    {
        let (_, entry) = kv;
        out.push(*entry);
    }
    proof {
        let keys = items.map_values(|kv: (&(i32, u32), &(Date, Double))| *kv.0);
        assert(vstd::std_specs::btree::increasing_seq(keys));
        assert forall|i: int| 0 <= i < keys.len() implies m@.contains_key(#[trigger] keys[i]) && m@[keys[i]] == out@[i] by {
            assert(m@.contains_key(*items[i].0));
        }
        assert forall|i: int, j: int|
            #![trigger keys[i], keys[j]]
            0 <= i < j < keys.len() implies keys[i].0 < keys[j].0 || (keys[i].0 == keys[j].0 && keys[i].1 < keys[j].1) by {
            assert(keys[i].cmp_spec(&keys[j]) is Less);
        }
        assert forall|key: (i32, u32)| #[trigger] m@.contains_key(key) implies keys.contains(key) by {
            assert(items.contains((&key, &m@[key])));
            let k = choose|k: int| 0 <= k < items.len() && items[k] == (&key, &m@[key]);
            assert(keys[k] == key);
        }
        assert(listed(m@, keys, out@));
    }
    out
}

proof fn lemma_listed_is_weekly(
    m: WeekMap,
    daily: Seq<(Date, Double)>,
    keys: Seq<(i32, u32)>,
    out: Seq<(Date, Double)>,
)
    requires
        holds_weeks(m, daily),
        listed(m, keys, out),
    ensures
        is_weekly(daily, out),
{
    reveal(holds_weeks);
    assert forall|i: int, j: int| 0 <= i < j < out.len() implies week_of(#[trigger] out[i]) < week_of(
        #[trigger] out[j],
    ) by {
        assert(m.contains_key(keys[i]) && m.contains_key(keys[j]));
        lemma_weeks_ordered(keys[i], out[i], keys[j], out[j]);
    }
    assert forall|k: int| 0 <= k < out.len() implies is_week_close(daily, #[trigger] out[k]) by {
        assert(m.contains_key(keys[k]));
    }
    assert forall|d: int| 0 <= d < daily.len() implies has_week(out, week_of(#[trigger] daily[d])) by {
        let key = choose|key: (i32, u32)| m.contains_key(key) && week_of(#[trigger] m[key]) == week_of(daily[d]);
        assert(keys.contains(key));
        let k = choose|k: int| 0 <= k < keys.len() && keys[k] == key;
        assert(week_of(out[k]) == week_of(daily[d]));
    }
}

/// An earlier week has the earlier days.
proof fn lemma_week_order(x: (Date, Double), y: (Date, Double))
    requires
        week_of(x) < week_of(y),
    ensures
        x.0.days < y.0.days,
{
    reveal(week_index);
}

proof fn lemma_weekly_increases(daily: Seq<(Date, Double)>, out: Seq<(Date, Double)>)
    requires
        is_weekly(daily, out),
    ensures
        increasing_dates(out),
{
    assert forall|i: int, j: int| 0 <= i < j < out.len() implies (#[trigger] out[i]).0.days < (
    #[trigger] out[j]).0.days by {
        lemma_week_order(out[i], out[j]);
    }
}

proof fn lemma_weekly_entries(daily: Seq<(Date, Double)>, a: Seq<(Date, Double)>, b: Seq<(Date, Double)>, date: Date)
    requires
        is_weekly(daily, a),
        is_weekly(daily, b),
        price_on(a, date) is Some,
    ensures
        price_on(b, date) == price_on(a, date),
{
    let p = price_on(a, date)->0;
    lemma_price_on(a, date);
    let i = choose|i: int| 0 <= i < a.len() && #[trigger] a[i] == (date, p);
    let d = lemma_week_close(daily, a[i]);
    let k = choose|k: int| 0 <= k < b.len() && week_of(#[trigger] b[k]) == week_of(daily[d]);
    let e = lemma_week_close(daily, b[k]);
    assert(d == e);
    lemma_weekly_increases(daily, b);
    lemma_price_on_increasing(b, k);
}

/// There is one weekly series of a daily one.
pub proof fn lemma_is_weekly(daily: Seq<(Date, Double)>, out: Seq<(Date, Double)>)
    requires
        is_weekly(daily, out),
    ensures
        out == weekly(daily),
{
    let other = weekly(daily);
    assert(is_weekly(daily, other));
    lemma_weekly_increases(daily, out);
    lemma_weekly_increases(daily, other);
    assert forall|date: Date| #[trigger] price_on(out, date) == price_on(other, date) by {
        if price_on(out, date) is Some {
            lemma_weekly_entries(daily, out, other, date);
        }
        if price_on(other, date) is Some {
            lemma_weekly_entries(daily, other, out, date);
        }
    }
    lemma_increasing_unique(out, other);
}

proof fn lemma_weeks_ordered(a: (i32, u32), x: (Date, Double), b: (i32, u32), y: (Date, Double))
    requires
        is_iso_week(x.0.days as int, a.0 as int, a.1 as int),
        is_iso_week(y.0.days as int, b.0 as int, b.1 as int),
        a.0 < b.0 || (a.0 == b.0 && a.1 < b.1),
    ensures
        week_of(x) < week_of(y),
{
    iso_weeks_follow_time(x.0.days as int, a.0 as int, a.1 as int, y.0.days as int, b.0 as int, b.1 as int);
}

/// From a daily series, produces a weekly series: of each ISO week the last
/// available trading day (typically a Friday), in the order of the weeks.
pub fn resample_weekly(daily: &PriceSeries) -> (r: PriceSeries)
    requires
        valid_dates(daily@),
    ensures
        is_weekly(daily@, r@),
        r@ == weekly(daily@),
{
    broadcast use vstd::std_specs::btree::group_btree_axioms;

    proof {
        lemma_keys_ordered();
    }
    let mut by_week: BTreeMap<(i32, u32), (Date, Double)> = BTreeMap::new();
    let mut i: usize = 0;
    proof {
        reveal(holds_weeks);
        assert(holds_weeks(by_week@, daily@.take(0)));
    }
    while i < daily.len()
        invariant
            valid_dates(daily@),
            i <= daily@.len(),
            holds_weeks(by_week@, daily@.take(i as int)),
        decreases daily.len() - i,
    {
        let (date, price) = daily[i];
        proof {
            lemma_keys_ordered();
        }
        let key = iso_week(date.days);
        let later = match by_week.get(&key) {
            Some(held) => date.days > held.0.days,
            None => true,
        };
        proof {
            lemma_weeks_grow(by_week@, daily@.take(i as int), key, (date, price));
            assert(daily@.take(i as int).push((date, price)) =~= daily@.take(i + 1));
        }
        if later {
            by_week.insert(key, (date, price));
        }
        i += 1;
    }
    assert(daily@.take(i as int) =~= daily@);
    let r = weeks_in_order(&by_week);
    proof {
        let keys = choose|keys: Seq<(i32, u32)>| listed(by_week@, keys, r@);
        lemma_listed_is_weekly(by_week@, daily@, keys, r@);
        lemma_is_weekly(daily@, r@);
    }
    r
}

proof fn lemma_week_place(w: Seq<(Date, Double)>, week: int) -> (k: int)
    requires
        forall|i: int, j: int| 0 <= i < j < w.len() ==> week_of(#[trigger] w[i]) < week_of(#[trigger] w[j]),
    ensures
        0 <= k <= w.len(),
        forall|i: int| 0 <= i < k ==> week_of(#[trigger] w[i]) < week,
        forall|i: int| k <= i < w.len() ==> week <= week_of(#[trigger] w[i]),
    decreases w.len(),
{
    if w.len() == 0 || week_of(w.last()) < week {
        let n = w.len() as int;
        assert forall|i: int| 0 <= i < n implies week_of(#[trigger] w[i]) < week by {
            if i < n - 1 {
                assert(week_of(w[i]) < week_of(w[n - 1]));
            }
        }
        n
    } else {
        let shorter = w.drop_last();
        assert forall|a: int, b: int| 0 <= a < b < shorter.len() implies week_of(#[trigger] shorter[a]) < week_of(
            #[trigger] shorter[b],
        ) by {
            assert(week_of(w[a]) < week_of(w[b]));
        }
        let k = lemma_week_place(shorter, week);
        assert forall|i: int| 0 <= i < k implies week_of(#[trigger] w[i]) < week by {
            assert(shorter[i] == w[i]);
        }
        assert forall|i: int| k <= i < w.len() implies week <= week_of(#[trigger] w[i]) by {
            if i < shorter.len() {
                assert(shorter[i] == w[i]);
            }
        }
        k
    }
}

/// An entry that closed its week still does after one of another week, or one
/// that is not later.
proof fn lemma_week_stays(daily: Seq<(Date, Double)>, entry: (Date, Double), new: (Date, Double))
    requires
        is_week_close(daily, entry),
        week_of(entry) != week_of(new) || new.0.days <= entry.0.days,
    ensures
        is_week_close(daily.push(new), entry),
{
    let all = daily.push(new);
    let d = lemma_week_close(daily, entry);
    assert(all[d] == entry);
    assert forall|j: int| 0 <= j < all.len() && week_of(#[trigger] all[j]) == week_of(all[d]) implies all[j].0.days
        < all[d].0.days || (all[j].0 == all[d].0 && d <= j) by {
        if j < daily.len() {
            assert(all[j] == daily[j]);
        }
    }
    lemma_closes_week(all, d);
}

proof fn lemma_build_weekly(daily: Seq<(Date, Double)>) -> (out: Seq<(Date, Double)>)
    ensures
        is_weekly(daily, out),
    decreases daily.len(),
{
    if daily.len() == 0 {
        daily
    } else {
        let shorter = daily.drop_last();
        let w = lemma_build_weekly(shorter);
        let p = daily.last();
        let n = shorter.len() as int;
        assert(shorter.push(p) =~= daily);
        let k = lemma_week_place(w, week_of(p));
        let known = k < w.len() && week_of(w[k]) == week_of(p);
        if known && p.0.days <= w[k].0.days {
            assert forall|i: int| 0 <= i < w.len() implies is_week_close(daily, #[trigger] w[i]) by {
                if i < k {
                    assert(week_of(w[i]) < week_of(w[k]));
                }
                if k < i {
                    assert(week_of(w[k]) < week_of(w[i]));
                }
                lemma_week_stays(shorter, w[i], p);
            }
            assert forall|d: int| 0 <= d < daily.len() implies has_week(w, week_of(#[trigger] daily[d])) by {
                if d < n {
                    assert(daily[d] == shorter[d]);
                } else {
                    assert(week_of(w[k]) == week_of(daily[d]));
                }
            }
            w
        } else {
            let out = if known { w.update(k, p) } else { w.insert(k, p) };
            assert(out[k] == p);
            assert forall|j: int| 0 <= j < out.len() && j != k implies #[trigger] out[j] == w[if known || j < k { j } else { j - 1 }] by {}
            assert forall|a: int, b: int| 0 <= a < b < out.len() implies week_of(#[trigger] out[a]) < week_of(
                #[trigger] out[b],
            ) by {
                let x = if known || a < k { a } else { a - 1 };
                let y = if known || b < k { b } else { b - 1 };
                if a != k {
                    assert(out[a] == w[x]);
                }
                if b != k {
                    assert(out[b] == w[y]);
                }
                if a != k && b != k {
                    assert(week_of(w[x]) < week_of(w[y]));
                } else if a == k && known {
                    assert(week_of(w[k]) < week_of(w[y]));
                }
            }
            assert(closes_week(daily, n)) by {
                assert forall|j: int| 0 <= j < daily.len() && week_of(#[trigger] daily[j]) == week_of(daily[n]) implies daily[j].0.days
                    < daily[n].0.days || (daily[j].0 == daily[n].0 && n <= j) by {
                    if j < n {
                        assert(daily[j] == shorter[j]);
                        assert(has_week(w, week_of(shorter[j])));
                        let i = choose|i: int| 0 <= i < w.len() && week_of(#[trigger] w[i]) == week_of(shorter[j]);
                        assert(i == k) by {
                            if i > k {
                                assert(week_of(w[k]) < week_of(w[i]));
                            }
                        }
                        let e = lemma_week_close(shorter, w[k]);
                        assert(shorter[j].0.days <= shorter[e].0.days);
                    }
                }
            }
            lemma_closes_week(daily, n);
            assert forall|i: int| 0 <= i < out.len() implies is_week_close(daily, #[trigger] out[i]) by {
                if i != k {
                    let x = if known || i < k { i } else { i - 1 };
                    assert(out[i] == w[x]);
                    if known && x > k {
                        assert(week_of(w[k]) < week_of(w[x]));
                    }
                    lemma_week_stays(shorter, w[x], p);
                }
            }
            assert forall|d: int| 0 <= d < daily.len() implies has_week(out, week_of(#[trigger] daily[d])) by {
                if d < n {
                    assert(daily[d] == shorter[d]);
                    assert(has_week(w, week_of(shorter[d])));
                    let i = choose|i: int| 0 <= i < w.len() && week_of(#[trigger] w[i]) == week_of(shorter[d]);
                    let m = if known || i < k { i } else { i + 1 };
                    if m == k {
                        assert(week_of(out[k]) == week_of(daily[d]));
                    } else {
                        assert(out[m] == w[i]);
                    }
                } else {
                    assert(week_of(out[k]) == week_of(daily[d]));
                }
            }
            out
        }
    }
}

/// Every daily series has a weekly one.
pub proof fn lemma_weekly(daily: Seq<(Date, Double)>)
    ensures
        is_weekly(daily, weekly(daily)),
{
    let out = lemma_build_weekly(daily);
}

/// The entries of a weekly series are entries of the daily one.
pub proof fn lemma_weekly_valid(daily: Seq<(Date, Double)>, out: Seq<(Date, Double)>)
    requires
        is_weekly(daily, out),
        valid_dates(daily),
    ensures
        valid_dates(out),
{
    assert forall|k: int| 0 <= k < out.len() implies (#[trigger] out[k]).0.valid() by {
        let d = lemma_week_close(daily, out[k]);
    }
}

/// The dates of a weekly series go up, and no two of its entries lie in the
/// same week.
pub proof fn weekly_dates_go_up(daily: Seq<(Date, Double)>)
    ensures
        increasing_dates(weekly(daily)),
        forall|i: int, j: int|
            #![trigger weekly(daily)[i], weekly(daily)[j]]
            0 <= i < j < weekly(daily).len() ==> week_of(weekly(daily)[i]) != week_of(weekly(daily)[j]),
{
    lemma_weekly(daily);
    lemma_weekly_increases(daily, weekly(daily));
}

/// A weekly series is its own weekly series.
pub proof fn resampling_again_changes_nothing(daily: Seq<(Date, Double)>)
    ensures
        weekly(weekly(daily)) == weekly(daily),
{
    let w = weekly(daily);
    lemma_weekly(daily);
    assert forall|k: int| 0 <= k < w.len() implies is_week_close(w, #[trigger] w[k]) by {
        assert(closes_week(w, k)) by {
            assert forall|j: int| 0 <= j < w.len() && week_of(#[trigger] w[j]) == week_of(w[k]) implies w[j].0.days
                < w[k].0.days || (w[j].0 == w[k].0 && k <= j) by {
                if j < k {
                    assert(week_of(w[j]) < week_of(w[k]));
                }
                if k < j {
                    assert(week_of(w[k]) < week_of(w[j]));
                }
            }
        }
        lemma_closes_week(w, k);
    }
    lemma_is_weekly(w, w);
}

/// Of a daily series whose dates go up, the weekly series keeps the entries
/// that are the last of their week, and no others.
pub proof fn weekly_keeps_last_days(daily: Seq<(Date, Double)>, d: int)
    requires
        increasing_dates(daily),
        0 <= d < daily.len(),
    ensures
        weekly(daily).contains(daily[d]) <==> (d + 1 == daily.len() || week_of(daily[d + 1]) != week_of(daily[d])),
{
    let w = weekly(daily);
    lemma_weekly(daily);
    if w.contains(daily[d]) {
        let k = choose|k: int| 0 <= k < w.len() && w[k] == daily[d];
        let e = lemma_week_close(daily, w[k]);
        assert(e == d) by {
            if e < d {
                assert(daily[e].0.days < daily[d].0.days);
            }
            if d < e {
                assert(daily[d].0.days < daily[e].0.days);
            }
        }
        if d + 1 < daily.len() {
            assert(daily[d].0.days < daily[d + 1].0.days);
        }
    }
    if d + 1 == daily.len() || week_of(daily[d + 1]) != week_of(daily[d]) {
        assert(has_week(w, week_of(daily[d])));
        let k = choose|k: int| 0 <= k < w.len() && week_of(#[trigger] w[k]) == week_of(daily[d]);
        let e = lemma_week_close(daily, w[k]);
        assert(daily[d].0.days <= daily[e].0.days);
        if e < d {
            assert(daily[e].0.days < daily[d].0.days);
        }
        if d < e {
            lemma_weeks_monotone(daily, d + 1, e);
            lemma_weeks_monotone(daily, d, d + 1);
        }
    }
}

proof fn lemma_weeks_monotone(daily: Seq<(Date, Double)>, i: int, j: int)
    requires
        increasing_dates(daily),
        0 <= i <= j < daily.len(),
    ensures
        week_of(daily[i]) <= week_of(daily[j]),
{
    reveal(week_index);
    if i < j {
        assert(daily[i].0.days < daily[j].0.days);
    }
}

/// Every date of every series is one that the calendar knows.
pub open spec fn valid_prices(all: Map<Seq<char>, Seq<(Date, Double)>>) -> bool {
    forall|ticker: Seq<char>| #[trigger] all.contains_key(ticker) ==> valid_dates(all[ticker])
}

/// Merging valid prices gives valid prices.
pub proof fn merging_keeps_dates_valid(
    existing: Map<Seq<char>, Seq<(Date, Double)>>,
    new: Map<Seq<char>, Seq<(Date, Double)>>,
)
    requires
        valid_prices(existing),
        valid_prices(new),
    ensures
        valid_prices(merged(existing, new)),
{
    let all = merged(existing, new);
    assert forall|t: Seq<char>| #[trigger] all.contains_key(t) implies valid_dates(all[t]) by {
        if new.contains_key(t) {
            let (a, b) = (series_of(existing, t), new[t]);
            assert(existing.contains_key(t) ==> valid_dates(a));
            assert(valid_dates(a + b)) by {
                assert forall|i: int| 0 <= i < (a + b).len() implies (#[trigger] (a + b)[i]).0.valid() by {
                    if i < a.len() {
                        assert((a + b)[i] == a[i]);
                    } else {
                        assert((a + b)[i] == b[i - a.len()]);
                    }
                }
            }
            lemma_chronology_valid(a + b);
        } else {
            assert(existing.contains_key(t));
        }
    }
}

/// Aligning series whose dates are valid gives such series.
pub proof fn alignment_keeps_dates_valid(a: Seq<(Date, Double)>, b: Seq<(Date, Double)>)
    requires
        valid_dates(a),
    ensures
        valid_dates(shared(a, b)),
        valid_dates(counterpart(a, b)),
{
    let left = shared(a, b);
    assert forall|i: int| 0 <= i < left.len() implies (#[trigger] left[i]).0.valid() by {
        let k = lemma_shared(a, b, i);
        assert(a[k].0.valid());
    }
    let right = counterpart(a, b);
    assert forall|i: int| 0 <= i < right.len() implies (#[trigger] right[i]).0.valid() by {
        assert(left[i].0.valid());
    }
}

/// Every series of a map resampled to weeks.
pub open spec fn all_weekly(all: Map<Seq<char>, Seq<(Date, Double)>>) -> Map<Seq<char>, Seq<(Date, Double)>> {
    all.map_values(|series: Seq<(Date, Double)>| weekly(series))
}

/// Resampling valid prices gives valid prices.
pub proof fn resampling_keeps_dates_valid(all: Map<Seq<char>, Seq<(Date, Double)>>)
    requires
        valid_prices(all),
    ensures
        valid_prices(all_weekly(all)),
{
    assert forall|t: Seq<char>| #[trigger] all_weekly(all).contains_key(t) implies valid_dates(all_weekly(all)[t]) by {
        assert(all.contains_key(t));
        lemma_weekly(all[t]);
        lemma_weekly_valid(all[t], weekly(all[t]));
    }
}

/// The maps are walked alike, and `b` holds for each ticker `f` of what `a` holds.
proof fn lemma_mapped(a: PriceMap, b: PriceMap, f: spec_fn(Seq<(Date, Double)>) -> Seq<(Date, Double)>)
    requires
        a.wf(),
        a.entries@.len() == b.entries@.len(),
        forall|k: int|
            0 <= k < a.entries@.len() ==> (#[trigger] b.entries@[k]).0@ == a.entries@[k].0@ && b.entries@[k].1@ == f(
                a.entries@[k].1@,
            ),
    ensures
        b.wf(),
        b.tickers() == a.tickers(),
        all_series(b) == all_series(a).map_values(f),
{
    assert forall|i: int, j: int| 0 <= i < j < b.entries@.len() implies (#[trigger] b.entries@[i]).0@ != (
    #[trigger] b.entries@[j]).0@ by {
        assert(a.entries@[i].0@ != a.entries@[j].0@);
    }
    assert(b.tickers() =~= a.tickers());
    assert forall|t: Seq<char>| a@.contains_key(t) == #[trigger] b@.contains_key(t) && (a@.contains_key(t) ==> b@[t]@ == f(
        a@[t]@,
    )) by {
        if a.holds(t) {
            let p = a.place(t);
            assert(a.at(t, p));
            assert(b.at(t, p));
            a.lemma_place(p);
            b.lemma_place(p);
        }
        if b.holds(t) {
            let p = b.place(t);
            assert(b.at(t, p));
            assert(a.at(t, p));
        }
    }
    assert(all_series(b) =~= all_series(a).map_values(f));
}

/// Resamples every series of a map to weeks.
pub fn resample_all(daily: &PriceMap) -> (r: PriceMap)
    requires
        daily.wf(),
        valid_prices(all_series(*daily)),
    ensures
        r.wf(),
        r.tickers() == daily.tickers(),
        all_series(r) == all_weekly(all_series(*daily)),
{
    let mut entries: Vec<(String, PriceSeries)> = Vec::new();
    let mut i: usize = 0;
    while i < daily.entries.len()
        invariant
            daily.wf(),
            valid_prices(all_series(*daily)),
            i <= daily.entries@.len(),
            entries@.len() == i,
            forall|k: int|
                0 <= k < i ==> (#[trigger] entries@[k]).0@ == daily.entries@[k].0@ && entries@[k].1@ == weekly(
                    daily.entries@[k].1@,
                ),
        decreases daily.entries.len() - i,
    {
        proof {
            daily.lemma_place(i as int);
            assert(all_series(*daily).contains_key(daily.entries@[i as int].0@));
        }
        let series = resample_weekly(&daily.entries[i].1);
        entries.push((daily.entries[i].0.clone(), series));
        i += 1;
    }
    let r = TickerMap { entries };
    proof {
        lemma_mapped(*daily, r, |series: Seq<(Date, Double)>| weekly(series));
    }
    r
}

fn copy_series(series: &PriceSeries) -> (r: PriceSeries)
    ensures
        r@ == series@,
{
    let mut r: PriceSeries = Vec::new();
    let mut i: usize = 0;
    while i < series.len()
        invariant
            i <= series@.len(),
            r@ == series@.take(i as int),
        decreases series.len() - i,
    {
        r.push(series[i]);
        i += 1;
        assert(r@ =~= series@.take(i as int));
    }
    assert(series@.take(i as int) =~= series@);
    r
}

/// A copy of a price map.
pub fn copy_prices(prices: &PriceMap) -> (r: PriceMap)
    requires
        prices.wf(),
    ensures
        r.wf(),
        r.tickers() == prices.tickers(),
        all_series(r) == all_series(*prices),
{
    let mut entries: Vec<(String, PriceSeries)> = Vec::new();
    let mut i: usize = 0;
    while i < prices.entries.len()
        invariant
            i <= prices.entries@.len(),
            entries@.len() == i,
            forall|k: int|
                0 <= k < i ==> (#[trigger] entries@[k]).0@ == prices.entries@[k].0@ && entries@[k].1@
                    == prices.entries@[k].1@,
        decreases prices.entries.len() - i,
    {
        entries.push((prices.entries[i].0.clone(), copy_series(&prices.entries[i].1)));
        i += 1;
    }
    let r = TickerMap { entries };
    proof {
        lemma_mapped(*prices, r, |series: Seq<(Date, Double)>| series);
        assert(all_series(r) =~= all_series(*prices));
    }
    r
}

} // verus!
