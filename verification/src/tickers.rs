//! Maps keyed by ticker.
use vstd::prelude::*;

use crate::text::same_text;

verus! {

/// A map from tickers to values that keeps the order in which it is walked.
/// No ticker occurs twice.
#[derive(Clone, Debug)]
pub struct TickerMap<V> {
    pub entries: Vec<(String, V)>,
}

impl<V> View for TickerMap<V> {
    type V = Map<Seq<char>, V>;

    open spec fn view(&self) -> Map<Seq<char>, V> {
        Map::new(
            |ticker: Seq<char>| self.holds(ticker),
            |ticker: Seq<char>| self.entries@[self.place(ticker)].1,
        )
    }
}

impl<V> TickerMap<V> {
    /// No ticker occurs twice.
    pub open spec fn wf(self) -> bool {
        forall|i: int, j: int|
            0 <= i < j < self.entries@.len() ==> (#[trigger] self.entries@[i]).0@ != (#[trigger] self.entries@[j]).0@
    }

    pub open spec fn at(self, ticker: Seq<char>, i: int) -> bool {
        0 <= i < self.entries@.len() && self.entries@[i].0@ == ticker
    }

    pub open spec fn holds(self, ticker: Seq<char>) -> bool {
        exists|i: int| #[trigger] self.at(ticker, i)
    }

    pub open spec fn place(self, ticker: Seq<char>) -> int {
        choose|i: int| #[trigger] self.at(ticker, i)
    }

    /// The tickers in the order in which the map is walked.
    pub open spec fn tickers(self) -> Seq<Seq<char>> {
        self.entries@.map_values(|e: (String, V)| e.0@)
    }

    /// What stands at a place of the walk is what the map holds there.
    pub proof fn lemma_place(self, i: int)
        requires
            self.wf(),
            0 <= i < self.entries@.len(),
        ensures
            self.place(self.entries@[i].0@) == i,
            self@.contains_key(self.entries@[i].0@),
            self@[self.entries@[i].0@] == self.entries@[i].1,
    {
        let ticker = self.entries@[i].0@;
        assert(self.at(ticker, i));
        let p = self.place(ticker);
        assert(self.at(ticker, p));
        if p < i {
            assert(self.entries@[p].0@ != self.entries@[i].0@);
        }
        if i < p {
            assert(self.entries@[i].0@ != self.entries@[p].0@);
        }
    }

    /// The map holds as many tickers as the walk has steps.
    pub proof fn lemma_len(self)
        requires
            self.wf(),
        ensures
            self@.dom().finite(),
            self@.dom().len() == self.entries@.len(),
    {
        let ts = self.tickers();
        assert(ts.no_duplicates()) by {
            assert forall|i: int, j: int| 0 <= i < ts.len() && 0 <= j < ts.len() && i != j implies ts[i] != ts[j] by {
                if i < j {
                    assert(self.entries@[i].0@ != self.entries@[j].0@);
                } else {
                    assert(self.entries@[j].0@ != self.entries@[i].0@);
                }
            }
        }
        ts.unique_seq_to_set();
        assert(ts.to_set() =~= self@.dom()) by {
            assert forall|t: Seq<char>| ts.to_set().contains(t) <==> self@.dom().contains(t) by {
                if ts.contains(t) {
                    let i = choose|i: int| 0 <= i < ts.len() && ts[i] == t;
                    assert(self.at(t, i));
                }
                if self.holds(t) {
                    let i = self.place(t);
                    assert(self.at(t, i));
                    assert(ts[i] == t);
                }
            }
        }
    }

    pub fn new() -> (r: Self)
        ensures
            r.wf(),
            r@ == Map::<Seq<char>, V>::empty(),
            r.entries@.len() == 0,
    {
        let r = TickerMap { entries: Vec::new() };
        assert(r@ =~= Map::<Seq<char>, V>::empty());
        r
    }

    fn find(&self, ticker: &str) -> (r: Option<usize>)
        requires
            self.wf(),
        ensures
            match r {
                Some(i) => i < self.entries@.len() && self.entries@[i as int].0@ == ticker@
                    && self@.contains_key(ticker@) && self@[ticker@] == self.entries@[i as int].1,
                None => !self@.contains_key(ticker@),
            },
    {
        let mut i: usize = 0;
        while i < self.entries.len()
            invariant
                self.wf(),
                i <= self.entries@.len(),
                forall|k: int| 0 <= k < i ==> (#[trigger] self.entries@[k]).0@ != ticker@,
            decreases self.entries.len() - i,
        {
            if same_text(self.entries[i].0.as_str(), ticker) {
                proof {
                    self.lemma_place(i as int);
                }
                return Some(i);
            }
            i += 1;
        }
        proof {
            if self.holds(ticker@) {
                let p = self.place(ticker@);
                assert(self.at(ticker@, p));
            }
        }
        None
    }

    /// The value of a ticker.
    pub fn get(&self, ticker: &str) -> (r: Option<&V>)
        requires
            self.wf(),
        ensures
            match r {
                Some(v) => self@.contains_key(ticker@) && *v == self@[ticker@],
                None => !self@.contains_key(ticker@),
            },
    {
        match self.find(ticker) {
            Some(i) => Some(&self.entries[i].1),
            None => None,
        }
    }

    /// Whether the map holds a ticker.
    pub fn contains(&self, ticker: &str) -> (r: bool)
        requires
            self.wf(),
        ensures
            r == self@.contains_key(ticker@),
    {
        self.find(ticker).is_some()
    }

    /// Sets the value of a ticker.  A new ticker comes last in the walk; one
    /// that the map holds keeps its place.
    pub fn insert(&mut self, ticker: String, value: V)
        requires
            old(self).wf(),
        ensures
            final(self).wf(),
            final(self)@ == old(self)@.insert(ticker@, value),
            final(self).tickers() == if old(self)@.contains_key(ticker@) {
                old(self).tickers()
            } else {
                old(self).tickers().push(ticker@)
            },
    {
        let ghost before = *self;
        match self.find(ticker.as_str()) {
            Some(i) => {
                self.entries[i] = (ticker, value);
                proof {
                    before.lemma_place(i as int);
                    assert forall|a: int, b: int| 0 <= a < b < self.entries@.len() implies (
                    #[trigger] self.entries@[a]).0@ != (#[trigger] self.entries@[b]).0@ by {
                        assert(before.entries@[a].0@ != before.entries@[b].0@);
                    }
                    self.lemma_place(i as int);
                    assert(self.tickers() =~= before.tickers());
                    assert forall|t: Seq<char>| t != ticker@ implies self.holds(t) == before.holds(t) && (
                    self.holds(t) ==> self@[t] == before@[t]) by {
                        if before.holds(t) {
                            let p = before.place(t);
                            assert(before.at(t, p));
                            assert(self.at(t, p));
                            before.lemma_place(p);
                            self.lemma_place(p);
                        }
                        if self.holds(t) {
                            let p = self.place(t);
                            assert(self.at(t, p));
                            assert(before.at(t, p));
                        }
                    }
                    assert(self@ =~= before@.insert(ticker@, value));
                }
            },
            None => {
                self.entries.push((ticker, value));
                proof {
                    let n = before.entries@.len() as int;
                    assert forall|a: int, b: int| 0 <= a < b < self.entries@.len() implies (
                    #[trigger] self.entries@[a]).0@ != (#[trigger] self.entries@[b]).0@ by {
                        if b < n {
                            assert(before.entries@[a].0@ != before.entries@[b].0@);
                        } else {
                            before.lemma_place(a);
                        }
                    }
                    self.lemma_place(n);
                    assert(self.tickers() =~= before.tickers().push(ticker@));
                    assert forall|t: Seq<char>| t != ticker@ implies self.holds(t) == before.holds(t) && (
                    self.holds(t) ==> self@[t] == before@[t]) by {
                        if before.holds(t) {
                            let p = before.place(t);
                            assert(before.at(t, p));
                            assert(self.at(t, p));
                            before.lemma_place(p);
                            self.lemma_place(p);
                        }
                        if self.holds(t) {
                            let p = self.place(t);
                            assert(self.at(t, p));
                            assert(before.at(t, p));
                        }
                    }
                    assert(self@ =~= before@.insert(ticker@, value));
                }
            },
        }
    }

    /// The number of tickers.
    pub fn len(&self) -> (r: usize)
        requires
            self.wf(),
        ensures
            r == self@.dom().len(),
            r == self.entries@.len(),
    {
        proof {
            self.lemma_len();
        }
        self.entries.len()
    }

    pub fn is_empty(&self) -> (r: bool)
        ensures
            r == (self@ == Map::<Seq<char>, V>::empty()),
            r == (self.entries@.len() == 0),
    {
        proof {
            if self.entries@.len() > 0 {
                assert(self.at(self.entries@[0].0@, 0));
                assert(self@.contains_key(self.entries@[0].0@));
            } else {
                assert(self@ =~= Map::<Seq<char>, V>::empty());
            }
        }
        self.entries.len() == 0
    }
}

impl<T> TickerMap<Vec<T>> {
    /// The lists of the map, by ticker.
    pub open spec fn lists(self) -> Map<Seq<char>, Seq<T>> {
        self@.map_values(|list: Vec<T>| list@)
    }

    /// The list of a ticker; empty where there is none.
    pub open spec fn list_of(self, ticker: Seq<char>) -> Seq<T> {
        if self@.contains_key(ticker) { self@[ticker]@ } else { Seq::empty() }
    }

    /// Appends to the list of a ticker.
    pub fn push_to(&mut self, ticker: &str, item: T)
        requires
            old(self).wf(),
        ensures
            final(self).wf(),
            final(self).lists() == old(self).lists().insert(ticker@, old(self).list_of(ticker@).push(item)),
    {
        let ghost before = *self;
        match self.find(ticker) {
            Some(i) => {
                self.entries[i].1.push(item);
                proof {
                    before.lemma_place(i as int);
                    assert forall|a: int, b: int| 0 <= a < b < self.entries@.len() implies (
                    #[trigger] self.entries@[a]).0@ != (#[trigger] self.entries@[b]).0@ by {
                        assert(before.entries@[a].0@ != before.entries@[b].0@);
                    }
                    self.lemma_place(i as int);
                    assert forall|t: Seq<char>| t != ticker@ implies self.holds(t) == before.holds(t) && (
                    self.holds(t) ==> self@[t] == before@[t]) by {
                        if before.holds(t) {
                            let p = before.place(t);
                            assert(before.at(t, p));
                            assert(self.at(t, p));
                            before.lemma_place(p);
                            self.lemma_place(p);
                        }
                        if self.holds(t) {
                            let p = self.place(t);
                            assert(self.at(t, p));
                            assert(before.at(t, p));
                        }
                    }
                }
            },
            None => {
                let mut list: Vec<T> = Vec::new();
                list.push(item);
                assert(list@ =~= before.list_of(ticker@).push(item));
                self.insert(ticker.to_owned(), list);
            },
        }
        assert(self.lists() =~= before.lists().insert(ticker@, before.list_of(ticker@).push(item)));
    }
}

// ─── Lists of things that have a ticker ──────────────────────────────────────

/// Something that has a ticker.
pub trait Tickered {
    spec fn ticker_text(&self) -> Seq<char>;

    fn ticker_name(&self) -> (r: &str)
        ensures
            r@ == self.ticker_text(),
    ;
}

/// The place of the first entry of a ticker.
pub open spec fn first_place<T: Tickered>(entries: Seq<T>, ticker: Seq<char>) -> Option<int>
    decreases entries.len(),
{
    if entries.len() == 0 {
        None
    } else {
        match first_place(entries.drop_last(), ticker) {
            Some(i) => Some(i),
            None => if entries.last().ticker_text() == ticker { Some(entries.len() - 1) } else { None },
        }
    }
}

/// The place of the last entry of a ticker.
pub open spec fn last_place<T: Tickered>(entries: Seq<T>, ticker: Seq<char>) -> Option<int>
    decreases entries.len(),
{
    if entries.len() == 0 {
        None
    } else if entries.last().ticker_text() == ticker {
        Some(entries.len() - 1)
    } else {
        last_place(entries.drop_last(), ticker)
    }
}

/// Finds the last entry of a ticker.
pub fn find_last<T: Tickered>(entries: &[T], ticker: &str) -> (r: Option<usize>)
    ensures
        r matches Some(i) ==> i < entries@.len() && last_place(entries@, ticker@) == Some(i as int),
        r is None ==> last_place(entries@, ticker@) is None,
{
    let mut i: usize = entries.len();
    assert(entries@.take(i as int) =~= entries@);
    while i > 0
        invariant
            i <= entries@.len(),
            last_place(entries@, ticker@) == last_place(entries@.take(i as int), ticker@),
        decreases i,
    {
        assert(entries@.take(i as int).drop_last() =~= entries@.take(i - 1));
        i -= 1;
        if same_text(entries[i].ticker_name(), ticker) {
            return Some(i);
        }
    }
    None
}

/// Takes the first entry of a ticker out of a list.
pub fn take_first<T: Tickered>(entries: Vec<T>, ticker: &str) -> (r: Option<T>)
    ensures
        r == match first_place(entries@, ticker@) {
            Some(i) => Some(entries@[i]),
            None => None,
        },
        first_place(entries@, ticker@) matches Some(i) ==> 0 <= i < entries@.len(),
{
    let ghost given = entries@;
    let mut rest = entries;
    let mut i: usize = 0;
    while i < rest.len()
        invariant
            i <= given.len(),
            rest@ == given,
            given == entries@,
            first_place(given.take(i as int), ticker@) is None,
        decreases rest.len() - i,
    {
        assert(given.take(i + 1).drop_last() =~= given.take(i as int));
        if same_text(rest[i].ticker_name(), ticker) {
            proof {
                lemma_first_place(given, ticker@, i + 1);
            }
            return Some(rest.remove(i));
        }
        i += 1;
    }
    assert(given.take(i as int) =~= given);
    None
}

proof fn lemma_first_place<T: Tickered>(entries: Seq<T>, ticker: Seq<char>, k: int)
    requires
        0 <= k <= entries.len(),
        first_place(entries.take(k), ticker) is Some,
    ensures
        first_place(entries, ticker) == first_place(entries.take(k), ticker),
    decreases entries.len() - k,
{
    if k == entries.len() {
        assert(entries.take(k) =~= entries);
    } else {
        assert(entries.take(k + 1).drop_last() =~= entries.take(k));
        lemma_first_place(entries, ticker, k + 1);
    }
}

/// A ticker that some entry has is found, and what is found has the ticker.
pub proof fn lemma_last_place<T: Tickered>(entries: Seq<T>, ticker: Seq<char>)
    ensures
        last_place(entries, ticker) matches Some(i) ==> 0 <= i < entries.len() && entries[i].ticker_text() == ticker,
        (exists|i: int| 0 <= i < entries.len() && (#[trigger] entries[i]).ticker_text() == ticker) ==> last_place(
            entries,
            ticker,
        ) is Some,
    decreases entries.len(),
{
    if entries.len() > 0 {
        let shorter = entries.drop_last();
        lemma_last_place(shorter, ticker);
        if exists|i: int| 0 <= i < entries.len() && (#[trigger] entries[i]).ticker_text() == ticker {
            let i = choose|i: int| 0 <= i < entries.len() && (#[trigger] entries[i]).ticker_text() == ticker;
            if i < shorter.len() {
                assert(shorter[i].ticker_text() == ticker);
            }
        }
    }
}

} // verus!
