//! The ticker universe: a benchmark, its sectors, and the industries of each.
use vstd::prelude::*;
use vstd::string::StringExecFns;

use crate::text::{pair_texts, same_text, texts};
use crate::tickers::TickerMap;

verus! {

#[derive(Clone, Debug)]
pub struct TickerEntry {
    pub ticker: String,
    pub name: String,
    /// TradingView FactSet sectors (for sectors).
    pub tv_sectors: Vec<String>,
    /// TradingView FactSet industries (for industries).
    pub tv_industries: Vec<String>,
}

/// What the configuration file holds.
#[derive(Debug)]
pub struct ConfigFile {
    pub benchmark: String,
    pub sectors: Vec<TickerEntry>,
    pub industry_groups: TickerMap<Vec<TickerEntry>>,
}

/// Why a configuration is refused.
#[derive(Debug)]
pub enum ConfigError {
    /// The industry group of a ticker that is no sector.
    UnknownSector(String),
}

impl ConfigError {
    pub open spec fn text(self) -> Seq<char> {
        match self {
            ConfigError::UnknownSector(key) => "config.toml: [industry_groups."@ + key@
                + "] references unknown sector '"@ + key@ + "'. Add a matching [[sectors]] entry first."@,
        }
    }

    /// The error in words.
    pub fn message(&self) -> (r: String)
        ensures
            r@ == self.text(),
    {
        match self {
            ConfigError::UnknownSector(key) => {
                let mut r = "config.toml: [industry_groups.".to_owned();
                r.append(key.as_str());
                r.append("] references unknown sector '");
                r.append(key.as_str());
                r.append("'. Add a matching [[sectors]] entry first.");
                r
            },
        }
    }
}

/// The universe.  Every industry group belongs to a sector.
#[derive(Clone, Debug)]
pub struct Config {
    pub benchmark: String,
    /// The sectors in the order of the file.
    pub sectors: Vec<TickerEntry>,
    /// The industries of each sector.
    pub industry_groups: TickerMap<Vec<TickerEntry>>,
}

/// The tickers of the entries.
pub open spec fn tickers_of(entries: Seq<TickerEntry>) -> Seq<Seq<char>> {
    entries.map_values(|e: TickerEntry| e.ticker@)
}

/// The tickers and names of the entries.
pub open spec fn pairs_of(entries: Seq<TickerEntry>) -> Seq<(Seq<char>, Seq<char>)> {
    entries.map_values(|e: TickerEntry| (e.ticker@, e.name@))
}

/// The entries behind the references.
pub open spec fn behind(refs: Seq<&TickerEntry>) -> Seq<TickerEntry> {
    refs.map_values(|e: &TickerEntry| *e)
}

/// The entries of the groups, one group after the other.
pub open spec fn flattened(groups: Seq<(String, Vec<TickerEntry>)>) -> Seq<TickerEntry>
    decreases groups.len(),
{
    if groups.len() == 0 {
        Seq::empty()
    } else {
        flattened(groups.drop_last()) + groups.last().1@
    }
}

/// The texts without those that came before.
pub open spec fn distinct(all: Seq<Seq<char>>) -> Seq<Seq<char>>
    decreases all.len(),
{
    if all.len() == 0 {
        Seq::empty()
    } else {
        let rest = distinct(all.drop_last());
        if rest.contains(all.last()) { rest } else { rest.push(all.last()) }
    }
}

/// The name of the first entry of a ticker.
pub open spec fn first_name(entries: Seq<TickerEntry>, ticker: Seq<char>) -> Option<Seq<char>>
    decreases entries.len(),
{
    if entries.len() == 0 {
        None
    } else if entries[0].ticker@ == ticker {
        Some(entries[0].name@)
    } else {
        first_name(entries.drop_first(), ticker)
    }
}

/// The first group of the walk whose ticker is no sector.
pub open spec fn first_unknown(sectors: Seq<Seq<char>>, keys: Seq<Seq<char>>) -> Option<Seq<char>>
    decreases keys.len(),
{
    if keys.len() == 0 {
        None
    } else if !sectors.contains(keys[0]) {
        Some(keys[0])
    } else {
        first_unknown(sectors, keys.drop_first())
    }
}

fn has_ticker(entries: &Vec<TickerEntry>, ticker: &str) -> (r: bool)
    ensures
        r == tickers_of(entries@).contains(ticker@),
{
    let mut i: usize = 0;
    while i < entries.len()
        invariant
            i <= entries@.len(),
            forall|k: int| 0 <= k < i ==> (#[trigger] entries@[k]).ticker@ != ticker@,
        decreases entries.len() - i,
    {
        if same_text(entries[i].ticker.as_str(), ticker) {
            assert(tickers_of(entries@)[i as int] == ticker@);
            return true;
        }
        i += 1;
    }
    proof {
        if tickers_of(entries@).contains(ticker@) {
            let k = choose|k: int| 0 <= k < entries@.len() && tickers_of(entries@)[k] == ticker@;
            assert(entries@[k].ticker@ != ticker@);
        }
    }
    false
}

impl Config {
    pub open spec fn wf(self) -> bool {
        &&& self.industry_groups.wf()
        &&& forall|key: Seq<char>| #[trigger]
            self.industry_groups@.contains_key(key) ==> tickers_of(self.sectors@).contains(key)
    }

    /// All industries, in the order in which the groups are walked.
    pub open spec fn industries(self) -> Seq<TickerEntry> {
        flattened(self.industry_groups.entries@)
    }

    /// Takes over a configuration file, unless it has an industry group of a
    /// ticker that is no sector.
    pub fn load(file: ConfigFile) -> (r: Result<Config, ConfigError>)
        requires
            file.industry_groups.wf(),
        ensures
            r matches Ok(config) ==> {
                &&& config.wf()
                &&& config.benchmark == file.benchmark
                &&& config.sectors == file.sectors
                &&& config.industry_groups == file.industry_groups
                &&& first_unknown(tickers_of(file.sectors@), file.industry_groups.tickers()) is None
            },
            r matches Err(ConfigError::UnknownSector(key)) ==> first_unknown(
                tickers_of(file.sectors@),
                file.industry_groups.tickers(),
            ) == Some(key@),
    {
        let ghost sectors = tickers_of(file.sectors@);
        let ghost keys = file.industry_groups.tickers();
        let mut i: usize = 0;
        assert(keys.skip(0) =~= keys);
        while i < file.industry_groups.entries.len()
            invariant
                i <= file.industry_groups.entries@.len(),
                sectors == tickers_of(file.sectors@),
                keys == file.industry_groups.tickers(),
                first_unknown(sectors, keys) == first_unknown(sectors, keys.skip(i as int)),
                forall|k: int| 0 <= k < i ==> sectors.contains(#[trigger] keys[k]),
            decreases file.industry_groups.entries.len() - i,
        {
            let key = file.industry_groups.entries[i].0.as_str();
            assert(keys[i as int] == key@);
            assert(keys.skip(i as int)[0] == keys[i as int]);
            assert(keys.skip(i as int).drop_first() =~= keys.skip(i + 1));
            if !has_ticker(&file.sectors, key) {
                return Err(ConfigError::UnknownSector(key.to_owned()));
            }
            i += 1;
        }
        proof {
            let groups = file.industry_groups;
            assert forall|key: Seq<char>| #[trigger] groups@.contains_key(key) implies sectors.contains(key) by {
                let p = groups.place(key);
                assert(groups.at(key, p));
                assert(keys[p] == key);
            }
        }
        Ok(Config { benchmark: file.benchmark, sectors: file.sectors, industry_groups: file.industry_groups })
    }

    // ─── Tickers ─────────────────────────────────────────────────────────────

    /// The tickers of the sectors.
    pub fn sector_tickers(&self) -> (r: Vec<&str>)
        ensures
            texts(r@) == tickers_of(self.sectors@),
    {
        let mut r: Vec<&str> = Vec::new();
        let mut i: usize = 0;
        while i < self.sectors.len()
            invariant
                i <= self.sectors@.len(),
                r@.len() == i,
                forall|k: int| 0 <= k < i ==> (#[trigger] r@[k])@ == self.sectors@[k].ticker@,
            decreases self.sectors.len() - i,
        {
            r.push(self.sectors[i].ticker.as_str());
            i += 1;
        }
        assert(texts(r@) =~= tickers_of(self.sectors@));
        r
    }

    /// References to all industries.
    fn industry_entries(&self) -> (r: Vec<&TickerEntry>)
        ensures
            behind(r@) == self.industries(),
    {
        let groups = &self.industry_groups.entries;
        let mut r: Vec<&TickerEntry> = Vec::new();
        let mut g: usize = 0;
        assert(behind(r@) =~= flattened(groups@.take(0)));
        while g < groups.len()
            invariant
                g <= groups@.len(),
                behind(r@) == flattened(groups@.take(g as int)),
            decreases groups.len() - g,
        {
            let ghost before = flattened(groups@.take(g as int));
            let group = &groups[g].1;
            let mut i: usize = 0;
            while i < group.len()
                invariant
                    i <= group@.len(),
                    behind(r@) == before + group@.take(i as int),
                decreases group.len() - i,
            {
                let ghost held = behind(r@);
                r.push(&group[i]);
                assert(behind(r@) =~= held.push(group@[i as int]));
                i += 1;
                assert(behind(r@) =~= before + group@.take(i as int));
            }
            assert(group@.take(i as int) =~= group@);
            assert(groups@.take(g + 1).drop_last() =~= groups@.take(g as int));
            g += 1;
        }
        assert(groups@.take(g as int) =~= groups@);
        r
    }

    /// The tickers of all industries.
    pub fn industry_tickers(&self) -> (r: Vec<&str>)
        ensures
            texts(r@) == tickers_of(self.industries()),
    {
        let entries = self.industry_entries();
        let mut r: Vec<&str> = Vec::new();
        let mut i: usize = 0;
        while i < entries.len()
            invariant
                i <= entries@.len(),
                r@.len() == i,
                forall|k: int| 0 <= k < i ==> (#[trigger] r@[k])@ == entries@[k].ticker@,
            decreases entries.len() - i,
        {
            r.push(entries[i].ticker.as_str());
            i += 1;
        }
        proof {
            let es = behind(entries@);
            assert forall|k: int| 0 <= k < r@.len() implies texts(r@)[k] == tickers_of(self.industries())[k] by {
                assert(es[k] == *entries@[k]);
            }
            assert(texts(r@) =~= tickers_of(self.industries()));
        }
        r
    }

    /// The tickers of the universe, benchmark and sectors first.
    pub open spec fn universe(self) -> Seq<Seq<char>> {
        seq![self.benchmark@] + tickers_of(self.sectors@) + tickers_of(self.industries())
    }

    /// All tickers, each once, in the order in which they first come.
    pub fn all_tickers(&self) -> (r: Vec<&str>)
        ensures
            texts(r@) == distinct(self.universe()),
    {
        let mut r: Vec<&str> = Vec::new();
        let ghost first = seq![self.benchmark@];
        r.push(self.benchmark.as_str());
        proof {
            reveal_with_fuel(distinct, 2);
            assert(first.drop_last() =~= Seq::<Seq<char>>::empty());
            assert(texts(r@) =~= distinct(first));
        }
        let sectors = self.sector_tickers();
        push_distinct(&mut r, &sectors, Ghost(first));
        let industries = self.industry_tickers();
        push_distinct(&mut r, &industries, Ghost(first + tickers_of(self.sectors@)));
        r
    }

    // ─── Pairs ───────────────────────────────────────────────────────────────

    /// (ticker, name) pairs of the sectors.
    pub fn sector_pairs(&self) -> (r: Vec<(&str, &str)>)
        ensures
            pair_texts(r@) == pairs_of(self.sectors@),
    {
        entry_pairs(&self.sectors)
    }

    /// (ticker, name) pairs of all industries.
    pub fn industry_pairs(&self) -> (r: Vec<(&str, &str)>)
        ensures
            pair_texts(r@) == pairs_of(self.industries()),
    {
        let entries = self.industry_entries();
        let mut r: Vec<(&str, &str)> = Vec::new();
        let mut i: usize = 0;
        while i < entries.len()
            invariant
                i <= entries@.len(),
                r@.len() == i,
                forall|k: int|
                    0 <= k < i ==> (#[trigger] r@[k]).0@ == entries@[k].ticker@ && r@[k].1@ == entries@[k].name@,
            decreases entries.len() - i,
        {
            r.push((entries[i].ticker.as_str(), entries[i].name.as_str()));
            i += 1;
        }
        proof {
            let es = behind(entries@);
            assert forall|k: int| 0 <= k < r@.len() implies pair_texts(r@)[k] == pairs_of(self.industries())[k] by {
                assert(es[k] == *entries@[k]);
            }
            assert(pair_texts(r@) =~= pairs_of(self.industries()));
        }
        r
    }

    /// The industries of a sector.
    pub open spec fn industries_of(self, sector: Seq<char>) -> Seq<TickerEntry> {
        if self.industry_groups@.contains_key(sector) {
            self.industry_groups@[sector]@
        } else {
            Seq::empty()
        }
    }

    /// (ticker, name) pairs of the industries of one sector.
    pub fn industry_pairs_for(&self, sector: &str) -> (r: Vec<(&str, &str)>)
        requires
            self.wf(),
        ensures
            pair_texts(r@) == pairs_of(self.industries_of(sector@)),
    {
        match self.industry_groups.get(sector) {
            Some(group) => entry_pairs(group),
            None => {
                let r: Vec<(&str, &str)> = Vec::new();
                assert(pair_texts(r@) =~= pairs_of(self.industries_of(sector@)));
                r
            },
        }
    }

    // ─── Lookups ─────────────────────────────────────────────────────────────

    /// The name of a ticker: that of a sector before that of an industry.
    pub fn name_of(&self, ticker: &str) -> (r: Option<&str>)
        ensures
            match r {
                Some(name) => first_name(self.sectors@ + self.industries(), ticker@) == Some(name@),
                None => first_name(self.sectors@ + self.industries(), ticker@) is None,
            },
    {
        let entries = self.industry_entries();
        let ghost all = self.sectors@ + self.industries();
        let n = self.sectors.len();
        let mut i: usize = 0;
        assert(all.skip(0) =~= all);
        while i < n
            invariant
                n == self.sectors@.len(),
                i <= n,
                all == self.sectors@ + self.industries(),
                first_name(all, ticker@) == first_name(all.skip(i as int), ticker@),
            decreases n - i,
        {
            assert(all.skip(i as int)[0] == self.sectors@[i as int]);
            assert(all.skip(i as int).drop_first() =~= all.skip(i + 1));
            if same_text(self.sectors[i].ticker.as_str(), ticker) {
                return Some(self.sectors[i].name.as_str());
            }
            i += 1;
        }
        let mut i: usize = 0;
        while i < entries.len()
            invariant
                n == self.sectors@.len(),
                i <= entries@.len(),
                behind(entries@) == self.industries(),
                all == self.sectors@ + self.industries(),
                first_name(all, ticker@) == first_name(all.skip(n + i), ticker@),
            decreases entries.len() - i,
        {
            assert(behind(entries@)[i as int] == *entries@[i as int]);
            assert(all.skip(n + i)[0] == *entries@[i as int]);
            assert(all.skip(n + i).drop_first() =~= all.skip(n + i + 1));
            if same_text(entries[i].ticker.as_str(), ticker) {
                return Some(entries[i].name.as_str());
            }
            i += 1;
        }
        assert(behind(entries@).len() == entries@.len());
        None
    }

    /// Whether a ticker is a sector.
    pub fn is_sector(&self, ticker: &str) -> (r: bool)
        ensures
            r == tickers_of(self.sectors@).contains(ticker@),
    {
        has_ticker(&self.sectors, ticker)
    }
}

fn entry_pairs(entries: &Vec<TickerEntry>) -> (r: Vec<(&str, &str)>)
    ensures
        pair_texts(r@) == pairs_of(entries@),
{
    let mut r: Vec<(&str, &str)> = Vec::new();
    let mut i: usize = 0;
    while i < entries.len()
        invariant
            i <= entries@.len(),
            r@.len() == i,
            forall|k: int|
                0 <= k < i ==> (#[trigger] r@[k]).0@ == entries@[k].ticker@ && r@[k].1@ == entries@[k].name@,
        decreases entries.len() - i,
    {
        r.push((entries[i].ticker.as_str(), entries[i].name.as_str()));
        i += 1;
    }
    assert(pair_texts(r@) =~= pairs_of(entries@));
    r
}

/// Appends the texts that are not there yet.
fn push_distinct<'a>(r: &mut Vec<&'a str>, more: &Vec<&'a str>, Ghost(seen): Ghost<Seq<Seq<char>>>)
    requires
        texts(old(r)@) == distinct(seen),
    ensures
        texts(final(r)@) == distinct(seen + texts(more@)),
{
    let mut i: usize = 0;
    assert(seen + texts(more@.take(0)) =~= seen);
    while i < more.len()
        invariant
            i <= more@.len(),
            texts(r@) == distinct(seen + texts(more@.take(i as int))),
        decreases more.len() - i,
    {
        let text = more[i];
        let ghost all = seen + texts(more@.take(i + 1));
        assert(all.drop_last() =~= seen + texts(more@.take(i as int)));
        assert(all.last() == text@);
        let mut known = false;
        let mut k: usize = 0;
        while k < r.len()
            invariant
                k <= r@.len(),
                known == exists|j: int| 0 <= j < k && (#[trigger] r@[j])@ == text@,
            decreases r.len() - k,
        {
            if same_text(r[k], text) {
                known = true;
            }
            k += 1;
        }
        proof {
            if known {
                let j = choose|j: int| 0 <= j < r@.len() && (#[trigger] r@[j])@ == text@;
                assert(texts(r@)[j] == text@);
            } else if texts(r@).contains(text@) {
                let j = choose|j: int| 0 <= j < r@.len() && texts(r@)[j] == text@;
                assert(r@[j]@ == text@);
            }
        }
        let ghost held = texts(r@);
        if !known {
            r.push(text);
            assert(texts(r@) =~= held.push(text@));
        }
        i += 1;
    }
    assert(more@.take(i as int) =~= more@);
}

// ─── Laws ────────────────────────────────────────────────────────────────────

/// Leaving out what came before keeps every text, once, and the first one first.
pub proof fn distinct_keeps_each_once(all: Seq<Seq<char>>)
    ensures
        distinct(all).no_duplicates(),
        forall|t: Seq<char>| #[trigger] distinct(all).contains(t) <==> all.contains(t),
        all.len() > 0 ==> distinct(all).len() > 0 && distinct(all)[0] == all[0],
    decreases all.len(),
{
    if all.len() > 0 {
        let shorter = all.drop_last();
        let rest = distinct(shorter);
        let r = distinct(all);
        distinct_keeps_each_once(shorter);
        assert forall|t: Seq<char>| #[trigger] r.contains(t) <==> all.contains(t) by {
            let _ = rest.contains(t);
            if all.contains(t) {
                let k = choose|k: int| 0 <= k < all.len() && all[k] == t;
                if k < shorter.len() {
                    assert(shorter[k] == t);
                    let j = choose|j: int| 0 <= j < rest.len() && rest[j] == t;
                    assert(r[j] == t);
                } else if rest.contains(t) {
                    let j = choose|j: int| 0 <= j < rest.len() && rest[j] == t;
                    assert(r[j] == t);
                } else {
                    assert(r[rest.len() as int] == t);
                }
            }
            if r.contains(t) {
                let j = choose|j: int| 0 <= j < r.len() && r[j] == t;
                if j < rest.len() {
                    assert(rest[j] == t);
                    let k = choose|k: int| 0 <= k < shorter.len() && shorter[k] == t;
                    assert(all[k] == t);
                } else {
                    assert(all[all.len() - 1] == t);
                }
            }
        }
        assert(r.no_duplicates()) by {
            assert forall|a: int, b: int| 0 <= a < r.len() && 0 <= b < r.len() && a != b implies r[a] != r[b] by {
                if a < rest.len() {
                    assert(rest[a] == r[a]);
                }
                if b < rest.len() {
                    assert(rest[b] == r[b]);
                }
            }
        }
        if shorter.len() > 0 {
            assert(shorter[0] == all[0]);
        } else {
            assert(rest =~= Seq::empty());
        }
    }
}

/// The universe lists the benchmark first, and each ticker of the benchmark, the
/// sectors and the industries once.
pub proof fn universe_lists_each_ticker_once(config: Config)
    ensures
        ({
            let listed = distinct(config.universe());
            &&& listed.len() > 0
            &&& listed[0] == config.benchmark@
            &&& listed.no_duplicates()
            &&& forall|t: Seq<char>| #[trigger]
                listed.contains(t) <==> t == config.benchmark@ || tickers_of(config.sectors@).contains(t) || tickers_of(
                    config.industries(),
                ).contains(t)
        }),
{
    let all = config.universe();
    let first = seq![config.benchmark@];
    let (sectors, industries) = (tickers_of(config.sectors@), tickers_of(config.industries()));
    let n = sectors.len() as int;
    distinct_keeps_each_once(all);
    assert(all[0] == config.benchmark@);
    assert forall|t: Seq<char>| #[trigger] distinct(all).contains(t) <==> t == config.benchmark@ || sectors.contains(t)
        || industries.contains(t) by {
        if all.contains(t) {
            let k = choose|k: int| 0 <= k < all.len() && all[k] == t;
            if 1 <= k < 1 + n {
                assert(sectors[k - 1] == t);
            } else if k >= 1 + n {
                assert(industries[k - 1 - n] == t);
            }
        }
        if sectors.contains(t) {
            let k = choose|k: int| 0 <= k < sectors.len() && sectors[k] == t;
            assert(all[1 + k] == t);
        }
        if industries.contains(t) {
            let k = choose|k: int| 0 <= k < industries.len() && industries[k] == t;
            assert(all[1 + n + k] == t);
        }
    }
}

proof fn lemma_flattened(groups: Seq<(String, Vec<TickerEntry>)>, i: int) -> (g: int)
    requires
        0 <= i < flattened(groups).len(),
    ensures
        0 <= g < groups.len(),
        groups[g].1@.contains(flattened(groups)[i]),
    decreases groups.len(),
{
    let before = flattened(groups.drop_last());
    if i < before.len() {
        let g = lemma_flattened(groups.drop_last(), i);
        assert(flattened(groups)[i] == before[i]);
        g
    } else {
        assert(groups.last().1@[i - before.len()] == flattened(groups)[i]);
        groups.len() - 1
    }
}

/// Every industry is one of the industries of a sector.
pub proof fn industries_belong_to_sectors(config: Config, i: int)
    requires
        config.wf(),
        0 <= i < config.industries().len(),
    ensures
        exists|k: int|
            0 <= k < config.sectors@.len() && config.industries_of((#[trigger] config.sectors@[k]).ticker@).contains(
                config.industries()[i],
            ),
{
    let groups = config.industry_groups;
    let g = lemma_flattened(groups.entries@, i);
    let key = groups.entries@[g].0@;
    groups.lemma_place(g);
    assert(tickers_of(config.sectors@).contains(key));
    let k = choose|k: int| 0 <= k < config.sectors@.len() && tickers_of(config.sectors@)[k] == key;
    assert(config.sectors@[k].ticker@ == key);
}

/// A ticker has a name if it is one of the entries.
pub proof fn known_tickers_have_names(entries: Seq<TickerEntry>, ticker: Seq<char>)
    ensures
        first_name(entries, ticker) is Some <==> tickers_of(entries).contains(ticker),
        first_name(entries, ticker) matches Some(name) ==> pairs_of(entries).contains((ticker, name)),
    decreases entries.len(),
{
    if entries.len() > 0 {
        let rest = entries.drop_first();
        known_tickers_have_names(rest, ticker);
        if entries[0].ticker@ == ticker {
            assert(tickers_of(entries)[0] == ticker);
            assert(pairs_of(entries)[0] == (ticker, entries[0].name@));
        } else {
            if tickers_of(rest).contains(ticker) {
                let k = choose|k: int| 0 <= k < rest.len() && tickers_of(rest)[k] == ticker;
                assert(tickers_of(entries)[k + 1] == ticker);
            }
            if tickers_of(entries).contains(ticker) {
                let k = choose|k: int| 0 <= k < entries.len() && tickers_of(entries)[k] == ticker;
                assert(tickers_of(rest)[k - 1] == ticker);
            }
            if first_name(rest, ticker) is Some {
                let name = first_name(rest, ticker)->0;
                let k = choose|k: int| 0 <= k < rest.len() && pairs_of(rest)[k] == (ticker, name);
                assert(pairs_of(entries)[k + 1] == (ticker, name));
            }
        }
    }
}

/// A file is refused just where it has a group of a ticker that is no sector,
/// and the refusal names such a group.
pub proof fn groups_need_sectors(sectors: Seq<Seq<char>>, keys: Seq<Seq<char>>)
    ensures
        first_unknown(sectors, keys) is None <==> forall|k: int| 0 <= k < keys.len() ==> sectors.contains(#[trigger] keys[k]),
        first_unknown(sectors, keys) matches Some(key) ==> keys.contains(key) && !sectors.contains(key),
    decreases keys.len(),
{
    if keys.len() > 0 {
        let rest = keys.drop_first();
        groups_need_sectors(sectors, rest);
        if !sectors.contains(keys[0]) {
            assert(keys.contains(keys[0]));
        } else {
            if first_unknown(sectors, rest) is Some {
                let key = first_unknown(sectors, rest)->0;
                let k = choose|k: int| 0 <= k < rest.len() && rest[k] == key;
                assert(keys[k + 1] == key);
            } else {
                assert forall|k: int| 0 <= k < keys.len() implies sectors.contains(#[trigger] keys[k]) by {
                    if k > 0 {
                        assert(sectors.contains(rest[k - 1]));
                    }
                }
            }
        }
    }
}

} // verus!
