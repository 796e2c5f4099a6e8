use sector_rotation::config::{Config, ConfigError, ConfigFile, TickerEntry};
use sector_rotation::text::{is_text, push_decimal, same_text};
use sector_rotation::tickers::TickerMap;

fn entry(ticker: &str, name: &str) -> TickerEntry {
    TickerEntry { ticker: ticker.to_string(), name: name.to_string(), tv_sectors: vec![], tv_industries: vec![] }
}

fn file(groups: Vec<(&str, Vec<TickerEntry>)>) -> ConfigFile {
    let mut industry_groups = TickerMap::new();
    for (key, group) in groups {
        industry_groups.insert(key.to_string(), group);
    }
    ConfigFile {
        benchmark: "SPY".to_string(),
        sectors: vec![entry("XLK", "Technology"), entry("XLE", "Energy")],
        industry_groups,
    }
}

fn config() -> Config {
    Config::load(file(vec![
        ("XLE", vec![entry("XOP", "Oil & Gas"), entry("XLK", "Not the sector")]),
        ("XLK", vec![entry("SMH", "Semiconductors"), entry("SPY", "Again"), entry("XOP", "Second")]),
    ]))
    .unwrap()
}

#[test]
fn load_takes_over_the_file() {
    let c = config();
    assert_eq!(c.benchmark, "SPY");
    assert_eq!(c.sectors.len(), 2);
    assert_eq!(c.industry_groups.len(), 2);
    assert!(Config::load(file(vec![])).is_ok());
}

#[test]
fn load_refuses_a_group_without_a_sector() {
    let refused = Config::load(file(vec![("XLK", vec![]), ("XLF", vec![entry("KRE", "Banks")]), ("XLV", vec![])]));
    let error = refused.unwrap_err();
    assert!(matches!(&error, ConfigError::UnknownSector(key) if key == "XLF"));
    assert_eq!(
        error.message(),
        "config.toml: [industry_groups.XLF] references unknown sector 'XLF'. Add a matching [[sectors]] entry first."
    );
}

#[test]
fn tickers_come_in_the_order_of_the_file() {
    let c = config();
    assert_eq!(c.sector_tickers(), vec!["XLK", "XLE"]);
    assert_eq!(c.industry_tickers(), vec!["XOP", "XLK", "SMH", "SPY", "XOP"]);
    assert_eq!(c.sector_pairs(), vec![("XLK", "Technology"), ("XLE", "Energy")]);
    assert_eq!(c.industry_pairs()[2], ("SMH", "Semiconductors"));
    assert_eq!(c.industry_pairs_for("XLE"), vec![("XOP", "Oil & Gas"), ("XLK", "Not the sector")]);
    assert!(c.industry_pairs_for("XLF").is_empty());
}

#[test]
fn all_tickers_lists_each_once_with_the_benchmark_first() {
    assert_eq!(config().all_tickers(), vec!["SPY", "XLK", "XLE", "XOP", "SMH"]);
}

#[test]
fn sectors_are_named_before_industries() {
    let c = config();
    assert_eq!(c.name_of("XLK"), Some("Technology"));
    assert_eq!(c.name_of("XOP"), Some("Oil & Gas"));
    assert_eq!(c.name_of("SPY"), Some("Again"));
    assert_eq!(c.name_of("QQQ"), None);
    assert!(c.is_sector("XLE") && !c.is_sector("SMH") && !c.is_sector(""));
}

#[test]
fn texts_are_compared_whole() {
    assert!(same_text("", ""));
    assert!(same_text("naïve", "naïve"));
    assert!(!same_text("naïve", "naive"));
    assert!(!same_text("week", "weekly"));
    assert!(is_text(&Some("weekly".to_string()), "weekly"));
    assert!(!is_text(&Some("Weekly".to_string()), "weekly"));
    assert!(!is_text(&None, ""));
}

#[test]
fn decimals_are_written_as_usual() {
    for n in [0, 7, 10, 1_700_000_000, -1, -86_400, i64::MAX, i64::MIN] {
        let mut s = "n=".to_string();
        push_decimal(&mut s, n);
        assert_eq!(s, format!("n={n}"));
    }
}

#[test]
fn every_industry_hangs_under_a_sector() {
    let c = config();
    for pair in c.industry_pairs() {
        assert!(c.sector_tickers().iter().any(|s| c.industry_pairs_for(s).contains(&pair)));
    }
}

#[test]
fn a_clone_of_a_configuration_holds_the_same() {
    let c = config();
    let copy = c.clone();
    assert_eq!(copy.all_tickers(), c.all_tickers());
    assert_eq!(copy.industry_pairs(), c.industry_pairs());
    assert_eq!(copy.name_of("SMH"), Some("Semiconductors"));
}
