use kraken_exporter::labels::{resolve, Strategy};
use kraken_exporter::model::AssetPair;

fn pair(wsname: &str, base: &str, quote: &str) -> AssetPair {
    AssetPair {
        wsname: String::from(wsname),
        base: String::from(base),
        quote: String::from(quote),
    }
}

#[test]
fn labels_from_the_codes_keep_the_base_and_strip_one_character_of_the_quote() {
    let labels = resolve(Strategy::FromPairs, &pair("XBT/USD", "XXBT", "ZUSD")).unwrap();
    assert_eq!(labels.currency, "XXBT");
    assert_eq!(labels.reference_currency, "USD");
    assert_eq!(labels.pair, "XBT/USD");
    let labels = resolve(Strategy::FromPairs, &pair("ETH/EUR", "XETH", "ZEUR")).unwrap();
    assert_eq!(labels.currency, "XETH");
    assert_eq!(labels.reference_currency, "EUR");
    assert_eq!(labels.pair, "ETH/EUR");
    let labels = resolve(Strategy::FromPairs, &pair("ADA/USDT", "ADA", "USDT")).unwrap();
    assert_eq!(labels.reference_currency, "SDT");
}

#[test]
fn labels_from_the_codes_are_missing_where_one_would_be_empty() {
    assert!(resolve(Strategy::FromPairs, &pair("XBT/USD", "", "ZUSD")).is_none());
    assert!(resolve(Strategy::FromPairs, &pair("XBT/USD", "XXBT", "Z")).is_none());
    assert!(resolve(Strategy::FromPairs, &pair("XBT/USD", "XXBT", "")).is_none());
    assert!(resolve(Strategy::FromPairs, &pair("", "XXBT", "ZUSD")).is_none());
    assert!(resolve(Strategy::FromPairs, &pair("no slash", "XXBT", "ZUSD")).is_some());
}

#[test]
fn labels_from_the_name_are_its_two_halves() {
    let labels = resolve(Strategy::FromAssets, &pair("XBT/USD", "XXBT", "ZUSD")).unwrap();
    assert_eq!(labels.currency, "XBT");
    assert_eq!(labels.reference_currency, "USD");
    assert_eq!(labels.pair, "XBT/USD");
    let labels = resolve(Strategy::FromAssets, &pair("é/ü", "", "")).unwrap();
    assert_eq!(labels.currency, "é");
    assert_eq!(labels.reference_currency, "ü");
}

#[test]
fn labels_from_the_name_are_missing_where_it_has_not_one_slash_between_two_parts() {
    for name in ["", "XBTUSD", "/USD", "XBT/", "/", "XBT/USD/EUR", "XBT//USD", "//"] {
        assert!(resolve(Strategy::FromAssets, &pair(name, "XXBT", "ZUSD")).is_none(), "{}", name);
    }
}
