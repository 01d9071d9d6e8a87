use kraken_exporter::discovery::{
    candidate_codes, holds, pair_codes, query, reference, select, ticker_url, ASSETS, ASSET_PAIRS,
    REFERENCES, TICKER,
};
use kraken_exporter::labels::Strategy;
use kraken_exporter::model::{Asset, AssetPair};
use kraken_exporter::table::Table;

fn pairs(codes: &[&str]) -> Table<AssetPair> {
    let mut table = Table::new();
    for code in codes {
        table.insert(
            String::from(*code),
            AssetPair {
                wsname: String::from("A/B"),
                base: String::from("A"),
                quote: String::from("ZB"),
            },
        );
    }
    table
}

fn assets(names: &[&str]) -> Table<Asset> {
    let mut table = Table::new();
    for name in names {
        table.insert(
            format!("X{}", name),
            Asset {
                aclass: String::from("currency"),
                altname: String::from(*name),
                decimals: 10,
                display_decimals: 5,
            },
        );
    }
    table
}

fn strings(list: &[&str]) -> Vec<String> {
    list.iter().map(|s| String::from(*s)).collect()
}

#[test]
fn the_addresses_are_those_of_the_public_endpoints() {
    assert_eq!(ASSET_PAIRS, "https://api.kraken.com/0/public/AssetPairs");
    assert_eq!(ASSETS, "https://api.kraken.com/0/public/Assets");
    assert_eq!(TICKER, "https://api.kraken.com/0/public/Ticker");
}

#[test]
fn the_reference_currencies_come_in_their_order() {
    let all: Vec<&str> = (0..REFERENCES).map(reference).collect();
    assert_eq!(
        all,
        vec!["AUD", "CAD", "BTC", "ETH", "EUR", "GBP", "JPY", "USD", "XBT", "USDT", "USDC"]
    );
}

#[test]
fn every_asset_gives_three_candidates_for_each_reference_currency() {
    let codes = candidate_codes(&assets(&["XBT", "ADA"]));
    assert_eq!(codes.len(), 66);
    assert_eq!(&codes[0..3], &strings(&["XBTAUD", "XXBTXAUD", "XXBTZAUD"])[..]);
    assert_eq!(&codes[21..24], &strings(&["XBTUSD", "XXBTXUSD", "XXBTZUSD"])[..]);
    assert_eq!(&codes[30..33], &strings(&["XBTUSDC", "XXBTXUSDC", "XXBTZUSDC"])[..]);
    assert_eq!(&codes[33..36], &strings(&["ADAAUD", "XADAXAUD", "XADAZAUD"])[..]);
    assert_eq!(codes[65], "XADAZUSDC");
    assert!(candidate_codes(&assets(&[])).is_empty());
}

#[test]
fn select_keeps_the_listed_codes_once_each() {
    let listed = pairs(&["B", "A", "C"]);
    let picked = select(&strings(&["A", "X", "B", "A", "B", "C", "Y"]), &listed);
    assert_eq!(picked, strings(&["A", "B", "C"]));
    assert!(select(&strings(&["X"]), &listed).is_empty());
}

#[test]
fn holds_tells_whether_a_text_is_in_the_list() {
    let list = strings(&["A", "B"]);
    assert!(holds(&list, &String::from("B")));
    assert!(!holds(&list, &String::from("C")));
}

#[test]
fn by_the_pairs_every_listed_code_is_asked_for() {
    let listed = pairs(&["XXBTZUSD", "XETHZEUR", "USDTZUSD"]);
    assert_eq!(pair_codes(&listed), strings(&["XXBTZUSD", "XETHZEUR", "USDTZUSD"]));
    let codes = query(Strategy::FromPairs, &listed, &assets(&["XBT"]));
    assert_eq!(codes, strings(&["XXBTZUSD", "XETHZEUR", "USDTZUSD"]));
}

#[test]
fn by_the_assets_the_candidates_that_are_listed_are_asked_for() {
    let listed = pairs(&["XXBTZUSD", "XETHZEUR", "USDTUSD", "XETHXXBT", "ADAEUR", "DOTJPZ"]);
    let codes = query(Strategy::FromAssets, &listed, &assets(&["XBT", "ETH", "USDT", "ADA"]));
    assert_eq!(codes, strings(&["XXBTZUSD", "XETHZEUR", "XETHXXBT", "USDTUSD", "ADAEUR"]));
}

#[test]
fn by_the_assets_a_code_that_two_candidates_spell_is_asked_for_once() {
    // Two assets with the same display name give every candidate twice.
    let mut twice = Table::new();
    for code in ["XXBT", "XBT.S"] {
        twice.insert(
            String::from(code),
            Asset {
                aclass: String::from("currency"),
                altname: String::from("XBT"),
                decimals: 10,
                display_decimals: 5,
            },
        );
    }
    let codes = query(Strategy::FromAssets, &pairs(&["XBTUSDT", "XXBTZUSD"]), &twice);
    assert_eq!(codes, strings(&["XXBTZUSD", "XBTUSDT"]));
}

#[test]
fn the_ticker_address_lists_the_codes_with_commas() {
    assert_eq!(
        ticker_url(&strings(&["XXBTZUSD", "XETHZEUR"])),
        "https://api.kraken.com/0/public/Ticker?pair=XXBTZUSD,XETHZEUR"
    );
    assert_eq!(
        ticker_url(&strings(&["XXBTZUSD"])),
        "https://api.kraken.com/0/public/Ticker?pair=XXBTZUSD"
    );
    assert_eq!(ticker_url(&strings(&[])), "https://api.kraken.com/0/public/Ticker?pair=");
}
