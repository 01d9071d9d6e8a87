use kraken_exporter::gauges::Sample;
use kraken_exporter::labels::Labels;
use kraken_exporter::registry::Registry;
use kraken_exporter::scrape::read;

fn sample(name: &str, currency: &str, reference: &str, pair: &str, value: &str) -> Sample {
    Sample {
        name: String::from(name),
        labels: Labels {
            currency: String::from(currency),
            reference_currency: String::from(reference),
            pair: String::from(pair),
        },
        value: String::from(value),
    }
}

fn plain(samples: &[Sample]) -> Vec<(String, String, String, String, String)> {
    let mut all: Vec<_> = samples
        .iter()
        .map(|s| {
            (
                s.name.clone(),
                s.labels.currency.clone(),
                s.labels.reference_currency.clone(),
                s.labels.pair.clone(),
                s.value.clone(),
            )
        })
        .collect();
    all.sort();
    all
}

#[test]
fn read_takes_a_line_apart() {
    let samples = read(
        "# TYPE exchange_rate gauge\nexchange_rate{currency=\"XXBT\",reference_currency=\"USD\",pair=\"XBT/USD\"} 30000.1\n",
    )
    .unwrap();
    assert_eq!(samples.len(), 1);
    assert_eq!(samples[0].name, "exchange_rate");
    assert_eq!(samples[0].labels.currency, "XXBT");
    assert_eq!(samples[0].labels.reference_currency, "USD");
    assert_eq!(samples[0].labels.pair, "XBT/USD");
    assert_eq!(samples[0].value, "30000.1");
}

#[test]
fn read_skips_comments_and_empty_lines() {
    assert_eq!(read("").unwrap().len(), 0);
    assert_eq!(read("\n\n# HELP x y\n#\n").unwrap().len(), 0);
}

#[test]
fn read_undoes_the_escapes() {
    let samples =
        read("g{currency=\"a\\\"b\",reference_currency=\"c\\\\d\",pair=\"e\\nf\"} 1\n").unwrap();
    assert_eq!(samples[0].labels.currency, "a\"b");
    assert_eq!(samples[0].labels.reference_currency, "c\\d");
    assert_eq!(samples[0].labels.pair, "e\nf");
}

#[test]
fn read_refuses_what_is_no_exposition_of_these_gauges() {
    for text in [
        "g{currency=\"a\",reference_currency=\"b\",pair=\"c\"} 1",
        "g 1\n",
        "g{} 1\n",
        "g{currency=\"a\"} 1\n",
        "g{currency=\"a\",reference_currency=\"b\",pair=\"c\"}1\n",
        "g{currency=\"a\",reference_currency=\"b\",pair=\"c} 1\n",
        "g{currency=\"a\\x\",reference_currency=\"b\",pair=\"c\"} 1\n",
        "g{currency=\"a\\",
        "g{pair=\"c\",currency=\"a\",reference_currency=\"b\"} 1\n",
        "http_requests_total{method=\"GET\",path=\"/\",status=\"200\"} 1\n",
    ] {
        assert!(read(text).is_none(), "{}", text);
    }
}

#[test]
fn what_was_rendered_is_read_back() {
    let list = vec![
        sample("exchange_rate", "XXBT", "USD", "XBT/USD", "30000.1"),
        sample("exchange_volume", "XXBT", "USD", "XBT/USD", "1.0"),
        sample("exchange_rate", "XETH", "EUR", "ETH/EUR", "2000"),
        sample("exchange_trades", "a\"b\\c\nd", "", "{}", "7"),
        sample("exchange_volume", "XETH", "EUR", "ETH/EUR", "1e-7"),
        sample("exchange_rate", "XXBT", "USD", "XBT/USD", "30000.2"),
    ];
    let mut registry = Registry::new();
    registry.register("exchange_empty");
    registry.set_all(list.clone());
    let text = registry.render();
    let back = read(&text).unwrap();
    assert_eq!(back.len(), 5);
    let mut expected = list;
    expected.remove(0);
    assert_eq!(plain(&back), plain(&expected));
}
