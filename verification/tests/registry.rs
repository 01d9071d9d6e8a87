use kraken_exporter::gauges::Sample;
use kraken_exporter::labels::Labels;
use kraken_exporter::registry::Registry;

fn labels(currency: &str, reference: &str, pair: &str) -> Labels {
    Labels {
        currency: String::from(currency),
        reference_currency: String::from(reference),
        pair: String::from(pair),
    }
}

fn sample(name: &str, l: &Labels, value: &str) -> Sample {
    Sample { name: String::from(name), labels: l.clone(), value: String::from(value) }
}

#[test]
fn a_new_registry_renders_nothing() {
    let registry = Registry::new();
    assert_eq!(registry.len(), 0);
    assert_eq!(registry.render(), "");
}

#[test]
fn a_registered_family_without_samples_renders_its_type_line() {
    let mut registry = Registry::new();
    registry.register("exchange_rate");
    assert_eq!(registry.render(), "# TYPE exchange_rate gauge\n");
}

#[test]
fn registering_a_family_again_changes_nothing() {
    let mut registry = Registry::new();
    registry.register("exchange_rate");
    registry.register("exchange_volume");
    let once = registry.render();
    registry.register("exchange_rate");
    assert_eq!(registry.render(), once);
    assert_eq!(once, "# TYPE exchange_rate gauge\n# TYPE exchange_volume gauge\n");
}

#[test]
fn set_writes_a_sample_with_its_three_labels() {
    let mut registry = Registry::new();
    let l = labels("XXBT", "USD", "XBT/USD");
    registry.set(sample("exchange_rate", &l, "30000.1"));
    assert_eq!(
        registry.render(),
        "# TYPE exchange_rate gauge\nexchange_rate{currency=\"XXBT\",reference_currency=\"USD\",pair=\"XBT/USD\"} 30000.1\n"
    );
    assert_eq!(registry.value("exchange_rate", &l), Some(String::from("30000.1")));
    assert_eq!(registry.value("exchange_volume", &l), None);
    assert_eq!(registry.value("exchange_rate", &labels("XXBT", "EUR", "XBT/EUR")), None);
}

#[test]
fn the_last_writer_wins_and_the_place_stays() {
    let mut registry = Registry::new();
    let a = labels("XXBT", "USD", "XBT/USD");
    let b = labels("XETH", "EUR", "ETH/EUR");
    registry.set(sample("exchange_rate", &a, "1"));
    registry.set(sample("exchange_rate", &b, "2"));
    registry.set(sample("exchange_rate", &a, "3"));
    assert_eq!(registry.len(), 2);
    assert_eq!(registry.value("exchange_rate", &a), Some(String::from("3")));
    assert_eq!(
        registry.render(),
        "# TYPE exchange_rate gauge\nexchange_rate{currency=\"XXBT\",reference_currency=\"USD\",pair=\"XBT/USD\"} 3\nexchange_rate{currency=\"XETH\",reference_currency=\"EUR\",pair=\"ETH/EUR\"} 2\n"
    );
}

#[test]
fn the_samples_of_a_family_stand_together_in_the_order_of_registration() {
    let mut registry = Registry::new();
    let a = labels("A", "B", "A/B");
    let c = labels("C", "D", "C/D");
    registry.register("exchange_volume");
    registry.set(sample("exchange_rate", &a, "1"));
    registry.set(sample("exchange_volume", &a, "2"));
    registry.set(sample("exchange_rate", &c, "3"));
    registry.set(sample("exchange_volume", &c, "4"));
    assert_eq!(
        registry.render(),
        "# TYPE exchange_volume gauge\n\
         exchange_volume{currency=\"A\",reference_currency=\"B\",pair=\"A/B\"} 2\n\
         exchange_volume{currency=\"C\",reference_currency=\"D\",pair=\"C/D\"} 4\n\
         # TYPE exchange_rate gauge\n\
         exchange_rate{currency=\"A\",reference_currency=\"B\",pair=\"A/B\"} 1\n\
         exchange_rate{currency=\"C\",reference_currency=\"D\",pair=\"C/D\"} 3\n"
    );
}

#[test]
fn label_values_are_escaped() {
    let mut registry = Registry::new();
    registry.set(sample("g", &labels("a\"b", "c\\d", "e\nf"), "1"));
    assert_eq!(
        registry.render(),
        "# TYPE g gauge\ng{currency=\"a\\\"b\",reference_currency=\"c\\\\d\",pair=\"e\\nf\"} 1\n"
    );
}

#[test]
fn set_all_sets_the_samples_in_their_order() {
    let mut registry = Registry::new();
    let a = labels("A", "B", "A/B");
    registry.set_all(vec![
        sample("exchange_rate", &a, "1"),
        sample("exchange_volume", &a, "2"),
        sample("exchange_rate", &a, "3"),
    ]);
    assert_eq!(registry.len(), 2);
    assert_eq!(registry.value("exchange_rate", &a), Some(String::from("3")));
    assert_eq!(registry.value("exchange_volume", &a), Some(String::from("2")));
}

#[test]
fn setting_the_same_samples_twice_renders_the_same() {
    let a = labels("A", "B", "A/B");
    let list = || {
        vec![
            sample("exchange_rate", &a, "1"),
            sample("exchange_volume", &a, "2"),
            sample("exchange_rate", &a, "3"),
        ]
    };
    let mut registry = Registry::new();
    registry.set(sample("exchange_rate", &a, "0"));
    registry.set_all(list());
    let once = registry.render();
    registry.set_all(list());
    assert_eq!(registry.render(), once);
}
