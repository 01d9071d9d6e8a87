use kraken_exporter::error::RestError;
use kraken_exporter::json::Json;
use kraken_exporter::labels::{Labels, Strategy};
use kraken_exporter::state::{listen_port, Action, Event, Input, Phase, Reply, State};

const PAIRS: &str = "{\"error\":[],\"result\":{\"XXBTZUSD\":{\"wsname\":\"XBT/USD\",\"base\":\"XXBT\",\"quote\":\"ZUSD\"}}}";

const TICKER: &str = "{\"error\":[],\"result\":{\"XXBTZUSD\":{\"c\":[\"30000.1\"],\"v\":[\"1.0\",\"2.0\"],\"p\":[\"29500\",\"29400\"],\"t\":[10,20]}}}";

fn ok(body: &str) -> Event {
    Event::Reply(Reply::Status(200, body.as_bytes().to_vec()))
}

fn fetch_of(action: Action) -> String {
    match action {
        Action::Fetch(url) => url,
        other => panic!("no request: {:?}", other),
    }
}

/// Runs one cycle by the pairs, with the bodies of the two answers.
fn cycle(state: &mut State, pairs: &str, ticker: &str) -> Action {
    assert_eq!(fetch_of(state.generate(Event::Start)), "https://api.kraken.com/0/public/AssetPairs");
    let _ = fetch_of(state.generate(ok(pairs)));
    assert!(matches!(state.generate(ok(ticker)), Action::Publish(_)));
    state.generate(Event::Publish)
}

fn xbt_usd() -> Labels {
    Labels {
        currency: String::from("XXBT"),
        reference_currency: String::from("USD"),
        pair: String::from("XBT/USD"),
    }
}

#[test]
fn the_timeout_is_read_or_defaults_to_sixty() {
    assert_eq!(State::new("60").timeout(), 60);
    assert_eq!(State::new("5").timeout(), 5);
    assert_eq!(State::new("+5").timeout(), 5);
    assert_eq!(State::new("18446744073709551615").timeout(), u64::MAX);
    for text in ["", "abc", "-1", "1.5", "18446744073709551616", " 60"] {
        assert_eq!(State::new(text).timeout(), 60, "{}", text);
    }
    assert_eq!(State::with_strategy("7", Strategy::FromAssets).timeout(), 7);
}

#[test]
fn the_port_is_read_or_defaults_to_8080() {
    assert_eq!(listen_port("8080"), 8080);
    assert_eq!(listen_port("9000"), 9000);
    assert_eq!(listen_port("0"), 0);
    assert_eq!(listen_port("65535"), 65535);
    for text in ["65536", "", "http", "-1", "80.0"] {
        assert_eq!(listen_port(text), 8080, "{}", text);
    }
}

#[test]
fn a_new_exporter_is_idle_and_goes_by_the_pairs() {
    let state = State::new("60");
    assert!(matches!(state.phase(), Phase::Idle));
    assert!(!state.is_running());
    assert_eq!(state.strategy(), Strategy::FromPairs);
    assert_eq!(state.registry().len(), 0);
    assert_eq!(state.render(), "");
}

#[test]
fn get_maps_the_status_to_the_body_or_an_error() {
    let state = State::new("60");
    assert_eq!(state.get(Reply::Status(200, b"body".to_vec())), Ok(b"body".to_vec()));
    assert_eq!(state.get(Reply::Status(200, Vec::new())), Ok(Vec::new()));
    assert_eq!(state.get(Reply::Status(401, b"x".to_vec())), Err(RestError::Unauthorized));
    assert_eq!(state.get(Reply::Status(403, b"x".to_vec())), Err(RestError::Forbidden));
    assert_eq!(state.get(Reply::Status(404, b"x".to_vec())), Err(RestError::NotFound));
    for code in [100u16, 201, 204, 301, 400, 402, 405, 429, 500, 502, 503, 0, 65535] {
        assert_eq!(state.get(Reply::Status(code, b"x".to_vec())), Err(RestError::Unknown));
    }
    assert_eq!(state.get(Reply::Transport), Err(RestError::Transport));
}

#[test]
fn read_turns_a_good_answer_into_a_document() {
    let state = State::new("60");
    assert!(matches!(state.read(Event::Start), Input::Start));
    assert!(matches!(state.read(Event::Publish), Input::Publish));
    assert!(matches!(state.read(Event::Deadline), Input::Deadline));
    assert!(matches!(state.read(ok("{}")), Input::Document(Json::Object(_))));
    assert!(matches!(state.read(ok("{")), Input::Failure(RestError::Decode)));
    assert!(matches!(
        state.read(Event::Reply(Reply::Status(404, b"{}".to_vec()))),
        Input::Failure(RestError::NotFound)
    ));
    assert!(matches!(state.read(Event::Reply(Reply::Transport)), Input::Failure(RestError::Transport)));
}

#[test]
fn single_pair_happy_path() {
    let mut state = State::new("60");
    assert_eq!(fetch_of(state.generate(Event::Start)), "https://api.kraken.com/0/public/AssetPairs");
    assert!(matches!(state.phase(), Phase::DiscoveringPairs(None)));
    assert!(state.is_running());
    assert_eq!(
        fetch_of(state.generate(ok(PAIRS))),
        "https://api.kraken.com/0/public/Ticker?pair=XXBTZUSD"
    );
    assert!(matches!(state.phase(), Phase::FetchingTickers(_)));
    assert!(matches!(state.generate(ok(TICKER)), Action::Publish(short) if short.is_empty()));
    assert!(matches!(state.phase(), Phase::Publishing(list) if list.len() == 9));
    assert_eq!(state.render(), "");
    assert!(matches!(state.generate(Event::Publish), Action::Done(Ok(()))));
    assert!(matches!(state.phase(), Phase::Idle));
    let l = xbt_usd();
    let registry = state.registry();
    assert_eq!(registry.value("exchange_rate", &l), Some(String::from("30000.1")));
    assert_eq!(registry.value("exchange_volume", &l), Some(String::from("1.0")));
    assert_eq!(registry.value("exchange_volume_last_day", &l), Some(String::from("2.0")));
    assert_eq!(registry.value("exchange_volume_daily", &l), Some(String::from("2.0")));
    assert_eq!(registry.value("exchange_rate_average", &l), Some(String::from("29500")));
    assert_eq!(registry.value("exchange_rate_average_last_day", &l), Some(String::from("29400")));
    assert_eq!(registry.value("exchange_trades", &l), Some(String::from("10")));
    assert_eq!(registry.value("exchange_trades_last_day", &l), Some(String::from("20")));
    assert_eq!(registry.value("exchange_trades_daily", &l), Some(String::from("20")));
    let text = state.render();
    assert!(text.contains(
        "exchange_rate{currency=\"XXBT\",reference_currency=\"USD\",pair=\"XBT/USD\"} 30000.1\n"
    ));
    assert!(text.starts_with("# TYPE exchange_rate gauge\n"));
    assert_eq!(text.lines().count(), 18);
}

#[test]
fn two_pairs_with_mixed_class_prefixes() {
    let pairs = "{\"error\":[],\"result\":{\"XETHZEUR\":{\"wsname\":\"ETH/EUR\",\"base\":\"XETH\",\"quote\":\"ZEUR\"},\"USDTUSD\":{\"wsname\":\"USDT/USD\",\"base\":\"USDT\",\"quote\":\"ZUSD\"}}}";
    let ticker = "{\"error\":[],\"result\":{\"XETHZEUR\":{\"c\":[\"2000.5\"],\"v\":[\"1\",\"2\"],\"p\":[\"3\",\"4\"],\"t\":[5,6]},\"USDTUSD\":{\"c\":[\"1.0001\"],\"v\":[\"1\",\"2\"],\"p\":[\"3\",\"4\"],\"t\":[5,6]}}}";
    let mut state = State::new("60");
    let _ = state.generate(Event::Start);
    assert_eq!(
        fetch_of(state.generate(ok(pairs))),
        "https://api.kraken.com/0/public/Ticker?pair=USDTUSD,XETHZEUR"
    );
    assert!(matches!(state.generate(ok(ticker)), Action::Publish(short) if short.is_empty()));
    assert!(matches!(state.generate(Event::Publish), Action::Done(Ok(()))));
    let eth = Labels {
        currency: String::from("XETH"),
        reference_currency: String::from("EUR"),
        pair: String::from("ETH/EUR"),
    };
    let usdt = Labels {
        currency: String::from("USDT"),
        reference_currency: String::from("USD"),
        pair: String::from("USDT/USD"),
    };
    assert_eq!(state.registry().value("exchange_rate", &eth), Some(String::from("2000.5")));
    assert_eq!(state.registry().value("exchange_rate", &usdt), Some(String::from("1.0001")));
    assert_eq!(state.registry().len(), 18);
}

#[test]
fn upstream_404_on_discovery() {
    let mut state = State::new("60");
    assert!(matches!(cycle(&mut state, PAIRS, TICKER), Action::Done(Ok(()))));
    let before = state.render();
    let _ = state.generate(Event::Start);
    let action = state.generate(Event::Reply(Reply::Status(404, b"not found".to_vec())));
    assert!(matches!(action, Action::Done(Err(RestError::NotFound))));
    assert!(matches!(state.phase(), Phase::Failed(RestError::NotFound)));
    assert!(!state.is_running());
    assert_eq!(state.render(), before);
    // A failed exporter starts its next cycle like an idle one.
    assert!(matches!(cycle(&mut state, PAIRS, TICKER), Action::Done(Ok(()))));
    assert_eq!(state.render(), before);
}

#[test]
fn malformed_decimal_in_the_last_trade_price() {
    let ticker = "{\"error\":[],\"result\":{\"XXBTZUSD\":{\"c\":[\"NaNish\"],\"v\":[\"1.0\",\"2.0\"],\"p\":[\"29500\",\"29400\"],\"t\":[10,20]}}}";
    let mut state = State::new("60");
    let _ = state.generate(Event::Start);
    let _ = state.generate(ok(PAIRS));
    match state.generate(ok(ticker)) {
        Action::Publish(short) => assert_eq!(short, vec![String::from("XXBTZUSD")]),
        other => panic!("nothing to write: {:?}", other),
    }
    assert!(matches!(state.generate(Event::Publish), Action::Done(Ok(()))));
    let l = xbt_usd();
    assert_eq!(state.registry().value("exchange_rate", &l), None);
    assert_eq!(state.registry().value("exchange_volume", &l), Some(String::from("1.0")));
    assert_eq!(state.registry().value("exchange_volume_last_day", &l), Some(String::from("2.0")));
    assert_eq!(state.registry().value("exchange_rate_average", &l), Some(String::from("29500")));
    assert_eq!(state.registry().value("exchange_rate_average_last_day", &l), Some(String::from("29400")));
    assert_eq!(state.registry().value("exchange_trades", &l), Some(String::from("10")));
    assert_eq!(state.registry().value("exchange_trades_last_day", &l), Some(String::from("20")));
    assert!(!state.render().contains("exchange_rate{"));
}

#[test]
fn missing_pair_for_a_returned_ticker_code() {
    let ticker = "{\"error\":[],\"result\":{\"XXBTZUSD\":{\"c\":[\"30000.1\"],\"v\":[\"1.0\",\"2.0\"],\"p\":[\"29500\",\"29400\"],\"t\":[10,20]},\"XXRPZUSD\":{\"c\":[\"0.5\"],\"v\":[\"1\",\"2\"],\"p\":[\"3\",\"4\"],\"t\":[5,6]}}}";
    let mut state = State::new("60");
    let _ = state.generate(Event::Start);
    let _ = state.generate(ok(PAIRS));
    match state.generate(ok(ticker)) {
        Action::Publish(short) => assert_eq!(short, vec![String::from("XXRPZUSD")]),
        other => panic!("nothing to write: {:?}", other),
    }
    assert!(matches!(state.generate(Event::Publish), Action::Done(Ok(()))));
    assert_eq!(state.registry().len(), 9);
    assert_eq!(state.registry().value("exchange_rate", &xbt_usd()), Some(String::from("30000.1")));
    assert!(!state.render().contains("0.5"));
}

#[test]
fn a_failure_at_any_request_ends_the_cycle_with_its_error() {
    for (reply, error) in [
        (Reply::Status(401, Vec::new()), RestError::Unauthorized),
        (Reply::Status(403, Vec::new()), RestError::Forbidden),
        (Reply::Status(404, Vec::new()), RestError::NotFound),
        (Reply::Status(500, Vec::new()), RestError::Unknown),
        (Reply::Transport, RestError::Transport),
        (Reply::Status(200, b"{".to_vec()), RestError::Decode),
        (Reply::Status(200, b"{\"error\":[\"EService:Busy\"]}".to_vec()), RestError::Decode),
    ] {
        let (first, second) = match reply {
            Reply::Status(code, body) => {
                (Reply::Status(code, body.clone()), Reply::Status(code, body))
            }
            Reply::Transport => (Reply::Transport, Reply::Transport),
        };
        let mut state = State::new("60");
        let _ = state.generate(Event::Start);
        assert!(matches!(state.generate(Event::Reply(first)), Action::Done(Err(e)) if e == error));
        assert!(matches!(state.phase(), Phase::Failed(e) if *e == error));
        let mut state = State::new("60");
        let _ = state.generate(Event::Start);
        let _ = state.generate(ok(PAIRS));
        assert!(matches!(state.generate(Event::Reply(second)), Action::Done(Err(e)) if e == error));
        assert!(matches!(state.phase(), Phase::Failed(e) if *e == error));
        assert_eq!(state.render(), "");
    }
}

#[test]
fn two_cycles_against_the_same_answers_render_the_same() {
    let mut state = State::new("60");
    assert!(matches!(cycle(&mut state, PAIRS, TICKER), Action::Done(Ok(()))));
    let once = state.render();
    assert!(matches!(cycle(&mut state, PAIRS, TICKER), Action::Done(Ok(()))));
    assert_eq!(state.render(), once);
}

#[test]
fn a_later_cycle_overwrites_the_values_of_an_earlier_one() {
    let later = "{\"error\":[],\"result\":{\"XXBTZUSD\":{\"c\":[\"31000\"],\"v\":[\"3.0\",\"4.0\"],\"p\":[\"30500\",\"30400\"],\"t\":[11,21]}}}";
    let mut state = State::new("60");
    assert!(matches!(cycle(&mut state, PAIRS, TICKER), Action::Done(Ok(()))));
    assert!(matches!(cycle(&mut state, PAIRS, later), Action::Done(Ok(()))));
    assert_eq!(state.registry().len(), 9);
    assert_eq!(state.registry().value("exchange_rate", &xbt_usd()), Some(String::from("31000")));
    assert_eq!(state.registry().value("exchange_trades", &xbt_usd()), Some(String::from("11")));
}

#[test]
fn an_event_that_does_not_apply_changes_nothing() {
    let mut state = State::new("60");
    assert!(matches!(state.generate(Event::Publish), Action::Nothing));
    assert!(matches!(state.generate(ok(PAIRS)), Action::Nothing));
    assert!(matches!(state.phase(), Phase::Idle));
    let _ = state.generate(Event::Start);
    assert!(matches!(state.generate(Event::Start), Action::Nothing));
    assert!(matches!(state.generate(Event::Publish), Action::Nothing));
    assert!(matches!(state.phase(), Phase::DiscoveringPairs(None)));
    let _ = state.generate(ok(PAIRS));
    assert!(matches!(state.generate(Event::Start), Action::Nothing));
    assert!(matches!(state.generate(Event::Publish), Action::Nothing));
    assert!(matches!(state.phase(), Phase::FetchingTickers(_)));
    let _ = state.generate(ok(TICKER));
    assert!(matches!(state.generate(Event::Start), Action::Nothing));
    assert!(matches!(state.generate(ok(TICKER)), Action::Nothing));
    assert!(matches!(state.phase(), Phase::Publishing(_)));
    assert!(matches!(state.generate(Event::Publish), Action::Done(Ok(()))));
    let mut failed = State::new("60");
    let _ = failed.generate(Event::Start);
    let _ = failed.generate(Event::Reply(Reply::Transport));
    assert!(matches!(failed.generate(Event::Publish), Action::Nothing));
    assert!(matches!(failed.phase(), Phase::Failed(RestError::Transport)));
}

#[test]
fn by_the_assets_the_cycle_asks_for_the_assets_too() {
    let pairs = "{\"error\":[],\"result\":{\"XXBTZUSD\":{\"wsname\":\"XBT/USD\",\"base\":\"XXBT\",\"quote\":\"ZUSD\"},\"DOTJPZ\":{\"wsname\":\"DOT/JPZ\",\"base\":\"DOT\",\"quote\":\"JPZ\"}}}";
    let assets = "{\"error\":[],\"result\":{\"XXBT\":{\"aclass\":\"currency\",\"altname\":\"XBT\",\"decimals\":10,\"display_decimals\":5},\"ZUSD\":{\"aclass\":\"currency\",\"altname\":\"USD\",\"decimals\":4,\"display_decimals\":2}}}";
    let mut state = State::with_strategy("60", Strategy::FromAssets);
    assert_eq!(fetch_of(state.generate(Event::Start)), "https://api.kraken.com/0/public/AssetPairs");
    assert_eq!(fetch_of(state.generate(ok(pairs))), "https://api.kraken.com/0/public/Assets");
    assert!(matches!(state.phase(), Phase::DiscoveringPairs(Some(_))));
    assert_eq!(
        fetch_of(state.generate(ok(assets))),
        "https://api.kraken.com/0/public/Ticker?pair=XXBTZUSD"
    );
    assert!(matches!(state.generate(ok(TICKER)), Action::Publish(_)));
    assert!(matches!(state.generate(Event::Publish), Action::Done(Ok(()))));
    let by_name = Labels {
        currency: String::from("XBT"),
        reference_currency: String::from("USD"),
        pair: String::from("XBT/USD"),
    };
    assert_eq!(state.registry().value("exchange_rate", &by_name), Some(String::from("30000.1")));
    assert_eq!(state.registry().value("exchange_rate", &xbt_usd()), None);
}

#[test]
fn by_the_assets_a_failure_at_the_assets_ends_the_cycle() {
    let mut state = State::with_strategy("60", Strategy::FromAssets);
    let _ = state.generate(Event::Start);
    let _ = state.generate(ok(PAIRS));
    let action = state.generate(Event::Reply(Reply::Status(403, Vec::new())));
    assert!(matches!(action, Action::Done(Err(RestError::Forbidden))));
    assert!(matches!(state.phase(), Phase::Failed(RestError::Forbidden)));
}

#[test]
fn the_deadline_abandons_a_running_cycle() {
    let mut state = State::new("60");
    assert!(matches!(state.generate(Event::Deadline), Action::Nothing));
    assert!(matches!(state.phase(), Phase::Idle));
    let _ = state.generate(Event::Start);
    assert!(matches!(state.generate(Event::Deadline), Action::Done(Err(RestError::Transport))));
    assert!(matches!(state.phase(), Phase::Failed(RestError::Transport)));
    assert!(matches!(state.generate(Event::Deadline), Action::Nothing));
    let _ = state.generate(Event::Start);
    let _ = state.generate(ok(PAIRS));
    assert!(matches!(state.generate(Event::Deadline), Action::Done(Err(RestError::Transport))));
    let _ = state.generate(Event::Start);
    let _ = state.generate(ok(PAIRS));
    let _ = state.generate(ok(TICKER));
    assert!(matches!(state.generate(Event::Deadline), Action::Nothing));
    assert!(matches!(state.phase(), Phase::Publishing(_)));
    assert!(matches!(state.generate(Event::Publish), Action::Done(Ok(()))));
    assert_eq!(state.registry().len(), 9);
    let mut by_assets = State::with_strategy("60", Strategy::FromAssets);
    let _ = by_assets.generate(Event::Start);
    let _ = by_assets.generate(ok(PAIRS));
    assert!(matches!(
        by_assets.generate(Event::Deadline),
        Action::Done(Err(RestError::Transport))
    ));
}

#[test]
fn the_deadline_is_the_time_of_all_requests() {
    assert_eq!(State::new("60").deadline(), 120);
    assert_eq!(State::with_strategy("60", Strategy::FromAssets).deadline(), 180);
    assert_eq!(State::new("0").deadline(), 0);
    assert_eq!(State::new("18446744073709551615").deadline(), u64::MAX);
    assert_eq!(State::new("9223372036854775807").deadline(), u64::MAX - 1);
    assert_eq!(State::new("9223372036854775808").deadline(), u64::MAX);
}

#[test]
fn the_interval_is_no_shorter_than_the_timeout() {
    let state = State::new("60");
    assert_eq!(state.interval(300), 300);
    assert_eq!(state.interval(60), 60);
    assert_eq!(state.interval(59), 60);
    assert_eq!(state.interval(0), 60);
}

#[test]
fn advance_takes_a_document_that_was_read_before() {
    let mut state = State::new("60");
    assert!(matches!(state.advance(Input::Start), Action::Fetch(_)));
    let doc = Json::parse(PAIRS.as_bytes()).unwrap();
    assert!(matches!(state.advance(Input::Document(doc)), Action::Fetch(_)));
    assert!(matches!(
        state.advance(Input::Failure(RestError::Transport)),
        Action::Done(Err(RestError::Transport))
    ));
}
