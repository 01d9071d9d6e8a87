use kraken_exporter::error::RestError;
use kraken_exporter::json::Json;

#[test]
fn parse_rejects_bytes_that_are_no_document() {
    assert!(matches!(Json::parse(b"{\"error\":"), Err(RestError::Decode)));
    assert!(matches!(Json::parse(b""), Err(RestError::Decode)));
    assert!(matches!(Json::parse(b"{} {}"), Err(RestError::Decode)));
    assert!(matches!(Json::parse(&[0xff, 0xfe]), Err(RestError::Decode)));
}

#[test]
fn parse_reads_an_object_with_its_members() {
    let doc = Json::parse(b"{\"b\": [\"x\", 7], \"a\": true}").unwrap();
    assert!(matches!(doc.get("a"), Some(Json::Bool(true))));
    match doc.get("b") {
        Some(Json::Array(items)) => {
            assert_eq!(items.len(), 2);
            assert!(matches!(items[0].as_text(), Some(s) if s == "x"));
            assert_eq!(items[1].as_count(), Some(7));
        }
        _ => panic!("member b is no array"),
    }
    assert!(doc.get("c").is_none());
}

#[test]
fn parse_reads_every_kind_of_value() {
    let doc = Json::parse(b"[null, false, 3, \"t\", [], {}]").unwrap();
    match doc {
        Json::Array(items) => {
            assert!(matches!(items[0], Json::Null));
            assert!(matches!(items[1], Json::Bool(false)));
            assert!(matches!(items[2], Json::Number(Some(3))));
            assert!(matches!(&items[3], Json::Text(s) if s == "t"));
            assert!(matches!(&items[4], Json::Array(inner) if inner.is_empty()));
            assert!(matches!(&items[5], Json::Object(inner) if inner.is_empty()));
        }
        _ => panic!("no array"),
    }
}

#[test]
fn a_number_is_a_count_only_as_a_small_whole_number() {
    let doc = Json::parse(b"[0, 4294967295, 4294967296, -1, 1.5, 10.0, 1e2]").unwrap();
    match doc {
        Json::Array(items) => {
            assert_eq!(items[0].as_count(), Some(0));
            assert_eq!(items[1].as_count(), Some(4294967295));
            assert_eq!(items[2].as_count(), None);
            assert!(matches!(items[2], Json::Number(Some(4294967296))));
            assert_eq!(items[3].as_count(), None);
            assert!(matches!(items[3], Json::Number(None)));
            assert_eq!(items[4].as_count(), None);
            assert_eq!(items[5].as_count(), None);
            assert_eq!(items[6].as_count(), None);
        }
        _ => panic!("no array"),
    }
}

#[test]
fn get_finds_nothing_in_what_is_no_object() {
    let doc = Json::parse(b"[1]").unwrap();
    assert!(doc.get("a").is_none());
    assert!(Json::Null.get("a").is_none());
    assert!(Json::Text(String::from("a")).as_count().is_none());
    assert!(Json::Number(Some(1)).as_text().is_none());
}

#[test]
fn the_members_of_an_object_come_in_the_order_of_their_keys() {
    let doc = Json::parse(b"{\"b\": 1, \"a\": 2, \"c\": 3}").unwrap();
    match doc {
        Json::Object(members) => {
            let keys: Vec<&str> = members.iter().map(|m| m.0.as_str()).collect();
            assert_eq!(keys, vec!["a", "b", "c"]);
        }
        _ => panic!("no object"),
    }
}
