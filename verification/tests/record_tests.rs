use bytes::Bytes;
use kv_db::json::Json;
use kv_db::record::compose_line;
use kv_db::record::DbError;
use kv_db::record::FileRecord;

#[test]
fn record_line_is_one_json_object_and_a_newline() {
    let record = FileRecord {
        key: "a".to_string(),
        value: Some("3".to_string()),
        timestamp: 1700000000,
        is_tombstone: false,
    };
    assert_eq!(
        record.serialize_with_escaping().unwrap(),
        "{\"key\":\"a\",\"value\":\"3\",\"timestamp\":1700000000,\"is_tombstone\":false}\n"
    );
}

#[test]
fn tombstone_line_has_a_null_value() {
    let record = FileRecord { key: "b".to_string(), value: None, timestamp: 0, is_tombstone: true };
    assert_eq!(
        record.serialize_with_escaping().unwrap(),
        "{\"key\":\"b\",\"value\":null,\"timestamp\":0,\"is_tombstone\":true}\n"
    );
}

#[test]
fn strings_are_escaped_in_the_line() {
    let record = FileRecord {
        key: "a\"b".to_string(),
        value: Some("x\ny".to_string()),
        timestamp: 18446744073709551615,
        is_tombstone: false,
    };
    assert_eq!(
        record.serialize_with_escaping().unwrap(),
        "{\"key\":\"a\\\"b\",\"value\":\"x\\ny\",\"timestamp\":18446744073709551615,\"is_tombstone\":false}\n"
    );
}

#[test]
fn compose_line_puts_the_parts_in_order() {
    assert_eq!(compose_line("K", Some("V"), 12, true), "{\"key\":K,\"value\":V,\"timestamp\":12,\"is_tombstone\":true}\n");
    assert_eq!(compose_line("K", None, 0, false), "{\"key\":K,\"value\":null,\"timestamp\":0,\"is_tombstone\":false}\n");
}

#[test]
fn line_is_read_back_as_the_record() {
    let record = FileRecord {
        key: "k\u{e9}y".to_string(),
        value: Some("v\\al\u{0001}".to_string()),
        timestamp: 77,
        is_tombstone: false,
    };
    let line = record.serialize_with_escaping().unwrap();
    let body = &line.as_bytes()[..line.len() - 1];
    let read = FileRecord::parse_line(body).unwrap();
    assert_eq!(read.key, record.key);
    assert_eq!(read.value, record.value);
    assert_eq!(read.timestamp, 77);
    assert!(!read.is_tombstone);
}

#[test]
fn parse_line_takes_members_in_any_order() {
    let read = FileRecord::parse_line(
        b"{\"is_tombstone\":true, \"timestamp\": 9, \"extra\": [1, {\"x\": -2.5}], \"key\":\"k\"}",
    )
    .unwrap();
    assert_eq!(read.key, "k");
    assert_eq!(read.value, None);
    assert_eq!(read.timestamp, 9);
    assert!(read.is_tombstone);
}

#[test]
fn parse_line_rejects_what_is_no_record() {
    assert!(matches!(FileRecord::parse_line(b""), Err(DbError::Corruption)));
    assert!(matches!(FileRecord::parse_line(b"[1,2]"), Err(DbError::Corruption)));
    assert!(matches!(FileRecord::parse_line(b"{\"key\":\"k\",\"timestamp\":1}"), Err(DbError::Corruption)));
    assert!(matches!(
        FileRecord::parse_line(b"{\"key\":\"k\",\"value\":5,\"timestamp\":1,\"is_tombstone\":false}"),
        Err(DbError::Corruption)
    ));
    assert!(matches!(
        FileRecord::parse_line(b"{\"key\":\"k\",\"value\":\"v\",\"timestamp\":-1,\"is_tombstone\":false}"),
        Err(DbError::Corruption)
    ));
    assert!(matches!(
        FileRecord::parse_line(b"{\"key\":7,\"value\":\"v\",\"timestamp\":1,\"is_tombstone\":false}"),
        Err(DbError::Corruption)
    ));
    assert!(matches!(
        FileRecord::parse_line(b"{\"key\":\"k\",\"value\":\"v\",\"timestamp\":1,\"is_tombstone\":0}"),
        Err(DbError::Corruption)
    ));
}

#[test]
fn json_is_handed_over_variant_by_variant() {
    let json = Json::parse(b"{\"a\": null, \"b\": true, \"c\": 12, \"d\": \"x\", \"e\": [1, -1, 1.5], \"f\": {\"g\": false}}").unwrap();
    assert!(matches!(json.get("a"), Some(Json::Null)));
    assert!(matches!(json.get("b"), Some(Json::Bool(true))));
    assert!(matches!(json.get("c"), Some(Json::Number(Some(12)))));
    match json.get("d") {
        Some(Json::Text(s)) => assert_eq!(s, "x"),
        other => panic!("unexpected: {:?}", other),
    }
    match json.get("e") {
        Some(Json::Array(items)) => {
            assert_eq!(items.len(), 3);
            assert!(matches!(items[0], Json::Number(Some(1))));
            assert!(matches!(items[1], Json::Number(None)));
            assert!(matches!(items[2], Json::Number(None)));
        }
        other => panic!("unexpected: {:?}", other),
    }
    match json.get("f") {
        Some(inner) => assert!(matches!(inner.get("g"), Some(Json::Bool(false)))),
        None => panic!("member f is missing"),
    }
    assert!(json.get("zzz").is_none());
    assert!(Json::Null.get("a").is_none());
    assert!(Json::parse(b"{").is_none());
}

#[test]
fn from_json_reads_a_built_value() {
    let json = Json::Object(vec![
        ("key".to_string(), Json::Text("k".to_string())),
        ("value".to_string(), Json::Null),
        ("timestamp".to_string(), Json::Number(Some(3))),
        ("is_tombstone".to_string(), Json::Bool(false)),
    ]);
    let record = FileRecord::from_json(&json).unwrap();
    assert_eq!(record.key, "k");
    assert_eq!(record.value, None);
    assert_eq!(record.timestamp, 3);
    let json = Json::Object(vec![("key".to_string(), Json::Text("k".to_string()))]);
    assert!(FileRecord::from_json(&json).is_none());
    assert!(FileRecord::from_json(&Json::Array(Vec::new())).is_none());
}

#[test]
fn new_record_keeps_its_parts() {
    let record = FileRecord::new("k".to_string(), Some("v".to_string()), false);
    assert_eq!(record.key, "k");
    assert_eq!(record.value, Some("v".to_string()));
    assert!(!record.is_tombstone);
    assert!(record.timestamp > 1_600_000_000);
    assert_eq!(record.get_val_bytes(), Some(Bytes::from("v".to_string())));
    let tombstone = FileRecord::new("k".to_string(), None, true);
    assert_eq!(tombstone.get_val_bytes(), None);
}

#[test]
fn is_line_wants_one_line_of_this_record() {
    let record = FileRecord { key: "k".to_string(), value: Some("v".to_string()), timestamp: 3, is_tombstone: false };
    assert!(record.is_line(b"{\"key\":\"k\",\"value\":\"v\",\"timestamp\":3,\"is_tombstone\":false}\n"));
    assert!(record.is_line(b"{\"timestamp\":3,\"is_tombstone\":false, \"key\":\"k\",\"value\":\"v\"}\n"));
    assert!(!record.is_line(b"{\"key\":\"k\",\"value\":\"v\",\"timestamp\":3,\"is_tombstone\":false}"));
    assert!(!record.is_line(b"{\"key\":\"k\",\n\"value\":\"v\",\"timestamp\":3,\"is_tombstone\":false}\n"));
    assert!(!record.is_line(b"{\"key\":\"k\",\"value\":\"w\",\"timestamp\":3,\"is_tombstone\":false}\n"));
    assert!(!record.is_line(b"{\"key\":\"k\",\"value\":\"v\",\"timestamp\":4,\"is_tombstone\":false}\n"));
    assert!(!record.is_line(b"\n"));
    assert!(!record.is_line(b""));
}

#[test]
fn record_at_a_time_keeps_all_its_parts() {
    let record = FileRecord::at("k".to_string(), Some("v".to_string()), 1700000123, false);
    assert_eq!(record.key, "k");
    assert_eq!(record.value, Some("v".to_string()));
    assert_eq!(record.timestamp, 1700000123);
    assert!(!record.is_tombstone);
    let tombstone = FileRecord::at("k".to_string(), None, 0, true);
    assert_eq!(tombstone.timestamp, 0);
    assert!(tombstone.is_tombstone);
    assert_eq!(
        tombstone.serialize_with_escaping().unwrap(),
        "{\"key\":\"k\",\"value\":null,\"timestamp\":0,\"is_tombstone\":true}\n"
    );
}
