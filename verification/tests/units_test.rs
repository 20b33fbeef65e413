use std::str::FromStr;

use bytes::Bytes;
use uuid::Uuid;

use fluxdb::index::json::{parse_float, JsonNumber, JsonValue};
use fluxdb::index::query::QueryFilter;
use fluxdb::index::secondary::{FieldIndex, IndexManager};
use fluxdb::proto::codec::CommandParser;
use fluxdb::proto::command::Command;
use fluxdb::storage::documents::{extremes, measures_document, set_field};
use fluxdb::storage::engine::{EngineConfig, StorageEngine};
use fluxdb::storage::wal::WalRecord;
use fluxdb::text;
use fluxdb::tools;
use fluxdb::types::{DbError, PlayerId, ValueEntry, KEY_NAMESPACE};

fn near(a: u64, b: u64) -> Option<bool> {
    let d = (f64::from_bits(a) - f64::from_bits(b)).abs();
    if d.is_nan() {
        None
    } else {
        Some(d < 1e-9)
    }
}

fn matches(doc: &str, query: &str) -> bool {
    QueryFilter::parse(query).unwrap().matches(doc.as_bytes(), &near)
}

fn usage(line: &str) -> String {
    match CommandParser::parse(line) {
        Err(DbError::InvalidCommand(s)) => s,
        other => panic!("{:?}", other),
    }
}

#[test]
fn keys_are_read() {
    assert_eq!(KEY_NAMESPACE, Uuid::NAMESPACE_OID.as_u128());
    let spelled = "069a79f4-44e9-4726-a5be-fca90e38aaf5";
    let key = PlayerId::parse(spelled).unwrap();
    assert_eq!(key.0, 0x069a79f444e94726a5befca90e38aaf5);
    assert_eq!(key.to_text(), spelled);
    assert_eq!(PlayerId::parse("069A79F444E94726A5BEFCA90E38AAF5").unwrap(), key);
    assert_eq!(PlayerId::parse("  069A79F4-44E9-4726-A5BE-FCA90E38AAF5 ").unwrap(), key);
    assert_eq!(
        PlayerId::parse("steve").unwrap().0,
        Uuid::new_v5(&Uuid::NAMESPACE_OID, b"steve").as_u128()
    );
    let odd = "069a79f4-44e9-4726-a5be-fca90e38aafz";
    assert_eq!(
        PlayerId::from_str(odd).unwrap().to_uuid(),
        Uuid::new_v5(&Uuid::NAMESPACE_OID, odd.as_bytes())
    );
    assert_eq!(
        PlayerId::parse(" "),
        Err(DbError::InvalidUuid("Empty key provided".to_string()))
    );
    assert_eq!(PlayerId::from_key(" ").0, Uuid::new_v5(&Uuid::NAMESPACE_OID, b" ").as_u128());
    assert_eq!(PlayerId::from_key("steve"), PlayerId::parse("steve").unwrap());
    assert_eq!(PlayerId::from_bytes(key.to_bytes()), key);
    assert_eq!(PlayerId::from(Uuid::from_u128(9)), PlayerId::from(9u128));
}

#[test]
fn errors_have_sentences() {
    let text = |e: DbError| e.to_text();
    assert_eq!(text(DbError::Io("a".into())), "I/O error: a");
    assert_eq!(text(DbError::Serde("a".into())), "Serialization/Deserialization error: a");
    assert_eq!(text(DbError::InvalidUuid("a".into())), "Invalid UUID format: a");
    assert_eq!(text(DbError::WalCorruption("a".into())), "WAL corruption detected: a");
    assert_eq!(text(DbError::SstableCorruption("a".into())), "SSTable corruption detected: a");
    assert_eq!(text(DbError::KeyNotFound), "Key not found");
    assert_eq!(text(DbError::InvalidCommand("a".into())), "Invalid command: a");
    assert_eq!(text(DbError::IndexError("a".into())), "Index error: a");
    assert!(ValueEntry::delete(1, 2).is_tombstone());
    assert!(!ValueEntry::put(Bytes::new(), 1, 2).is_tombstone());
}

#[test]
fn commands_are_read() {
    let steve = PlayerId::parse("steve").unwrap();
    assert_eq!(
        CommandParser::parse("set Players steve {\"a\": 1}").unwrap(),
        Command::Put {
            table: "players".to_string(),
            key: steve,
            value: Bytes::from_static(b"{\"a\": 1}")
        }
    );
    assert_eq!(
        CommandParser::parse("MSET t steve {\"a\":{\"b\":1}} bob raw").unwrap(),
        Command::Mset {
            table: "t".to_string(),
            entries: vec![
                (steve, Bytes::from_static(b"{\"a\":{\"b\":1}}")),
                (PlayerId::parse("bob").unwrap(), Bytes::from_static(b"raw"))
            ]
        }
    );
    let top = |limit| Command::Top { table: "t".to_string(), path: "P".to_string(), limit };
    assert_eq!(CommandParser::parse("TOP T P").unwrap(), top(10));
    assert_eq!(CommandParser::parse("TOP T P x").unwrap(), top(10));
    assert_eq!(CommandParser::parse("TOP T P 5000").unwrap(), top(1000));
    assert_eq!(
        CommandParser::parse("EXPIRE t steve 300").unwrap(),
        Command::Expire { table: "t".to_string(), key: steve, seconds: 300 }
    );
    assert_eq!(CommandParser::parse("exit").unwrap(), Command::Quit);
    assert_eq!(CommandParser::parse("FLUSH").unwrap(), Command::Flush { table: None });
    assert_eq!(
        CommandParser::parse("SCAN t").unwrap(),
        Command::Scan { table: "t".to_string(), start: None, end: None, limit: 10 }
    );
    assert_eq!(
        CommandParser::parse("RANK.RANGE t p 30 50").unwrap(),
        Command::RankRange { table: "t".to_string(), path: "p".to_string(), start: 30, end: 50 }
    );
}

#[test]
fn malformed_commands_are_refused() {
    assert_eq!(usage("GET players"), "Usage: GET <table> <UUID>");
    assert_eq!(usage("MGET players"), "Usage: MGET <table> <UUID1> <UUID2> ...");
    assert_eq!(usage("SET players steve"), "Usage: SET <table> <UUID> <JSON>");
    assert_eq!(usage("MSET players"), "Usage: MSET <table> <UUID1> <JSON1> ...");
    assert_eq!(usage("MSET players steve"), "Malformed MSET key-value pairs");
    assert_eq!(usage("DEL players"), "Usage: DEL <table> <UUID>");
    assert_eq!(usage("EXISTS players"), "Usage: EXISTS <table> <UUID1> [UUID2 ...]");
    assert_eq!(usage("EXPIRE players steve"), "Usage: EXPIRE <table> <UUID> <seconds>");
    assert_eq!(usage("EXPIRE players steve soon"), "Invalid expire seconds");
    assert_eq!(usage("TTL players"), "Usage: TTL <table> <UUID>");
    assert_eq!(usage("CREATE"), "Usage: CREATE TABLE <name>");
    assert_eq!(usage("CREATE TABLE"), "Usage: CREATE TABLE <table_name>");
    assert_eq!(usage("INDEX"), "Usage: INDEX <CREATE|LIST> <table> [path]");
    assert_eq!(usage("INDEX CREATE t"), "Usage: INDEX CREATE <table> <json.path>");
    assert_eq!(usage("INDEX LIST"), "Usage: INDEX LIST <table>");
    assert_eq!(usage("TOP t"), "Usage: TOP <table> <json.path> [limit]");
    assert_eq!(usage("RANK t p"), "Usage: RANK <table> <json.path> <UUID>");
    assert_eq!(usage("nothing at all"), "Unknown command: 'NOTHING'");
    assert_eq!(
        CommandParser::parse("SET t  {}"),
        Err(DbError::InvalidUuid("Empty key provided".to_string()))
    );
}

#[test]
fn filters_compare() {
    let doc = r#"{"n":5,"f":2.5,"neg":-3,"s":"5","t":true,"list":[1,"two"],"o":{"k":null}}"#;
    assert!(matches(doc, "n == 5") && matches(doc, "n == 5.0000000001") && !matches(doc, "n == 5.1"));
    assert!(matches(doc, "n != 4") && matches(doc, "neg < -2.5") && matches(doc, "f >= 2.5"));
    assert!(!matches(doc, "missing == 1"));
    assert!(matches(doc, "list CONTAINS \"two\""));
    assert!(!matches(doc, "list CONTAINS \"three\""));
    assert!(matches(doc, "t == true AND n > 4 OR n > 100"));
    assert!(!matches("not json", "n == 5"));
    assert!(QueryFilter::parse("no operator").is_err());
}

#[test]
fn documents_are_changed() {
    assert_eq!(
        &set_field(Some(br#"{"b":1,"a":{"x":2}}"#), "a.x", "7")[..],
        br#"{"a":{"x":7},"b":1}"#
    );
    assert_eq!(&set_field(None, "a.b", "\"t\"")[..], br#"{"a":{"b":"t"}}"#);
    assert_eq!(&set_field(Some(b"junk"), "a", "some text")[..], br#"{"a":"some text"}"#);
    let value = JsonValue::parse(br#"{"a":{"b":[1,-2,2.5,"9.5"]}}"#).unwrap();
    assert_eq!(value.to_text(), r#"{"a":{"b":[1,-2,2.5,"9.5"]}}"#);
    assert_eq!(
        value.to_pretty_text(),
        "{\n  \"a\": {\n    \"b\": [\n      1,\n      -2,\n      2.5,\n      \"9.5\"\n    ]\n  }\n}"
    );
    assert!(JsonValue::parse(b"{").is_none());
    assert_eq!(JsonNumber::PosInt(3).to_bits(), 3.0f64.to_bits());
    assert_eq!(JsonNumber::NegInt(-3).to_bits(), (-3.0f64).to_bits());
    assert_eq!(JsonValue::from_bits(f64::NAN.to_bits()).to_text(), "null");
    assert_eq!(JsonValue::from_bits(2.5f64.to_bits()).to_text(), "2.5");
    assert_eq!(parse_float("1e3"), Some(1000.0f64.to_bits()));
    assert_eq!(parse_float("x"), None);
    assert!(f64::from_bits(parse_float("-nan").unwrap()).is_nan());
}

#[test]
fn numbers_are_measured() {
    let read = |_: u64, _: u64, _: u64| Ok(vec![]);
    let mut engine =
        StorageEngine::open(EngineConfig::default(), &vec![], None, &read).unwrap();
    for (key, doc) in [(1u128, "{\"v\":4}"), (2, "{\"v\":1.5}"), (3, "{\"w\":9}"), (4, "x")] {
        let value = Bytes::copy_from_slice(doc.as_bytes());
        engine.put(PlayerId::new(key), value, 0, |_: &Vec<WalRecord>| Ok(())).unwrap();
    }
    let numbers = engine.field_numbers("v", None, 0, &near, &read).unwrap();
    assert_eq!(numbers, vec![4.0f64.to_bits(), 1.5f64.to_bits()]);
    assert_eq!(extremes(&numbers), (1.5f64.to_bits(), 4.0f64.to_bits()));
    assert_eq!(
        measures_document("v", &numbers, 5.5f64.to_bits(), 2.75f64.to_bits()).to_text(),
        r#"{"avg":2.75,"count":2,"field":"v","max":4.0,"min":1.5,"sum":5.5}"#
    );
    assert_eq!(
        measures_document("v", &vec![], 0, 0).to_text(),
        r#"{"avg":0.0,"count":0,"field":"v","max":0.0,"min":0.0,"sum":0.0}"#
    );
    let high = QueryFilter::parse("v > 2").unwrap();
    assert_eq!(engine.count_records(Some(&high), 0, &near, &read), Ok(1));
    assert_eq!(engine.count_records(None, 0, &near, &read), Ok(4));
    let deleted = engine.del_where(&high, 0, &near, &read, |records: &Vec<WalRecord>| {
        assert_eq!(records.len(), 1);
        Ok(())
    });
    assert_eq!(deleted, Ok(1));
    assert_eq!(engine.count_records(None, 0, &near, &read), Ok(3));
    let updated = engine
        .json_set(PlayerId::new(3), "v", "2", 0, &read, |_: &Vec<WalRecord>| Ok(()))
        .unwrap();
    assert_eq!(&updated[..], b"{\"v\":2,\"w\":9}");
    assert_eq!(engine.get(&PlayerId::new(3), 0, &read).unwrap(), Some(updated));
}

#[test]
fn equal_scores_rank_by_key() {
    let mut index = FieldIndex::new("p".to_string());
    for key in [3u128, 1, 2] {
        index.update(PlayerId::new(key), 5.0f64.to_bits());
    }
    index.update(PlayerId::new(9), (-1.0f64).to_bits());
    let keys: Vec<u128> = index.get_top(10).iter().map(|r| r.0 .0).collect();
    assert_eq!(keys, vec![3, 2, 1, 9]);
    assert_eq!(index.get_rank(&PlayerId::new(1)), Some((3, 5.0f64.to_bits())));
    assert_eq!(index.get_rank(&PlayerId::new(7)), None);
    index.remove(&PlayerId::new(3));
    assert_eq!(index.get_rank(&PlayerId::new(1)).unwrap().0, 2);
    assert_eq!(index.len(), 3);
    assert!(!index.is_empty());
    assert_eq!(index.get_around_key(&PlayerId::new(7), 3), None);
    assert_eq!(index.get_rank_range(0, 3), vec![]);
    assert_eq!(index.path(), "p");

    let mut all = IndexManager::new();
    all.create_index("a");
    all.create_index("b");
    all.create_index("a");
    assert_eq!(all.list_indices(), vec!["a", "b"]);
    all.on_put(PlayerId::new(1), b"{\"a\": 4, \"b\": 6}");
    all.on_put(PlayerId::new(1), b"{\"b\": 7}");
    assert_eq!(all.get_index("a").unwrap().get_rank(&PlayerId::new(1)), Some((1, 4.0f64.to_bits())));
    assert_eq!(all.get_index("b").unwrap().get_rank(&PlayerId::new(1)), Some((1, 7.0f64.to_bits())));
    all.create_index_over("c", &vec![(PlayerId::new(8), Bytes::from_static(b"{\"c\": 2}"))]);
    assert_eq!(all.get_index("c").unwrap().len(), 1);
    all.on_delete(PlayerId::new(1));
    assert!(all.get_index("a").unwrap().is_empty());
    all.clear();
    assert!(all.list_indexes().is_empty());
}

#[test]
fn tools_prepare_their_work() {
    assert_eq!(tools::hash_idx_to_score(0, 0), 0);
    let mut x = 5u64 ^ 0x12345678abcdef01;
    for _ in 0..2 {
        x = x.wrapping_mul(0xd6e8feb86659fd93);
        x ^= x >> 32;
    }
    assert_eq!(tools::hash_idx_to_score(5, 0x12345678abcdef01) as u64, x % 1_000_000);
    assert_eq!(tools::get_uuid_for_index(1), "00000000-0000-0001-0000-000055aa55ab");
    let line = tools::write_test_command("t", 5);
    assert!(line.starts_with("SET t 00000000-0000-0005-0000-000055aa55af {\"name\":\"Player_5\""));
    assert!(line.ends_with("}}\r\n"));
    assert_eq!(tools::read_head("+OK\r\n"), tools::ReplyHead::Done);
    assert_eq!(tools::read_head(":3\r\n"), tools::ReplyHead::Done);
    assert_eq!(tools::read_head("-ERR x\r\n"), tools::ReplyHead::Failure);
    assert_eq!(tools::read_head("$-1\r\n"), tools::ReplyHead::Nil);
    assert_eq!(tools::read_head("$12\r\n"), tools::ReplyHead::Bulk(12));
    assert_eq!(tools::read_head("*2\r\n"), tools::ReplyHead::Items(2));
    assert_eq!(tools::read_head("$x\r\n"), tools::ReplyHead::BadLength);
    assert_eq!(tools::read_head("?\r\n"), tools::ReplyHead::Unknown);
    assert_eq!(tools::chunk_bounds(10, 4, 0), Some((0, 3)));
    assert_eq!(tools::chunk_bounds(10, 4, 3), Some((9, 10)));
    assert_eq!(tools::chunk_bounds(3, 4, 3), None);
    assert_eq!(
        tools::write_load_command("t", "{\"uuid\":\"u\",\"data\":{\"b\":1,\"a\":2}}"),
        Some("SET t u {\"a\":2,\"b\":1}\r\n".to_string())
    );
    assert_eq!(
        tools::write_load_command("t", "{\"b\":1}"),
        Some("SET t  {\"b\":1}\r\n".to_string())
    );
    assert_eq!(tools::write_load_command("t", "{"), None);
    assert_eq!(
        tools::dump_lines(b"[{\"b\":1}, 2]"),
        Some(vec!["{\"b\":1}".to_string(), "2".to_string()])
    );
    assert_eq!(tools::dump_lines(b"{}"), None);
}

#[test]
fn text_is_taken_apart() {
    let chars: Vec<char> = "  a b\t ".chars().collect();
    assert_eq!(text::trim(&chars).iter().collect::<String>(), "a b");
    assert_eq!(text::to_dec(0), "0");
    assert_eq!(text::to_dec(u64::MAX), "18446744073709551615");
    assert_eq!(text::to_hex(0xabc, 8), "00000abc");
    let n: Vec<char> = "+18446744073709551615".chars().collect();
    assert_eq!(text::parse_u64(&n), Some(u64::MAX));
    let n: Vec<char> = "18446744073709551616".chars().collect();
    assert_eq!(text::parse_u64(&n), None);
    let n: Vec<char> = "-9223372036854775808".chars().collect();
    assert_eq!(text::parse_i64(&n), Some(i64::MIN));
    assert!(text::is_before("a", "b") && text::is_before("a", "aa") && !text::is_before("b", "a"));
}

#[test]
fn braces_in_strings_do_not_count() {
    let id = "00000000000000000000000000000001";
    let value = |v: &str| Bytes::copy_from_slice(v.as_bytes());
    for doc in ["{\"a\":\"}\"}", "{\"a\":\"{\"}", "{\"a\":\"\\\"}\"}", "{\"a\":{\"b\":\"\\\\\"}}"] {
        assert_eq!(
            CommandParser::parse(&format!("MSET players {} {} {} 7", id, doc, id)).unwrap(),
            Command::Mset {
                table: "players".to_string(),
                entries: vec![(PlayerId(1), value(doc)), (PlayerId(1), value("7"))],
            }
        );
    }
}

#[test]
fn derived_keys_are_marked() {
    for name in ["steve", "a", "not-a-uuid", "00000000-0000-0000-0000-00000000000g"] {
        let bits = PlayerId::parse(name).unwrap().0;
        assert_eq!((bits >> 76) & 0xf, 5);
        assert_eq!((bits >> 62) & 3, 2);
        assert_eq!(PlayerId::parse(&format!(" {}\t", name)).unwrap().0, bits);
        assert_eq!(PlayerId::from_key(name).0, bits);
    }
    assert!(PlayerId::parse(" \t ").is_err());
    let mut keys = vec![PlayerId::new(0), PlayerId::new(255), PlayerId::new(256)];
    keys.push(PlayerId::new(1 << 64));
    keys.push(PlayerId::new(u128::MAX));
    for pair in keys.windows(2) {
        assert!(pair[0].to_bytes() < pair[1].to_bytes());
    }
}

#[test]
fn comparisons_have_opposites() {
    for doc in ["{\"a\":1}", "{\"a\":2}", "{\"a\":3.5}"] {
        assert_eq!(matches(doc, "a = 2"), !matches(doc, "a != 2"));
        assert_eq!(matches(doc, "a >= 2"), !matches(doc, "a < 2"));
        assert_eq!(matches(doc, "a <= 2"), !matches(doc, "a > 2"));
    }
    for query in ["a > 1", "a >= 1", "a < 1", "a <= 1", "a = 1"] {
        assert!(!matches("{\"b\":1}", query));
        assert!(!matches("{\"a\":\"x\"}", query));
    }
    assert!(matches("{\"b\":1}", "a != 1"));
    let doc = "{\"a\":1,\"b\":2}";
    assert!(matches(doc, "a = 1 AND b = 2"));
    assert!(!matches(doc, "a = 1 AND b = 3"));
    assert!(matches(doc, "a = 0 OR a = 1 AND b = 2"));
    assert!(!matches(doc, "a = 0 OR a = 1 AND b = 3"));
}
