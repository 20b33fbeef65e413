use fluxdb::index::json::{JsonNumber, JsonValue, MAX_DEPTH};
use fluxdb::index::query::{eval_condition, Condition, Literal, Operator, QueryFilter};
use fluxdb::index::secondary::{extract_number_from_json, FieldIndex};
use fluxdb::types::PlayerId;

fn near(a: u64, b: u64) -> Option<bool> {
    let d = (f64::from_bits(a) - f64::from_bits(b)).abs();
    if d.is_nan() {
        None
    } else {
        Some(d < 1e-9)
    }
}

#[test]
fn test_query_filter_simple() {
    let json = br#"{"name":"Alex","level":42,"active":true,"tags":["pro","vip"]}"#;

    let filter = QueryFilter::parse("level >= 40").unwrap();
    assert!(filter.matches(json, &near));

    let filter = QueryFilter::parse("level < 40").unwrap();
    assert!(!filter.matches(json, &near));

    let filter = QueryFilter::parse("name == \"Alex\"").unwrap();
    assert!(filter.matches(json, &near));

    let filter = QueryFilter::parse("active == true").unwrap();
    assert!(filter.matches(json, &near));

    let filter = QueryFilter::parse("tags CONTAINS \"vip\"").unwrap();
    assert!(filter.matches(json, &near));
}

#[test]
fn test_query_filter_compound() {
    let json = br#"{"stats":{"kills":150,"deaths":10},"status":"online"}"#;

    let filter = QueryFilter::parse("stats.kills > 100 AND stats.deaths <= 20").unwrap();
    assert!(filter.matches(json, &near));

    let filter = QueryFilter::parse("status == 'offline' OR stats.kills > 100").unwrap();
    assert!(filter.matches(json, &near));
}

#[test]
fn test_extract_number_from_json() {
    let json = br#"{"name":"Alex","stats":{"kills":350,"wins":50}}"#;
    assert_eq!(extract_number_from_json("stats.kills", json), Some(350.0f64.to_bits()));
    assert_eq!(extract_number_from_json("stats.wins", json), Some(50.0f64.to_bits()));
    assert_eq!(extract_number_from_json("stats.losses", json), None);
}

#[test]
fn test_flexible_ranking_queries() {
    let mut idx = FieldIndex::new("stats.score".to_string());
    for i in 1..=100 {
        let pid = PlayerId::new(i as u128);
        idx.update(pid, ((i * 10) as f64).to_bits());
    }
    assert_eq!(idx.len(), 100);

    let top5 = idx.get_top(5);
    assert_eq!(top5.len(), 5);
    assert_eq!(top5[0].2, 1);
    assert_eq!(f64::from_bits(top5[0].1), 1000.0);
    assert_eq!(top5[4].2, 5);
    assert_eq!(f64::from_bits(top5[4].1), 960.0);

    let r30_50 = idx.get_rank_range(30, 50);
    assert_eq!(r30_50.len(), 21);
    assert_eq!(r30_50[0].2, 30);
    assert_eq!(r30_50.last().unwrap().2, 50);

    let p50 = PlayerId::new(50);
    let around_p50 = idx.get_around_key(&p50, 10).unwrap();
    assert_eq!(around_p50.len(), 10);
    assert!(around_p50.iter().any(|(p, _, _)| *p == p50));

    let around_s700 = idx.get_around_score(700.0f64.to_bits(), 10);
    assert_eq!(around_s700.len(), 10);
    assert!(around_s700.iter().any(|(_, s, _)| f64::from_bits(*s) == 700.0));

    let range_scores = idx.get_score_range(50.0f64.to_bits(), 100.0f64.to_bits(), 50);
    assert_eq!(range_scores.len(), 6);
    assert_eq!(f64::from_bits(range_scores[0].1), 100.0);
    assert_eq!(f64::from_bits(range_scores.last().unwrap().1), 50.0);
}

#[test]
fn conditions_are_evaluated() {
    let doc = JsonValue::parse(br#"{"a":{"n":5},"s":"text","tags":["x"]}"#).unwrap();
    let holds = |path: &str, op: Operator, value: Literal| {
        eval_condition(&Condition { path: path.to_string(), op, value }, &doc, &near)
    };
    let five = || Literal::Number(5f64.to_bits());
    assert!(holds("a.n", Operator::Eq, five()));
    assert!(!holds("a.n", Operator::Ne, five()));
    assert!(holds("a.n", Operator::Gte, five()));
    assert!(!holds("a.n", Operator::Gt, five()));
    assert!(holds("missing", Operator::Ne, five()));
    assert!(!holds("missing", Operator::Eq, five()));
    assert!(holds("s", Operator::Contains, Literal::String("ex".to_string())));
    assert!(holds("tags", Operator::Contains, Literal::String("x".to_string())));
    assert!(!holds("s", Operator::Eq, Literal::Null));
}

#[test]
fn whole_documents_parse_back() {
    let text = "quote \" slash \\ line \n bell \u{7} null \u{0} \u{1F600} \u{7f}";
    let mut doc = JsonValue::Object(vec![
        ("".to_string(), JsonValue::Null),
        ("a\"b".to_string(), JsonValue::from_text(text)),
        ("big".to_string(), JsonValue::from_u64(u64::MAX)),
        ("low".to_string(), JsonValue::Number(JsonNumber::NegInt(i64::MIN))),
    ]);
    for _ in 1..MAX_DEPTH {
        doc = JsonValue::Array(vec![doc]);
    }
    let back = JsonValue::parse(doc.to_text().as_bytes());
    assert_eq!(back, Some(doc));
    let deeper = JsonValue::Array(vec![back.unwrap()]);
    assert_eq!(JsonValue::parse(deeper.to_text().as_bytes()), None);
}
