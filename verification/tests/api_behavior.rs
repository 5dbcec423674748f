use serde_json::Value;
use ttl_store::api::{create, get, get_all, GetOutcome, PutOutcome};
use ttl_store::config::{build_config, LogLevel};
use ttl_store::store::{Lookup, Store};

fn value(text: &str) -> Value {
    serde_json::from_str(text).expect("test value must parse")
}

#[test]
fn scenario_put_get_expire() {
    let mut s = Store::new();
    let r = create(&mut s, "a".to_string(), &value("{\"x\":1}"), Some(1000), 0);
    assert!(matches!(r, PutOutcome::Inserted));
    // An immediate read sees the value with roughly one second left.
    match get(&s, &"a".to_string(), 0) {
        GetOutcome::Found { value: v, remaining } => {
            assert_eq!(v, value("{\"x\":1}"));
            let seconds = remaining.unwrap() as f64 / 1000.0;
            assert!((seconds - 1.0).abs() < 1e-9);
        }
        _ => panic!("expected the fresh entry to be found"),
    }
    // After 1.2 seconds the key reads as gone.
    assert!(matches!(get(&s, &"a".to_string(), 1200), GetOutcome::Expired));
}

#[test]
fn create_serializes_the_value() {
    let mut s = Store::new();
    create(&mut s, "k".to_string(), &value("{\"x\":1}"), None, 0);
    // The table holds the canonical JSON text, not the value handed in.
    match s.get_at(&"k".to_string(), 0) {
        Lookup::Found { serialized, .. } => assert_eq!(serialized, "{\"x\":1}"),
        _ => panic!("expected the entry to be live"),
    }
}

#[test]
fn get_decodes_what_was_stored() {
    let mut s = Store::new();
    // Text goes in through the core store; the read decodes it.
    s.put("k".to_string(), "[1,2,3]".to_string(), None, 0);
    match get(&s, &"k".to_string(), 5) {
        GetOutcome::Found { value: v, remaining } => {
            assert_eq!(v, value("[1,2,3]"));
            assert_eq!(remaining, None);
        }
        _ => panic!("expected the entry to be found"),
    }
}

#[test]
fn get_reports_a_deserialization_fault_without_crashing() {
    let mut s = Store::new();
    s.put("bad".to_string(), "{not json".to_string(), None, 0);
    assert!(matches!(get(&s, &"bad".to_string(), 0), GetOutcome::DeserializationFault));
    // The table is intact: the entry is still there and deletable.
    assert!(s.delete(&"bad".to_string()));
}

#[test]
fn get_distinguishes_absent_from_expired() {
    let mut s = Store::new();
    create(&mut s, "k".to_string(), &value("true"), Some(10), 0);
    assert!(matches!(get(&s, &"k".to_string(), 10), GetOutcome::Expired));
    assert!(matches!(get(&s, &"other".to_string(), 10), GetOutcome::NotFound));
}

#[test]
fn get_all_decodes_and_excludes_expired() {
    let mut s = Store::new();
    create(&mut s, "live".to_string(), &value("{\"a\":[1,2]}"), Some(1000), 0);
    create(&mut s, "dead".to_string(), &value("0"), Some(100), 0);
    create(&mut s, "forever".to_string(), &value("\"text\""), None, 0);
    let all = get_all(&s, 500);
    assert_eq!(all.len(), 2);
    assert!(all
        .iter()
        .any(|(k, v, rem)| k == "live" && *v == value("{\"a\":[1,2]}") && *rem == Some(500)));
    assert!(all.iter().any(|(k, v, rem)| k == "forever" && *v == value("\"text\"") && rem.is_none()));
}

#[test]
fn upsert_through_the_api_returns_the_second_value() {
    let mut s = Store::new();
    create(&mut s, "k".to_string(), &value("\"v1\""), Some(100), 0);
    create(&mut s, "k".to_string(), &value("\"v2\""), Some(9000), 0);
    match get(&s, &"k".to_string(), 50) {
        GetOutcome::Found { value: v, remaining } => {
            assert_eq!(v, value("\"v2\""));
            assert_eq!(remaining, Some(8950));
        }
        _ => panic!("expected the overwritten entry to be live"),
    }
}

#[test]
fn released_config_defaults() {
    let c = build_config();
    assert_eq!(c.log_level, LogLevel::Off);
    assert_eq!(c.reaper_max_interval, 1000);
    assert!(c.default_ttl.is_none());
}
