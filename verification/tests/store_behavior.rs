use ttl_store::store::{Lookup, Store};

fn put(s: &mut Store, key: &str, value: &str, ttl: Option<u64>, now: u64) {
    s.put(key.to_string(), value.to_string(), ttl, now);
}

#[test]
fn ttl_entry_expires_without_reaper() {
    let mut s = Store::new();
    put(&mut s, "k", "\"v\"", Some(1000), 0);
    // Still live strictly before the expiry instant.
    match s.get_at(&"k".to_string(), 500) {
        Lookup::Found { serialized, remaining } => {
            assert_eq!(serialized, "\"v\"");
            assert_eq!(remaining, Some(500));
        }
        _ => panic!("expected the entry to be live"),
    }
    // Expired at and after the expiry instant, with no reaper involved.
    assert!(matches!(s.get_at(&"k".to_string(), 1000), Lookup::Expired));
    assert!(matches!(s.get_at(&"k".to_string(), 5_000_000), Lookup::Expired));
}

#[test]
fn permanent_entry_survives_any_delay() {
    let mut s = Store::new();
    put(&mut s, "k", "42", None, 7);
    match s.get_at(&"k".to_string(), u64::MAX) {
        Lookup::Found { serialized, remaining } => {
            assert_eq!(serialized, "42");
            assert_eq!(remaining, None);
        }
        _ => panic!("expected a permanent entry to stay live"),
    }
}

#[test]
fn upsert_overwrites_value_and_ttl() {
    let mut s = Store::new();
    put(&mut s, "k", "\"first\"", Some(100), 0);
    put(&mut s, "k", "\"second\"", Some(9000), 50);
    match s.get_at(&"k".to_string(), 50) {
        Lookup::Found { serialized, remaining } => {
            assert_eq!(serialized, "\"second\"");
            assert_eq!(remaining, Some(9000));
        }
        _ => panic!("expected the overwritten entry to be live"),
    }
    // The first write's ttl is gone: at 200 the old entry would have expired.
    assert!(matches!(s.get_at(&"k".to_string(), 200), Lookup::Found { .. }));
    assert_eq!(s.len(), 1);
}

#[test]
fn overwrite_works_on_an_expired_entry() {
    let mut s = Store::new();
    put(&mut s, "k", "1", Some(10), 0);
    assert!(matches!(s.get_at(&"k".to_string(), 10), Lookup::Expired));
    put(&mut s, "k", "2", None, 10);
    assert!(matches!(s.get_at(&"k".to_string(), 10), Lookup::Found { .. }));
}

#[test]
fn delete_is_idempotent() {
    let mut s = Store::new();
    assert!(!s.delete(&"absent".to_string()));
    put(&mut s, "k", "1", None, 0);
    assert!(s.delete(&"k".to_string()));
    assert!(!s.delete(&"k".to_string()));
    assert!(matches!(s.get_at(&"k".to_string(), 0), Lookup::NotFound));
}

#[test]
fn delete_removes_an_expired_entry_and_reports_it() {
    let mut s = Store::new();
    put(&mut s, "k", "1", Some(5), 0);
    // Expired but not yet reaped: delete still removes it and says so.
    assert!(s.delete(&"k".to_string()));
    assert_eq!(s.len(), 0);
}

#[test]
fn get_ttl_reports_remaining_and_conflates_expired_with_absent() {
    let mut s = Store::new();
    put(&mut s, "t", "1", Some(300), 100);
    put(&mut s, "p", "2", None, 100);
    assert_eq!(s.get_ttl_at(&"t".to_string(), 150), Some(Some(250)));
    assert_eq!(s.get_ttl_at(&"p".to_string(), 150), Some(None));
    assert_eq!(s.get_ttl_at(&"t".to_string(), 400), None);
    assert_eq!(s.get_ttl_at(&"missing".to_string(), 150), None);
}

#[test]
fn get_all_excludes_expired_entries() {
    let mut s = Store::new();
    put(&mut s, "live", "1", Some(1000), 0);
    put(&mut s, "dead", "2", Some(100), 0);
    put(&mut s, "forever", "3", None, 0);
    let all = s.get_all_at(500);
    assert_eq!(all.len(), 2);
    assert!(all.iter().any(|(k, v, rem)| k == "live" && v == "1" && *rem == Some(500)));
    assert!(all.iter().any(|(k, v, rem)| k == "forever" && v == "3" && rem.is_none()));
    assert!(all.iter().all(|(k, _, _)| k != "dead"));
    // The expired entry is still physically present until a reaper pass.
    assert_eq!(s.len(), 3);
}

#[test]
fn reaper_pass_physically_evicts_all_expired_entries() {
    let mut s = Store::new();
    put(&mut s, "a", "1", Some(100), 0);
    put(&mut s, "b", "2", Some(200), 0);
    put(&mut s, "c", "3", None, 0);
    put(&mut s, "d", "4", Some(5000), 0);
    s.remove_expired(250);
    // Size and iteration agree: only the live entries remain in the table.
    assert_eq!(s.len(), 2);
    let all = s.get_all_at(250);
    assert_eq!(all.len(), 2);
    assert!(all.iter().any(|(k, _, _)| k == "c"));
    assert!(all.iter().any(|(k, _, _)| k == "d"));
    assert!(matches!(s.get_at(&"a".to_string(), 250), Lookup::NotFound));
    assert!(matches!(s.get_at(&"b".to_string(), 250), Lookup::NotFound));
}

#[test]
fn reaper_pass_on_an_empty_store_is_a_no_op() {
    let mut s = Store::new();
    s.remove_expired(123);
    assert_eq!(s.len(), 0);
}

#[test]
fn sleep_hint_follows_the_earliest_expiry() {
    let mut s = Store::new();
    // Nothing expires: sleep the whole fallback interval.
    assert_eq!(s.sleep_for_millis(0, 1000), 1000);
    put(&mut s, "p", "1", None, 0);
    assert_eq!(s.sleep_for_millis(0, 1000), 1000);
    // The earliest pending expiry drives the wait.
    put(&mut s, "a", "1", Some(700), 0);
    put(&mut s, "b", "2", Some(400), 0);
    assert_eq!(s.sleep_for_millis(0, 1000), 400);
    // Clamped to the fallback interval.
    assert_eq!(s.sleep_for_millis(0, 300), 300);
    // An already-passed expiry asks for an immediate sweep.
    assert_eq!(s.sleep_for_millis(500, 1000), 0);
}
