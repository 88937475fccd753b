use masswhois::expiry::ExpiryHandler;
use masswhois::cache::Cache;

#[test]
fn wheel_not_delivered_before_one_width() {
    let mut w: ExpiryHandler<u64> = ExpiryHandler::new(4, 10, 0);
    w.add(7, 20, 0);
    let out = w.clean(9);
    assert_eq!(out.len(), 0);
}

#[test]
fn wheel_delivers_exactly_once() {
    let mut w: ExpiryHandler<u64> = ExpiryHandler::new(4, 10, 0);
    w.add(7, 20, 0);
    // lifetime 20 at t=0 lands in the bucket of slot 2
    let out = w.clean(15);
    assert_eq!(out.len(), 0);
    let out = w.clean(31);
    assert_eq!(out, vec![7]);
    let out = w.clean(39);
    assert_eq!(out.len(), 0);
    let out = w.clean(120);
    assert_eq!(out.len(), 0);
}

#[test]
fn wheel_same_bucket_keeps_insertion_order() {
    let mut w: ExpiryHandler<u64> = ExpiryHandler::new(4, 10, 0);
    w.add(1, 20, 0);
    w.add(2, 20, 0);
    w.add(3, 20, 0);
    let out = w.clean(31);
    assert_eq!(out, vec![1, 2, 3]);
}

#[test]
fn cache_round_trip_hit() {
    let mut c: Cache<u32> = Cache::new(16, 4, 60, 0);
    c.insert("example.com.".to_string(), 99, 60, 0);
    let hit = c.query(&"example.com.".to_string(), false, 0);
    match hit {
        Some(Some(vs)) => assert_eq!(vs, vec![99]),
        _ => panic!("expected a positive hit"),
    }
}

#[test]
fn cache_entry_expires_after_sweep_advance() {
    let mut c: Cache<u32> = Cache::new(16, 4, 60, 0);
    c.insert("example.com.".to_string(), 99, 60, 0);
    // lifetime 60 at t=0 is due in the bucket of slot 1; a sweep at 200
    // covers slots 0..3
    let miss = c.query(&"example.com.".to_string(), false, 200);
    assert!(miss.is_none());
}

#[test]
fn cache_negative_marker_shadows() {
    let mut c: Cache<u32> = Cache::new(16, 4, 60, 0);
    c.insert_negative("missing.example.".to_string(), 60, 0);
    let hit = c.query(&"missing.example.".to_string(), false, 0);
    match hit {
        Some(None) => {}
        _ => panic!("expected the null marker"),
    }
    // a later positive insert supersedes the marker
    c.insert("missing.example.".to_string(), 4, 60, 0);
    let hit = c.query(&"missing.example.".to_string(), false, 0);
    match hit {
        Some(Some(vs)) => assert_eq!(vs, vec![4]),
        _ => panic!("expected the positive entry"),
    }
}

#[test]
fn cache_query_rotates_round_robin() {
    let mut c: Cache<u32> = Cache::new(16, 4, 60, 0);
    c.insert("k.".to_string(), 1, 60, 0);
    c.insert("k.".to_string(), 2, 60, 0);
    // the list is now [2, 1]; a rotating query returns [1, 2]
    match c.query(&"k.".to_string(), true, 0) {
        Some(Some(vs)) => assert_eq!(vs, vec![1, 2]),
        _ => panic!("expected a hit"),
    }
    match c.query(&"k.".to_string(), true, 0) {
        Some(Some(vs)) => assert_eq!(vs, vec![2, 1]),
        _ => panic!("expected a hit"),
    }
}

#[test]
fn cache_miss_on_unknown_key() {
    let mut c: Cache<u32> = Cache::new(16, 4, 60, 0);
    assert!(c.query(&"nothing.".to_string(), false, 0).is_none());
}
