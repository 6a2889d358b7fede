//! The membership map, pool updates, malformed watch values, and the
//! connection pool's routing set.

use svc_registry::codec::serialize_instance;
use svc_registry::discovery::{MembershipMap, PoolUpdate};
use svc_registry::instance::ServiceInstance;
use svc_registry::pool::ConnectionPool;
use svc_registry::store::WatchEvent;

fn record(name: &str, id: &str, endpoint: &str) -> Vec<u8> {
    serialize_instance(&ServiceInstance {
        id: String::from(id),
        name: String::from(name),
        endpoints: vec![String::from(endpoint)],
        version: String::from("0.1"),
        metadata: vec![],
    })
}

#[test]
fn put_adds_one_entry_and_delete_removes_it() {
    let mut map = MembershipMap::new();
    map.apply_event(&WatchEvent::Put {
        key: String::from("/s/a/1"),
        value: record("a", "1", "10.0.0.1:1"),
    });
    let before = map.len();

    // One put for a new key: exactly one new entry.
    let upd = map.apply_event(&WatchEvent::Put {
        key: String::from("/s/a/2"),
        value: record("a", "2", "10.0.0.2:2"),
    });
    assert!(matches!(upd, Some(PoolUpdate::Insert { .. })));
    assert_eq!(map.len(), before + 1);

    // The delete for that same key: exactly one entry gone, size back to
    // its pre-put value.
    let upd = map.apply_event(&WatchEvent::Delete { key: String::from("/s/a/2") });
    assert!(matches!(upd, Some(PoolUpdate::Remove { .. })));
    assert_eq!(map.len(), before);
    assert!(map.lookup(&String::from("/s/a/1")).is_some());
}

#[test]
fn delete_of_unknown_key_is_a_silent_no_op() {
    let mut map = MembershipMap::new();
    let upd = map.apply_event(&WatchEvent::Delete { key: String::from("/s/a/9") });
    assert!(upd.is_none());
    assert_eq!(map.len(), 0);
}

#[test]
fn malformed_value_is_skipped_and_later_events_still_apply() {
    let mut map = MembershipMap::new();

    // A malformed value on the watch stream: skipped, no entry, no crash.
    let upd = map.apply_event(&WatchEvent::Put {
        key: String::from("/s/a/bad"),
        value: b"not a record".to_vec(),
    });
    assert!(upd.is_none());
    assert_eq!(map.len(), 0);

    // A subsequent well-formed event for a different key is applied.
    let upd = map.apply_event(&WatchEvent::Put {
        key: String::from("/s/a/good"),
        value: record("a", "good", "10.0.0.3:3"),
    });
    assert!(matches!(upd, Some(PoolUpdate::Insert { .. })));
    assert_eq!(map.len(), 1);
    assert_eq!(map.lookup(&String::from("/s/a/good")), Some(String::from("10.0.0.3:3")));
    assert!(map.lookup(&String::from("/s/a/bad")).is_none());
}

#[test]
fn record_without_endpoints_is_skipped() {
    let mut map = MembershipMap::new();
    let value = serialize_instance(&ServiceInstance {
        id: String::from("1"),
        name: String::from("a"),
        endpoints: vec![],
        version: String::new(),
        metadata: vec![],
    });
    let upd = map.apply_event(&WatchEvent::Put { key: String::from("/s/a/1"), value });
    assert!(upd.is_none());
    assert_eq!(map.len(), 0);
}

#[test]
fn pool_routes_round_robin_over_current_backends() {
    let mut pool = ConnectionPool::new();
    assert!(pool.pick().is_none());

    pool.insert(String::from("/s/a/1"), String::from("10.0.0.1:1"));
    pool.insert(String::from("/s/a/2"), String::from("10.0.0.2:2"));

    // A just-inserted backend is eligible at once; picks rotate.
    let picks: Vec<String> = (0..4).map(|_| pool.pick().unwrap().1).collect();
    assert_eq!(
        picks,
        vec![
            String::from("10.0.0.1:1"),
            String::from("10.0.0.2:2"),
            String::from("10.0.0.1:1"),
            String::from("10.0.0.2:2"),
        ]
    );
}

#[test]
fn pool_never_routes_to_a_removed_backend() {
    let mut pool = ConnectionPool::new();
    pool.insert(String::from("/s/a/1"), String::from("10.0.0.1:1"));
    pool.insert(String::from("/s/a/2"), String::from("10.0.0.2:2"));
    pool.remove(&String::from("/s/a/1"));

    for _ in 0..5 {
        let (key, ep) = pool.pick().expect("one backend left");
        assert_eq!(key, String::from("/s/a/2"));
        assert_eq!(ep, String::from("10.0.0.2:2"));
    }

    pool.remove(&String::from("/s/a/2"));
    assert!(pool.pick().is_none());
}

#[test]
fn pool_applies_discovery_updates() {
    let mut pool = ConnectionPool::new();
    pool.apply_update(PoolUpdate::Insert {
        key: String::from("/s/a/1"),
        endpoint: String::from("10.0.0.1:1"),
    });
    assert_eq!(pool.pick().unwrap().1, String::from("10.0.0.1:1"));
    pool.apply_update(PoolUpdate::Remove { key: String::from("/s/a/1") });
    assert!(pool.pick().is_none());
}
