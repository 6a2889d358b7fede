//! Registration and discovery against the in-memory coordination store:
//! immediate visibility, lease expiry, explicit unregistration, watch
//! replay, and independence of instances.

use svc_registry::codec::serialize_instance;
use svc_registry::discovery::MemoryServiceDiscovery;
use svc_registry::errors::RegistryError;
use svc_registry::instance::{instance_key, ServiceInstance};
use svc_registry::register::{MemoryServiceRegister, ServiceRegister, DEFAULT_TTL_SECOND,
    DEFAULT_KEEPALIVE_INTERVAL_SECOND};
use svc_registry::store::MemoryStore;

const NS: &str = "/lucasim/services";

fn instance(name: &str, id: &str, endpoints: &[&str]) -> ServiceInstance {
    ServiceInstance {
        id: String::from(id),
        name: String::from(name),
        endpoints: endpoints.iter().map(|e| String::from(*e)).collect(),
        version: String::from("0.1"),
        metadata: vec![],
    }
}

#[test]
fn register_makes_instance_immediately_resolvable() {
    let mut store = MemoryStore::new();
    let mut reg = MemoryServiceRegister::new(String::from(NS), DEFAULT_TTL_SECOND);
    let inst = instance("user.rpc", "i-1", &["10.0.0.1:9000"]);
    reg.register(&mut store, &inst).expect("register");

    let mut disc = MemoryServiceDiscovery::new(String::from(NS));
    disc.start_watching(&store, "user.rpc").expect("start watching");
    let ep = disc.resolve("user.rpc").expect("resolve");
    assert_eq!(ep, String::from("10.0.0.1:9000"));
}

#[test]
fn missed_keepalives_expire_the_lease() {
    let mut store = MemoryStore::new();
    let mut reg = MemoryServiceRegister::new(String::from(NS), DEFAULT_TTL_SECOND);
    let inst = instance("user.rpc", "i-1", &["10.0.0.1:9000"]);
    reg.register(&mut store, &inst).expect("register");
    let key = instance_key(NS, "user.rpc", "i-1");
    assert!(store.get(&key).is_some());

    // The keepalive loop is prevented from refreshing for longer than the
    // lease's time to live: the key disappears from the store.
    store.advance(DEFAULT_TTL_SECOND + 1);
    assert!(store.get(&key).is_none());

    // A fresh discovery snapshot no longer resolves the service.
    let mut disc = MemoryServiceDiscovery::new(String::from(NS));
    disc.start_watching(&store, "user.rpc").expect("start watching");
    assert_eq!(disc.resolve("user.rpc"), Err(RegistryError::NotFound));
}

#[test]
fn keepalive_refreshes_within_ttl() {
    let mut store = MemoryStore::new();
    let mut reg = MemoryServiceRegister::new(String::from(NS), DEFAULT_TTL_SECOND);
    let inst = instance("user.rpc", "i-1", &["10.0.0.1:9000"]);
    reg.register(&mut store, &inst).expect("register");
    let key = instance_key(NS, "user.rpc", "i-1");

    // Refresh at the configured interval: over several lifetimes the key
    // stays visible.
    for _ in 0..10 {
        store.advance(DEFAULT_KEEPALIVE_INTERVAL_SECOND);
        let ack = reg.keepalive_round(&mut store);
        assert!(matches!(
            ack,
            svc_registry::register::KeepaliveAck::Acked { ttl } if ttl > 0
        ));
    }
    assert!(store.get(&key).is_some());
}

#[test]
fn unregister_removes_key_immediately() {
    let mut store = MemoryStore::new();
    let mut reg = MemoryServiceRegister::new(String::from(NS), DEFAULT_TTL_SECOND);
    let inst = instance("user.rpc", "i-1", &["10.0.0.1:9000"]);
    reg.register(&mut store, &inst).expect("register");
    let key = instance_key(NS, "user.rpc", "i-1");
    assert!(store.get(&key).is_some());

    let before = store.now;
    reg.unregister(&mut store).expect("unregister");
    // Removed within one round trip: no clock movement, unlike expiry.
    assert_eq!(store.now, before);
    assert!(store.get(&key).is_none());

    // A second call with no active lease is a no-op.
    reg.unregister(&mut store).expect("unregister again");
    assert!(store.get(&key).is_none());
}

#[test]
fn two_instances_are_independent() {
    let mut store = MemoryStore::new();
    let mut reg_1 = MemoryServiceRegister::new(String::from(NS), DEFAULT_TTL_SECOND);
    let mut reg_2 = MemoryServiceRegister::new(String::from(NS), DEFAULT_TTL_SECOND);
    let inst_1 = instance("user-rpc", "i-1", &["192.168.0.6:20001", "192.168.0.6:20002"]);
    let inst_2 = instance(
        "user-rpc",
        "i-2",
        &["192.168.0.6:20001", "192.168.0.6:20002", "192.168.0.6:20003"],
    );
    reg_1.register(&mut store, &inst_1).expect("register 1");
    reg_2.register(&mut store, &inst_2).expect("register 2");

    // Both appear in one prefix read.
    let services = reg_1.get_service(&store, "user-rpc").expect("get_service");
    assert_eq!(services.len(), 2);
    let mut ids: Vec<String> = services.iter().map(|s| s.id.clone()).collect();
    ids.sort();
    assert_eq!(ids, vec![String::from("i-1"), String::from("i-2")]);

    // Each is removable via its own unregister without affecting the other.
    reg_1.unregister(&mut store).expect("unregister 1");
    let services = reg_2.get_service(&store, "user-rpc").expect("get_service");
    assert_eq!(services.len(), 1);
    assert_eq!(services[0].id, String::from("i-2"));
    assert_eq!(services[0].endpoints.len(), 3);
}

#[test]
fn reregistration_replaces_the_old_lease() {
    let mut store = MemoryStore::new();
    let mut reg = MemoryServiceRegister::new(String::from(NS), DEFAULT_TTL_SECOND);
    let inst_1 = instance("user.rpc", "i-1", &["10.0.0.1:9000"]);
    reg.register(&mut store, &inst_1).expect("register");
    let first_lease = reg.lease_id;
    let key_1 = instance_key(NS, "user.rpc", "i-1");

    // An endpoint change is a full record replace under a new identifier
    // and a new lease; the old key leaves with the old lease.
    let inst_2 = instance("user.rpc", "i-2", &["10.0.0.2:9000"]);
    reg.register(&mut store, &inst_2).expect("re-register");
    assert_ne!(reg.lease_id, first_lease);
    assert!(store.get(&key_1).is_none());
    let key_2 = instance_key(NS, "user.rpc", "i-2");
    assert_eq!(store.get(&key_2), Some(serialize_instance(&inst_2)));
}

#[test]
fn watch_replay_tracks_puts_and_deletes() {
    let mut store = MemoryStore::new();
    let mut disc = MemoryServiceDiscovery::new(String::from(NS));
    disc.start_watching(&store, "user.rpc").expect("start watching");
    assert_eq!(disc.resolve("user.rpc"), Err(RegistryError::NotFound));

    // A put observed through the watch stream makes the instance known.
    let mut reg = MemoryServiceRegister::new(String::from(NS), DEFAULT_TTL_SECOND);
    let inst = instance("user.rpc", "i-1", &["10.0.0.1:9000"]);
    reg.register(&mut store, &inst).expect("register");
    disc.sync(&store);
    assert_eq!(disc.resolve("user.rpc"), Ok(String::from("10.0.0.1:9000")));
    assert_eq!(disc.snapshot().entries.len(), 1);

    // The delete for that key removes exactly that entry again.
    reg.unregister(&mut store).expect("unregister");
    disc.sync(&store);
    assert_eq!(disc.resolve("user.rpc"), Err(RegistryError::NotFound));
    assert_eq!(disc.snapshot().entries.len(), 0);
}

#[test]
fn watch_ignores_other_services() {
    let mut store = MemoryStore::new();
    let mut disc = MemoryServiceDiscovery::new(String::from(NS));
    disc.start_watching(&store, "user.rpc").expect("start watching");

    let mut other = MemoryServiceRegister::new(String::from(NS), DEFAULT_TTL_SECOND);
    let inst = instance("msg.rpc", "i-9", &["10.0.0.9:9000"]);
    other.register(&mut store, &inst).expect("register");
    disc.sync(&store);
    assert_eq!(disc.resolve("user.rpc"), Err(RegistryError::NotFound));
    assert_eq!(disc.snapshot().entries.len(), 0);
}

#[test]
fn store_put_get_delete() {
    let mut store = MemoryStore::new();
    let key = String::from("/lucasim/services/user.rpc/i-1");
    store.put(key.clone(), b"payload".to_vec(), 0);
    assert_eq!(store.get(&key), Some(b"payload".to_vec()));

    // A put for the same key replaces the value in place.
    store.put(key.clone(), b"payload-2".to_vec(), 0);
    assert_eq!(store.get(&key), Some(b"payload-2".to_vec()));

    store.delete(&key);
    assert!(store.get(&key).is_none());

    // Deleting an absent key changes nothing.
    store.delete(&key);
    assert!(store.get(&key).is_none());
}
