//! The registrar: it publishes an instance record under a freshly granted
//! lease, keeps the lease alive, and revokes it on unregistration, so that
//! the record vanishes either explicitly or by lease expiry after the
//! owning process stops refreshing.
//!
//! The refresh policy itself is a pure step function from the observed
//! acknowledgement to the next action, so the loop that drives it against
//! a network stream needs no decisions of its own.

use vstd::prelude::*;
use crate::codec::{encodable, serialize_instance, spec_encode_instance, spec_parse_instance};
use crate::errors::RegistryError;
use crate::instance::{key_ok, instance_key, service_prefix, spec_instance_key,
    spec_service_prefix, ServiceInstance, InstanceView};
use crate::store::{delete_events, has_key, idx_of, key_starts_with, kv_of, kv_view, EventView,
    MemoryStore, spec_sat_add};

verus! {

/// The default lease time to live, in seconds.
pub const DEFAULT_TTL_SECOND: u64 = 60;

/// The default refresh interval: strictly shorter than the time to live,
/// so one missed round does not expire the lease.
pub const DEFAULT_KEEPALIVE_INTERVAL_SECOND: u64 = 30;

/// The default budget of consecutive failed refresh rounds before the
/// registrar re-registers from scratch.
pub const DEFAULT_MAX_RETRY: u32 = 5;

/// What one keepalive round observed.
#[derive(Clone, Copy, Debug, PartialEq, Eq, Structural)]
pub enum KeepaliveAck {
    /// The server acknowledged, reporting this remaining time to live.
    /// Only a positive value means the lease was refreshed.
    Acked { ttl: i64 },
    /// The keepalive stream ended.
    StreamClosed,
    /// The round failed with a transport error.
    StreamError,
}

/// What the keepalive loop must do next.
#[derive(Clone, Copy, Debug, PartialEq, Eq, Structural)]
pub enum KeepaliveAction {
    /// The refresh succeeded: sleep one interval, then refresh again.
    Continue,
    /// The round failed within budget: back off and reopen a fresh
    /// keepalive stream.
    Retry,
    /// The budget is exhausted: the lease is lost, and only a full
    /// re-registration (new lease, new put) restores visibility.
    Reregister,
}

/// The keepalive loop's configuration: refresh interval and retry budget.
#[derive(Clone, Copy, Debug, PartialEq, Eq, Structural)]
pub struct KeepaliveConfig {
    pub interval: u64,
    pub max_retry: u32,
}

/// The keepalive loop's state: consecutive failed rounds so far.
#[derive(Clone, Copy, Debug, PartialEq, Eq, Structural)]
pub struct KeepaliveState {
    pub retries: u32,
}

/// Only an acknowledgement with a positive remaining time to live counts
/// as a successful refresh; every other outcome requires retry or
/// re-registration.
pub open spec fn ack_refreshes(ack: KeepaliveAck) -> bool {
    match ack {
        KeepaliveAck::Acked { ttl } => ttl > 0,
        _ => false,
    }
}

/// The keepalive policy: a successful refresh resets the failure count; a
/// failure within budget retries on a fresh stream; an exhausted budget
/// escalates to re-registration.
pub open spec fn spec_keepalive_step(
    cfg: KeepaliveConfig,
    state: KeepaliveState,
    ack: KeepaliveAck,
) -> (KeepaliveState, KeepaliveAction) {
    if ack_refreshes(ack) {
        (KeepaliveState { retries: 0 }, KeepaliveAction::Continue)
    } else if state.retries + 1 < cfg.max_retry {
        (KeepaliveState { retries: (state.retries + 1) as u32 }, KeepaliveAction::Retry)
    } else {
        (KeepaliveState { retries: 0 }, KeepaliveAction::Reregister)
    }
}

/// Decides the next keepalive action from one round's acknowledgement.
pub fn keepalive_step(cfg: &KeepaliveConfig, state: KeepaliveState, ack: KeepaliveAck) -> (r: (
    KeepaliveState,
    KeepaliveAction,
))
    ensures
        r == spec_keepalive_step(*cfg, state, ack),
{
    let refreshed = match ack {
        KeepaliveAck::Acked { ttl } => ttl > 0,
        _ => false,
    };
    if refreshed {
        (KeepaliveState { retries: 0 }, KeepaliveAction::Continue)
    } else if cfg.max_retry >= 2 && state.retries < cfg.max_retry - 1 {
        (KeepaliveState { retries: state.retries + 1 }, KeepaliveAction::Retry)
    } else {
        (KeepaliveState { retries: 0 }, KeepaliveAction::Reregister)
    }
}

/// The actions a run of keepalive rounds produces, in order.
pub open spec fn keepalive_run(
    cfg: KeepaliveConfig,
    state: KeepaliveState,
    acks: Seq<KeepaliveAck>,
) -> Seq<KeepaliveAction>
    decreases acks.len(),
{
    if acks.len() == 0 {
        Seq::empty()
    } else {
        let step = spec_keepalive_step(cfg, state, acks[0]);
        seq![step.1] + keepalive_run(cfg, step.0, acks.drop_first())
    }
}

/// Retries are bounded: a keepalive loop that is prevented from
/// refreshing — every round fails — escalates to re-registration within
/// its retry budget, rather than retrying forever while the lease expires.
pub proof fn lemma_keepalive_escalates(
    cfg: KeepaliveConfig,
    state: KeepaliveState,
    acks: Seq<KeepaliveAck>,
)
    requires
        forall|i: int| 0 <= i < acks.len() ==> !ack_refreshes(#[trigger] acks[i]),
        acks.len() + state.retries + 1 > cfg.max_retry,
        acks.len() >= 1,
    ensures
        keepalive_run(cfg, state, acks).contains(KeepaliveAction::Reregister),
    decreases acks.len(),
{
    let step = spec_keepalive_step(cfg, state, acks[0]);
    let run = keepalive_run(cfg, state, acks);
    assert(!ack_refreshes(acks[0]));
    if state.retries + 1 < cfg.max_retry {
        assert(step.1 == KeepaliveAction::Retry);
        assert(acks.len() >= 2);
        assert(forall|i: int|
            0 <= i < acks.drop_first().len() ==> !ack_refreshes(#[trigger] acks.drop_first()[i]));
        lemma_keepalive_escalates(cfg, step.0, acks.drop_first());
        let tail = keepalive_run(cfg, step.0, acks.drop_first());
        let w = choose|w: int| 0 <= w < tail.len() && tail[w] == KeepaliveAction::Reregister;
        assert(run[w + 1] == KeepaliveAction::Reregister);
    } else {
        assert(step.1 == KeepaliveAction::Reregister);
        assert(run[0] == KeepaliveAction::Reregister);
    }
}

/// The registration backend: publish a record under a fresh lease, revoke
/// it on unregistration, and read back all records of one service.
pub trait ServiceRegister: Sized {
    /// The fixed root namespace this registrar writes under.
    spec fn namespace_spec(&self) -> Seq<char>;

    /// The lease currently held (`0` when none).
    spec fn lease_spec(&self) -> i64;

    /// The store key registered under the current lease.
    spec fn key_spec(&self) -> Seq<char>;

    /// The time to live this registrar grants its leases.
    spec fn ttl_spec(&self) -> u64;

    /// Registers a record: any lease held from an earlier registration is
    /// revoked first — re-registration never patches or reuses the old
    /// lease — then the record is written under a freshly granted lease,
    /// so it vanishes by itself once refreshing stops. On return the
    /// record is readable under its derived key.
    fn register(&mut self, store: &mut MemoryStore, instance: &ServiceInstance) -> (r: Result<
        (),
        RegistryError,
    >)
        requires
            old(store).wf(),
            encodable(instance@),
            key_ok(instance@.name),
            key_ok(instance@.id),
            old(store).now < u64::MAX,
            old(store).next_lease_id < i64::MAX,
            old(self).ttl_spec() >= 1,
        ensures
            r is Ok,
            final(store).wf(),
            final(self).namespace_spec() == old(self).namespace_spec(),
            final(self).ttl_spec() == old(self).ttl_spec(),
            final(self).key_spec() == spec_instance_key(
                old(self).namespace_spec(),
                instance@.name,
                instance@.id,
            ),
            final(self).lease_spec() != 0,
            final(store).lease_live(final(self).lease_spec()),
            final(store).lease_ttl(final(self).lease_spec()) == old(self).ttl_spec(),
            final(store).lease_expiry(final(self).lease_spec()) == spec_sat_add(
                old(store).now,
                old(self).ttl_spec(),
            ),
            final(store).contents().dom().contains(final(self).key_spec()),
            final(store).contents()[final(self).key_spec()] == spec_encode_instance(instance@),
            final(store).lease_of(final(self).key_spec()) == final(self).lease_spec(),
            forall|k: Seq<char>|
                #![trigger has_key(final(store).entries@, k)]
                #![trigger has_key(old(store).entries@, k)]
                k != final(self).key_spec() ==> (has_key(final(store).entries@, k) <==> (has_key(
                    old(store).entries@,
                    k,
                ) && (old(self).lease_spec() == 0 || old(store).lease_of(k) != old(self).lease_spec()))),
            forall|k: Seq<char>|
                #![trigger final(store).contents()[k]]
                #![trigger old(store).contents()[k]]
                k != final(self).key_spec() && has_key(final(store).entries@, k) ==> final(store).contents()[k] == old(store).contents()[k] && final(store).lease_of(k) == old(store).lease_of(k) && final(store).lease_of(k) != final(self).lease_spec(),
            final(store).now == old(store).now,
            old(self).lease_spec() == 0 ==> final(store).events_view() == old(store).events_view() + seq![
                EventView::Put {
                    key: final(self).key_spec(),
                    value: spec_encode_instance(instance@),
                },
            ],
            old(self).lease_spec() != 0 ==> final(store).events_view() == old(store).events_view() + delete_events(old(store).entries@, old(self).lease_spec()) + seq![
                EventView::Put {
                    key: final(self).key_spec(),
                    value: spec_encode_instance(instance@),
                },
            ],
    ;

    /// Revokes the held lease, removing every key attached to it at once —
    /// no clock movement, hence faster than waiting for expiry. Safe to
    /// call twice: with no lease held it changes nothing.
    fn unregister(&mut self, store: &mut MemoryStore) -> (r: Result<(), RegistryError>)
        requires
            old(store).wf(),
        ensures
            r is Ok,
            final(store).wf(),
            final(self).lease_spec() == 0,
            final(self).namespace_spec() == old(self).namespace_spec(),
            final(self).ttl_spec() == old(self).ttl_spec(),
            old(self).lease_spec() == 0 ==> *final(store) == *old(store),
            old(self).lease_spec() != 0 ==> !final(store).lease_live(old(self).lease_spec()),
            old(self).lease_spec() != 0 ==> forall|k: Seq<char>|
                #![trigger has_key(final(store).entries@, k)]
                #![trigger has_key(old(store).entries@, k)]
                has_key(final(store).entries@, k) <==> (has_key(old(store).entries@, k) && old(store).lease_of(k) != old(self).lease_spec()),
            old(self).lease_spec() != 0 ==> forall|k: Seq<char>|
                #![trigger final(store).contents()[k]]
                #![trigger old(store).contents()[k]]
                has_key(old(store).entries@, k) && old(store).lease_of(k) != old(self).lease_spec() ==> final(store).contents()[k] == old(store).contents()[k],
            final(store).now == old(store).now,
            old(self).lease_spec() != 0 ==> final(store).events_view() == old(store).events_view() + delete_events(old(store).entries@, old(self).lease_spec()),
    ;

    /// Reads back every record of one service by a consistent prefix read,
    /// in store order; a value that fails to parse is skipped, never
    /// fatal.
    fn get_service(&mut self, store: &MemoryStore, name: &str) -> (r: Result<
        Vec<ServiceInstance>,
        RegistryError,
    >)
        requires
            store.wf(),
        ensures
            *final(self) == *old(self),
            r matches Ok(v) && instances_view(v@) == parsed_records(
                store.entries@.filter(
                    key_starts_with(spec_service_prefix(old(self).namespace_spec(), name@)),
                ).map_values(kv_of()),
            ),
    ;
}

/// A sequence of owned records, as views.
pub open spec fn instances_view(v: Seq<ServiceInstance>) -> Seq<InstanceView> {
    Seq::new(v.len(), |i: int| v[i]@)
}

/// The key/value pairs whose value is a well-formed record encoding.
pub open spec fn parseable() -> spec_fn((Seq<char>, Seq<u8>)) -> bool {
    |kv: (Seq<char>, Seq<u8>)| spec_parse_instance(kv.1) is Some
}

/// The record a well-formed key/value pair decodes to.
pub open spec fn parsed_of() -> spec_fn((Seq<char>, Seq<u8>)) -> InstanceView {
    |kv: (Seq<char>, Seq<u8>)| spec_parse_instance(kv.1)->Some_0
}

/// The records held in a sequence of key/value pairs, skipping every
/// malformed value.
pub open spec fn parsed_records(kvs: Seq<(Seq<char>, Seq<u8>)>) -> Seq<InstanceView> {
    kvs.filter(parseable()).map_values(parsed_of())
}

/// The in-memory registrar: the verified variant of the registration
/// backend. It owns at most one live lease at a time.
pub struct MemoryServiceRegister {
    /// The root namespace, threaded through construction so deployments
    /// can coexist.
    pub namespace: String,
    /// The time to live granted to each lease.
    pub ttl: u64,
    /// The held lease (`0` when none).
    pub lease_id: i64,
    /// The key registered under the held lease.
    pub key: String,
}

impl MemoryServiceRegister {
    /// A registrar for one namespace, holding no lease yet.
    pub fn new(namespace: String, ttl: u64) -> (r: MemoryServiceRegister)
        requires
            ttl >= 1,
        ensures
            r.namespace == namespace,
            r.ttl == ttl,
            r.lease_id == 0,
            r.key@ == Seq::<char>::empty(),
    {
        MemoryServiceRegister { namespace, ttl, lease_id: 0, key: String::new() }
    }

    /// One keepalive round against the store: refreshes the held lease and
    /// reports the acknowledgement the loop decides on. A vanished lease
    /// acknowledges a zero time to live, which does not count as a
    /// refresh.
    pub fn keepalive_round(&self, store: &mut MemoryStore) -> (ack: KeepaliveAck)
        requires
            old(store).wf(),
        ensures
            final(store).wf(),
            ack_refreshes(ack) <==> old(store).lease_live(self.lease_id),
            ack_refreshes(ack) ==> final(store).lease_expiry(self.lease_id) == spec_sat_add(
                old(store).now,
                old(store).lease_ttl(self.lease_id),
            ),
            !ack_refreshes(ack) ==> *final(store) == *old(store),
            final(store).contents() == old(store).contents(),
            final(store).now == old(store).now,
            final(store).events_view() == old(store).events_view(),
            forall|id: i64| final(store).lease_live(id) <==> old(store).lease_live(id),
    {
        let ttl = store.keep_alive(self.lease_id);
        if ttl == 0 {
            KeepaliveAck::Acked { ttl: 0 }
        } else if ttl <= i64::MAX as u64 {
            KeepaliveAck::Acked { ttl: ttl as i64 }
        } else {
            KeepaliveAck::Acked { ttl: i64::MAX }
        }
    }
}

impl ServiceRegister for MemoryServiceRegister {
    open spec fn namespace_spec(&self) -> Seq<char> {
        self.namespace@
    }

    open spec fn lease_spec(&self) -> i64 {
        self.lease_id
    }

    open spec fn key_spec(&self) -> Seq<char> {
        self.key@
    }

    open spec fn ttl_spec(&self) -> u64 {
        self.ttl
    }

    fn register(&mut self, store: &mut MemoryStore, instance: &ServiceInstance) -> (r: Result<
        (),
        RegistryError,
    >) {
        let ghost mid0 = *store;
        if self.lease_id != 0 {
            store.lease_revoke(self.lease_id);
        }
        let ghost mid = *store;
        let id = store.lease_grant(self.ttl);
        let key = instance_key(
            self.namespace.as_str(),
            instance.name.as_str(),
            instance.id.as_str(),
        );
        let value = serialize_instance(instance);
        let ghost vview = value@;
        let key2 = key.clone();
        store.put(key, value, id);
        self.lease_id = id;
        self.key = key2;
        proof {
            let kview = self.key@;
            assert forall|k: Seq<char>|
                k != kview && has_key(store.entries@, k) implies (has_key(old(store).entries@, k)
                && (old(self).lease_id == 0 || old(store).lease_of(k) != old(self).lease_id)
                && store.contents()[k] == old(store).contents()[k] && store.lease_of(k) == old(
                store,
            ).lease_of(k)) by {
                assert(has_key(mid.entries@, k));
                assert(store.contents()[k] == mid.contents()[k]);
                assert(store.lease_of(k) == mid.lease_of(k));
                if old(self).lease_id == 0 {
                    assert(mid == *old(store));
                } else {
                    assert(has_key(mid.entries@, k) <==> (has_key(old(store).entries@, k) && old(
                        store,
                    ).lease_of(k) != old(self).lease_id));
                    assert(has_key(old(store).entries@, k));
                    assert(old(store).lease_of(k) != old(self).lease_id);
                    assert(mid.contents()[k] == old(store).contents()[k]);
                }
            }
            assert forall|k: Seq<char>|
                k != kview && has_key(old(store).entries@, k) && (old(self).lease_id == 0 || old(
                    store,
                ).lease_of(k) != old(self).lease_id) implies has_key(store.entries@, k) by {
                if old(self).lease_id == 0 {
                    assert(mid == *old(store));
                    assert(has_key(mid.entries@, k));
                } else {
                    assert(has_key(mid.entries@, k) <==> (has_key(old(store).entries@, k) && old(
                        store,
                    ).lease_of(k) != old(self).lease_id));
                    assert(has_key(mid.entries@, k));
                }
            }
            assert forall|k: Seq<char>|
                k != kview && has_key(store.entries@, k) implies store.lease_of(k) != id by {
                assert(has_key(mid.entries@, k));
                assert(store.lease_of(k) == mid.lease_of(k));
                let w = idx_of(mid.entries@, k);
                crate::store::lemma_idx_of_some(mid.entries@, k);
                assert(mid.entries@[w].lease == 0 || mid.lease_live(mid.entries@[w].lease));
                if mid.lease_of(k) != 0 {
                    let li = choose|li: int|
                        0 <= li < mid.leases@.len() && (#[trigger] mid.leases@[li]).id
                            == mid.lease_of(k);
                    assert(mid.leases@[li].id < mid.next_lease_id);
                }
            }
            if old(self).lease_id != 0 {
                assert(store.events_view() =~= old(store).events_view() + delete_events(
                    old(store).entries@,
                    old(self).lease_id,
                ) + seq![EventView::Put { key: kview, value: spec_encode_instance(instance@) }]);
            } else {
                assert(store.events_view() =~= old(store).events_view() + seq![
                    EventView::Put { key: kview, value: spec_encode_instance(instance@) },
                ]);
            }
        }
        Ok(())
    }

    fn unregister(&mut self, store: &mut MemoryStore) -> (r: Result<(), RegistryError>) {
        if self.lease_id != 0 {
            store.lease_revoke(self.lease_id);
            self.lease_id = 0;
        }
        Ok(())
    }

    fn get_service(&mut self, store: &MemoryStore, name: &str) -> (r: Result<
        Vec<ServiceInstance>,
        RegistryError,
    >) {
        Ok(read_service_records(store, self.namespace.as_str(), name))
    }
}

/// Reads every record of one service out of the store by a consistent
/// prefix read, in store order; a value that fails to parse is skipped.
pub fn read_service_records(store: &MemoryStore, ns: &str, name: &str) -> (r: Vec<ServiceInstance>)
    requires
        store.wf(),
    ensures
        instances_view(r@) == parsed_records(
            store.entries@.filter(key_starts_with(spec_service_prefix(ns@, name@))).map_values(
                kv_of(),
            ),
        ),
{
    {
        let prefix = service_prefix(ns, name);
        let kvs = store.get_prefix(&prefix);
        let ghost kvsv = kv_view(kvs@);
        let mut out: Vec<ServiceInstance> = Vec::new();
        let mut i: usize = 0;
        proof {
            reveal(Seq::filter);
            assert(kvsv.take(0).filter(parseable()) =~= Seq::<(Seq<char>, Seq<u8>)>::empty());
            assert(instances_view(out@) =~= parsed_records(kvsv.take(0)));
        }
        while i < kvs.len()
            invariant
                i <= kvs@.len(),
                kvsv == kv_view(kvs@),
                instances_view(out@) == parsed_records(kvsv.take(i as int)),
            decreases kvs@.len() - i,
        {
            proof {
                reveal(Seq::filter);
                assert(kvsv[i as int] == (kvs@[i as int].0@, kvs@[i as int].1@));
                assert(kvsv.take(i + 1) =~= kvsv.take(i as int).push(kvsv[i as int]));
                assert(kvsv.take(i + 1).drop_last() =~= kvsv.take(i as int));
            }
            match crate::codec::parse_instance(kvs[i].1.as_slice()) {
                Some(inst) => {
                    let ghost prev = out@;
                    out.push(inst);
                    proof {
                        assert(parseable()(kvsv[i as int]));
                        assert(kvsv.take(i + 1).filter(parseable()) =~= kvsv.take(i as int).filter(
                            parseable(),
                        ).push(kvsv[i as int]));
                        assert(kvsv.take(i + 1).filter(parseable()).map_values(parsed_of())
                            =~= kvsv.take(i as int).filter(parseable()).map_values(
                            parsed_of(),
                        ).push(parsed_of()(kvsv[i as int])));
                        assert(parsed_of()(kvsv[i as int]) == inst@);
                        assert(instances_view(out@) =~= instances_view(prev).push(inst@));
                    }
                },
                None => {
                    proof {
                        assert(!parseable()(kvsv[i as int]));
                        assert(kvsv.take(i + 1).filter(parseable()) =~= kvsv.take(i as int).filter(
                            parseable(),
                        ));
                    }
                },
            }
            i = i + 1;
        }
        proof {
            assert(kvsv.take(kvsv.len() as int) =~= kvsv);
        }
        out
    }
}

} // verus!

