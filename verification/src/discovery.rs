//! The discovery client: an initial snapshot read populates a membership
//! map, and a stream of watch events keeps it current, strictly in
//! delivery order. Lookups are point-in-time reads that never block, and
//! membership changes are published to the connection pool as insert and
//! remove updates.

use vstd::prelude::*;
use crate::codec::spec_parse_instance;
use crate::errors::RegistryError;
use crate::instance::{is_prefix_of, service_prefix, spec_service_prefix, check_prefix,
    ServiceInstance};
use crate::register::{instances_view, parsed_records, read_service_records};
use crate::store::{events_views, key_starts_with, kv_of, kv_view, EventView, MemoryStore,
    WatchEvent};

verus! {

/// A membership change published to the connection pool.
pub enum PoolUpdate {
    /// A new backend: new calls may be routed to it immediately.
    Insert { key: String, endpoint: String },
    /// A removed backend: no new call may be routed to it.
    Remove { key: String },
}

/// Some member holds this key.
pub open spec fn member_has(es: Seq<(String, String)>, k: Seq<char>) -> bool {
    exists|i: int| 0 <= i < es.len() && (#[trigger] es[i]).0@ == k
}

/// The index of the member holding this key.
pub open spec fn member_idx(es: Seq<(String, String)>, k: Seq<char>) -> int {
    choose|i: int| 0 <= i < es.len() && (#[trigger] es[i]).0@ == k
}

/// No two members share a key.
pub open spec fn member_keys_unique(es: Seq<(String, String)>) -> bool {
    forall|i: int, j: int|
        0 <= i < j < es.len() ==> (#[trigger] es[i]).0@ != (#[trigger] es[j]).0@
}

/// The members as a map from store key to connection target.
pub open spec fn members_map(es: Seq<(String, String)>) -> Map<Seq<char>, Seq<char>> {
    Map::new(|k: Seq<char>| member_has(es, k), |k: Seq<char>| es[member_idx(es, k)].1@)
}

pub proof fn lemma_member_idx_some(es: Seq<(String, String)>, k: Seq<char>)
    requires
        member_has(es, k),
    ensures
        0 <= member_idx(es, k) < es.len(),
        es[member_idx(es, k)].0@ == k,
{
}

/// With unique keys, the member index of a key is the only one holding it.
pub proof fn lemma_member_idx_unique(es: Seq<(String, String)>, k: Seq<char>, i: int)
    requires
        member_keys_unique(es),
        0 <= i < es.len(),
        es[i].0@ == k,
    ensures
        member_has(es, k),
        member_idx(es, k) == i,
{
    assert((#[trigger] es[i]).0@ == k);
    assert(member_has(es, k));
    lemma_member_idx_some(es, k);
    let j = member_idx(es, k);
    if i < j {
        assert(es[i].0@ != es[j].0@);
    }
    if j < i {
        assert(es[j].0@ != es[i].0@);
    }
}

/// Appending a member under a fresh key inserts one binding.
pub proof fn lemma_members_map_push(es: Seq<(String, String)>, e: (String, String))
    requires
        member_keys_unique(es),
        !member_has(es, e.0@),
    ensures
        member_keys_unique(es.push(e)),
        members_map(es.push(e)) == members_map(es).insert(e.0@, e.1@),
{
    let post = es.push(e);
    assert forall|i: int, j: int| 0 <= i < j < post.len() implies (#[trigger] post[i]).0@ != (
    #[trigger] post[j]).0@ by {
        if j < es.len() {
            assert(es[i].0@ != es[j].0@);
        } else {
            assert(post[j] == e);
            assert(post[i] == es[i]);
            if es[i].0@ == e.0@ {
                assert(member_has(es, e.0@));
            }
        }
    }
    assert(post[es.len() as int] == e);
    lemma_member_idx_unique(post, e.0@, es.len() as int);
    assert forall|k: Seq<char>| k != e.0@ implies (member_has(post, k) <==> member_has(
        es,
        k,
    )) by {
        if member_has(post, k) {
            let i = member_idx(post, k);
            lemma_member_idx_some(post, k);
            assert(i < es.len());
            assert(es[i].0@ == k);
            assert(member_has(es, k));
        }
        if member_has(es, k) {
            let i = member_idx(es, k);
            lemma_member_idx_some(es, k);
            assert(post[i].0@ == k);
            assert(member_has(post, k));
        }
    }
    assert forall|k: Seq<char>| k != e.0@ && member_has(es, k) implies post[member_idx(post, k)]
        == es[member_idx(es, k)] by {
        lemma_member_idx_some(es, k);
        let i = member_idx(es, k);
        assert(post[i].0@ == k);
        lemma_member_idx_unique(post, k, i);
    }
    assert(members_map(post) =~= members_map(es).insert(e.0@, e.1@));
}

/// Replacing the member of a held key updates its binding.
pub proof fn lemma_members_map_update(es: Seq<(String, String)>, i: int, e: (String, String))
    requires
        member_keys_unique(es),
        0 <= i < es.len(),
        e.0@ == es[i].0@,
    ensures
        member_keys_unique(es.update(i, e)),
        members_map(es.update(i, e)) == members_map(es).insert(e.0@, e.1@),
{
    let post = es.update(i, e);
    assert forall|p: int, q: int| 0 <= p < q < post.len() implies (#[trigger] post[p]).0@ != (
    #[trigger] post[q]).0@ by {
        assert(es[p].0@ != es[q].0@);
        assert(post[p].0@ == es[p].0@);
        assert(post[q].0@ == es[q].0@);
    }
    assert(post[i].0@ == e.0@);
    lemma_member_idx_unique(post, e.0@, i);
    assert forall|k: Seq<char>| member_has(post, k) == member_has(es, k) by {
        if member_has(post, k) {
            let p = member_idx(post, k);
            lemma_member_idx_some(post, k);
            assert(es[p].0@ == post[p].0@);
            assert(member_has(es, k));
        }
        if member_has(es, k) {
            let p = member_idx(es, k);
            lemma_member_idx_some(es, k);
            assert(post[p].0@ == es[p].0@);
            assert(member_has(post, k));
        }
    }
    assert forall|k: Seq<char>| k != e.0@ && member_has(es, k) implies post[member_idx(post, k)]
        == es[member_idx(es, k)] by {
        lemma_member_idx_some(es, k);
        let p = member_idx(es, k);
        if p == i {
            assert(k == e.0@);
        }
        assert(post[p].0@ == k);
        lemma_member_idx_unique(post, k, p);
    }
    assert(members_map(post) =~= members_map(es).insert(e.0@, e.1@));
}

/// Removing the member of a held key removes its binding.
pub proof fn lemma_members_map_remove(es: Seq<(String, String)>, i: int)
    requires
        member_keys_unique(es),
        0 <= i < es.len(),
    ensures
        member_keys_unique(es.remove(i)),
        members_map(es.remove(i)) == members_map(es).remove(es[i].0@),
{
    let post = es.remove(i);
    assert forall|p: int, q: int| 0 <= p < q < post.len() implies (#[trigger] post[p]).0@ != (
    #[trigger] post[q]).0@ by {
        let p0: int = if p < i {
            p
        } else {
            p + 1
        };
        let q0: int = if q < i {
            q
        } else {
            q + 1
        };
        assert(post[p] == es[p0]);
        assert(post[q] == es[q0]);
        assert(es[p0].0@ != es[q0].0@);
    }
    if member_has(post, es[i].0@) {
        let p = member_idx(post, es[i].0@);
        lemma_member_idx_some(post, es[i].0@);
        let p0: int = if p < i {
            p
        } else {
            p + 1
        };
        assert(post[p] == es[p0]);
        assert(p0 != i);
        if p0 < i {
            assert(es[p0].0@ != es[i].0@);
        } else {
            assert(es[i].0@ != es[p0].0@);
        }
        assert(false);
    }
    assert forall|k: Seq<char>| k != es[i].0@ implies (member_has(post, k) <==> member_has(
        es,
        k,
    )) by {
        if member_has(post, k) {
            let p = member_idx(post, k);
            lemma_member_idx_some(post, k);
            let p0: int = if p < i {
                p
            } else {
                p + 1
            };
            assert(post[p] == es[p0]);
            assert(member_has(es, k));
        }
        if member_has(es, k) {
            let p = member_idx(es, k);
            lemma_member_idx_some(es, k);
            assert(p != i);
            if p < i {
                assert(post[p] == es[p]);
                assert(member_has(post, k));
            } else {
                assert(post[p - 1] == es[p]);
                assert(member_has(post, k));
            }
        }
    }
    assert forall|k: Seq<char>| k != es[i].0@ && member_has(es, k) implies post[member_idx(
        post,
        k,
    )] == es[member_idx(es, k)] by {
        lemma_member_idx_some(es, k);
        let p = member_idx(es, k);
        assert(p != i);
        if p < i {
            assert(post[p] == es[p]);
            lemma_member_idx_unique(post, k, p);
        } else {
            assert(post[p - 1] == es[p]);
            lemma_member_idx_unique(post, k, p - 1);
        }
    }
    assert(members_map(post) =~= members_map(es).remove(es[i].0@));
}

/// The discovery side's local cache of the currently known instances of a
/// service: store key to connection target, one atomic update per watch
/// event.
pub struct MembershipMap {
    pub entries: Vec<(String, String)>,
}

/// How one watch event changes the membership map: a put whose value
/// decodes to a record with at least one endpoint upserts that key; a put
/// with a malformed value or no endpoint changes nothing (skipped, never
/// fatal); a delete removes the key, silently if it is unknown.
pub open spec fn apply_event_spec(
    map: Map<Seq<char>, Seq<char>>,
    ev: EventView,
) -> Map<Seq<char>, Seq<char>> {
    match ev {
        EventView::Put { key, value } => match spec_parse_instance(value) {
            Some(m) => if m.endpoints.len() > 0 {
                map.insert(key, m.endpoints[0])
            } else {
                map
            },
            None => map,
        },
        EventView::Delete { key } => map.remove(key),
    }
}

/// A run of watch events applied strictly in delivery order.
pub open spec fn apply_events_spec(
    map: Map<Seq<char>, Seq<char>>,
    evs: Seq<EventView>,
) -> Map<Seq<char>, Seq<char>>
    decreases evs.len(),
{
    if evs.len() == 0 {
        map
    } else {
        apply_events_spec(apply_event_spec(map, evs[0]), evs.drop_first())
    }
}

/// Order of application: running one more event is applying it to the
/// result of the run so far.
pub proof fn lemma_apply_events_snoc(map: Map<Seq<char>, Seq<char>>, evs: Seq<EventView>, ev: EventView)
    ensures
        apply_events_spec(map, evs.push(ev)) == apply_event_spec(apply_events_spec(map, evs), ev),
    decreases evs.len(),
{
    let p = evs.push(ev);
    if evs.len() == 0 {
        assert(p[0] == ev);
        assert(p.drop_first() =~= Seq::<EventView>::empty());
        assert(apply_events_spec(map, p) == apply_events_spec(
            apply_event_spec(map, ev),
            p.drop_first(),
        ));
        assert(apply_events_spec(apply_event_spec(map, ev), p.drop_first()) == apply_event_spec(
            map,
            ev,
        ));
        assert(apply_events_spec(map, evs) == map);
    } else {
        assert(p[0] == evs[0]);
        assert(p.drop_first() =~= evs.drop_first().push(ev));
        lemma_apply_events_snoc(apply_event_spec(map, evs[0]), evs.drop_first(), ev);
        assert(apply_events_spec(map, p) == apply_events_spec(
            apply_event_spec(map, evs[0]),
            p.drop_first(),
        ));
        assert(apply_events_spec(map, evs) == apply_events_spec(
            apply_event_spec(map, evs[0]),
            evs.drop_first(),
        ));
    }
}

impl View for MembershipMap {
    type V = Map<Seq<char>, Seq<char>>;

    open spec fn view(&self) -> Map<Seq<char>, Seq<char>> {
        members_map(self.entries@)
    }
}

impl MembershipMap {
    /// Well-formedness: one entry per key.
    pub open spec fn wf(&self) -> bool {
        member_keys_unique(self.entries@)
    }

    /// An empty map.
    pub fn new() -> (r: MembershipMap)
        ensures
            r.wf(),
            r@ == Map::<Seq<char>, Seq<char>>::empty(),
            r.entries@.len() == 0,
    {
        let r = MembershipMap { entries: Vec::new() };
        proof {
            assert(r@ =~= Map::<Seq<char>, Seq<char>>::empty());
        }
        r
    }

    /// The number of known instances.
    pub fn len(&self) -> (r: usize)
        ensures
            r == self.entries@.len(),
    {
        self.entries.len()
    }

    /// The index of the entry holding `key`, if one does.
    fn find(&self, key: &String) -> (r: Option<usize>)
        requires
            self.wf(),
        ensures
            match r {
                Some(i) => i < self.entries@.len() && self.entries@[i as int].0@ == key@
                    && member_has(self.entries@, key@) && member_idx(self.entries@, key@) == i,
                None => !member_has(self.entries@, key@),
            },
    {
        let mut i: usize = 0;
        while i < self.entries.len()
            invariant
                i <= self.entries@.len(),
                self.wf(),
                forall|j: int| 0 <= j < i ==> (#[trigger] self.entries@[j]).0@ != key@,
            decreases self.entries@.len() - i,
        {
            if self.entries[i].0 == *key {
                proof {
                    lemma_member_idx_unique(self.entries@, key@, i as int);
                }
                return Some(i);
            }
            i = i + 1;
        }
        None
    }

    /// A point-in-time lookup of one store key.
    pub fn lookup(&self, key: &String) -> (r: Option<String>)
        requires
            self.wf(),
        ensures
            match r {
                Some(ep) => self@.dom().contains(key@) && ep@ == self@[key@],
                None => !self@.dom().contains(key@),
            },
    {
        match self.find(key) {
            Some(i) => Some(self.entries[i].1.clone()),
            None => None,
        }
    }

    /// Upserts the entry of one key: one atomic map update.
    pub fn insert_entry(&mut self, key: String, endpoint: String)
        requires
            old(self).wf(),
        ensures
            final(self).wf(),
            final(self)@ == old(self)@.insert(key@, endpoint@),
            old(self)@.dom().contains(key@) ==> final(self).entries@.len() == old(
                self,
            ).entries@.len(),
            !old(self)@.dom().contains(key@) ==> final(self).entries@.len() == old(
                self,
            ).entries@.len() + 1,
    {
        let ghost pre = self.entries@;
        match self.find(&key) {
            Some(i) => {
                let e = (key, endpoint);
                self.entries.remove(i);
                self.entries.insert(i, e);
                proof {
                    assert(self.entries@ =~= pre.update(i as int, e));
                    lemma_members_map_update(pre, i as int, e);
                }
            },
            None => {
                let e = (key, endpoint);
                self.entries.push(e);
                proof {
                    lemma_members_map_push(pre, e);
                }
            },
        }
    }

    /// Removes the entry of one key: one atomic map update; removing an
    /// unknown key changes nothing.
    pub fn remove_entry(&mut self, key: &String)
        requires
            old(self).wf(),
        ensures
            final(self).wf(),
            final(self)@ == old(self)@.remove(key@),
            old(self)@.dom().contains(key@) ==> final(self).entries@.len() == old(
                self,
            ).entries@.len() - 1,
            !old(self)@.dom().contains(key@) ==> *final(self) == *old(self),
    {
        let ghost pre = self.entries@;
        match self.find(key) {
            Some(i) => {
                self.entries.remove(i);
                proof {
                    lemma_members_map_remove(pre, i as int);
                }
            },
            None => {
                proof {
                    assert(self@ =~= old(self)@.remove(key@));
                }
            },
        }
    }

    /// Applies one watch event as one atomic map update, and reports the
    /// pool update to publish: an insert for an applied put, a remove for
    /// a delete of a known key, nothing otherwise. A malformed value is
    /// skipped without disturbing the map, and a delete for an unknown key
    /// is a silent no-op.
    pub fn apply_event(&mut self, ev: &WatchEvent) -> (upd: Option<PoolUpdate>)
        requires
            old(self).wf(),
        ensures
            final(self).wf(),
            final(self)@ == apply_event_spec(old(self)@, ev@),
            match upd {
                Some(PoolUpdate::Insert { key, endpoint }) => {
                    &&& ev@ matches EventView::Put { key: k, value: v }
                    &&& key@ == k
                    &&& spec_parse_instance(v) matches Some(m) && m.endpoints.len() > 0
                        && endpoint@ == m.endpoints[0]
                },
                Some(PoolUpdate::Remove { key }) => {
                    &&& ev@ matches EventView::Delete { key: k }
                    &&& key@ == k
                    &&& old(self)@.dom().contains(k)
                },
                None => final(self)@ == old(self)@,
            },
    {
        match ev {
            WatchEvent::Put { key, value } => {
                match crate::codec::parse_instance(value.as_slice()) {
                    Some(inst) => {
                        if inst.endpoints.len() > 0 {
                            let endpoint = inst.endpoints[0].clone();
                            proof {
                                assert(inst@.endpoints[0] == inst.endpoints@[0]@);
                            }
                            self.insert_entry(key.clone(), endpoint.clone());
                            Some(PoolUpdate::Insert { key: key.clone(), endpoint })
                        } else {
                            None
                        }
                    },
                    None => None,
                }
            },
            WatchEvent::Delete { key } => {
                let had = self.find(key).is_some();
                self.remove_entry(key);
                if had {
                    Some(PoolUpdate::Remove { key: key.clone() })
                } else {
                    proof {
                        assert(self@ =~= old(self)@);
                    }
                    None
                }
            },
        }
    }
}

/// The watch events that concern one service's prefix.
pub open spec fn ev_in_prefix(prefix: Seq<char>) -> spec_fn(EventView) -> bool {
    |ev: EventView|
        match ev {
            EventView::Put { key, value } => is_prefix_of(prefix, key),
            EventView::Delete { key } => is_prefix_of(prefix, key),
        }
}

/// The membership map an initial snapshot read produces: each key/value
/// pair applied in order as if it were a put event.
pub open spec fn snapshot_map(kvs: Seq<(Seq<char>, Seq<u8>)>) -> Map<Seq<char>, Seq<char>>
    decreases kvs.len(),
{
    if kvs.len() == 0 {
        Map::empty()
    } else {
        apply_event_spec(
            snapshot_map(kvs.drop_last()),
            EventView::Put { key: kvs.last().0, value: kvs.last().1 },
        )
    }
}

/// The discovery client bound to one service, backed by the in-memory
/// store: it reads a snapshot, then replays the store's event log from its
/// cursor, filtered to its prefix, exactly as a watch stream delivers it.
pub struct MemoryServiceDiscovery {
    /// The root namespace.
    pub namespace: String,
    /// The watched prefix `{namespace}/{service_name}/`.
    pub prefix: String,
    /// The live membership map.
    pub map: MembershipMap,
    /// How much of the store's event log has been consumed.
    pub cursor: usize,
}

impl MemoryServiceDiscovery {
    /// A discovery client for one namespace, watching nothing yet.
    pub fn new(namespace: String) -> (r: MemoryServiceDiscovery)
        ensures
            r.namespace == namespace,
            r.prefix@ == Seq::<char>::empty(),
            r.map.wf(),
            r.map@ == Map::<Seq<char>, Seq<char>>::empty(),
            r.cursor == 0,
    {
        MemoryServiceDiscovery {
            namespace,
            prefix: String::new(),
            map: MembershipMap::new(),
            cursor: 0,
        }
    }

    /// Performs the initial consistent prefix read for a service,
    /// populates the membership map from it, and positions the watch
    /// cursor at the end of the store's current log, so that replay
    /// continues exactly where the snapshot left off.
    pub fn start_watching(&mut self, store: &MemoryStore, service_name: &str) -> (r: Result<
        (),
        RegistryError,
    >)
        requires
            store.wf(),
        ensures
            r is Ok,
            final(self).map.wf(),
            final(self).namespace == old(self).namespace,
            final(self).prefix@ == spec_service_prefix(old(self).namespace@, service_name@),
            final(self).map@ == snapshot_map(
                store.entries@.filter(
                    key_starts_with(spec_service_prefix(old(self).namespace@, service_name@)),
                ).map_values(kv_of()),
            ),
            final(self).cursor == store.events@.len(),
    {
        let prefix = service_prefix(self.namespace.as_str(), service_name);
        let kvs = store.get_prefix(&prefix);
        let mut map = MembershipMap::new();
        let ghost kvsv = kv_view(kvs@);
        let mut i: usize = 0;
        proof {
            assert(kvsv.take(0) =~= Seq::<(Seq<char>, Seq<u8>)>::empty());
            assert(map@ =~= snapshot_map(kvsv.take(0)));
        }
        while i < kvs.len()
            invariant
                i <= kvs@.len(),
                kvsv == kv_view(kvs@),
                map.wf(),
                map@ == snapshot_map(kvsv.take(i as int)),
            decreases kvs@.len() - i,
        {
            proof {
                assert(kvsv[i as int] == (kvs@[i as int].0@, kvs@[i as int].1@));
                assert(kvsv.take(i + 1) =~= kvsv.take(i as int).push(kvsv[i as int]));
                assert(kvsv.take(i + 1).drop_last() =~= kvsv.take(i as int));
                assert(kvsv.take(i + 1).last() == kvsv[i as int]);
            }
            let ev = WatchEvent::Put {
                key: kvs[i].0.clone(),
                value: crate::store::clone_bytes(&kvs[i].1),
            };
            map.apply_event(&ev);
            i = i + 1;
        }
        proof {
            assert(kvsv.take(kvsv.len() as int) =~= kvsv);
        }
        self.prefix = prefix;
        self.map = map;
        self.cursor = store.events.len();
        Ok(())
    }

    /// Consumes the store's event log from the cursor on, applying each
    /// event of the watched prefix strictly in delivery order.
    pub fn sync(&mut self, store: &MemoryStore)
        requires
            old(self).map.wf(),
            old(self).cursor <= store.events@.len(),
        ensures
            final(self).map.wf(),
            final(self).namespace == old(self).namespace,
            final(self).prefix == old(self).prefix,
            final(self).cursor == store.events@.len(),
            final(self).map@ == apply_events_spec(
                old(self).map@,
                events_views(store.events@).subrange(
                    old(self).cursor as int,
                    store.events@.len() as int,
                ).filter(ev_in_prefix(old(self).prefix@)),
            ),
    {
        let ghost evs = events_views(store.events@);
        let ghost from = old(self).cursor as int;
        let ghost pred = ev_in_prefix(old(self).prefix@);
        let mut i: usize = self.cursor;
        proof {
            reveal(Seq::filter);
            assert(evs.subrange(from, from).filter(pred) =~= Seq::<EventView>::empty());
            assert(self.map@ == apply_events_spec(
                old(self).map@,
                evs.subrange(from, from).filter(pred),
            ));
        }
        while i < store.events.len()
            invariant
                0 <= from <= i as int <= store.events@.len(),
                evs == events_views(store.events@),
                evs.len() == store.events@.len(),
                pred == ev_in_prefix(old(self).prefix@),
                self.map.wf(),
                self.namespace == old(self).namespace,
                self.prefix == old(self).prefix,
                self.map@ == apply_events_spec(
                    old(self).map@,
                    evs.subrange(from, i as int).filter(pred),
                ),
            decreases store.events@.len() - i,
        {
            proof {
                reveal(Seq::filter);
                assert(evs.subrange(from, i + 1) =~= evs.subrange(from, i as int).push(
                    evs[i as int],
                ));
                assert(evs.subrange(from, i + 1).drop_last() =~= evs.subrange(from, i as int));
            }
            let matches_prefix = match &store.events[i] {
                WatchEvent::Put { key, value } => check_prefix(key.as_str(), self.prefix.as_str()),
                WatchEvent::Delete { key } => check_prefix(key.as_str(), self.prefix.as_str()),
            };
            if matches_prefix {
                proof {
                    reveal(Seq::filter);
                    assert(evs[i as int] == store.events@[i as int]@);
                    assert(pred(evs[i as int]));
                    assert(evs.subrange(from, i + 1).filter(pred) =~= evs.subrange(
                        from,
                        i as int,
                    ).filter(pred).push(evs[i as int]));
                    lemma_apply_events_snoc(
                        old(self).map@,
                        evs.subrange(from, i as int).filter(pred),
                        evs[i as int],
                    );
                }
                self.map.apply_event(&store.events[i]);
            } else {
                proof {
                    reveal(Seq::filter);
                    assert(evs[i as int] == store.events@[i as int]@);
                    assert(!pred(evs[i as int]));
                    assert(evs.subrange(from, i + 1).filter(pred) =~= evs.subrange(
                        from,
                        i as int,
                    ).filter(pred));
                }
            }
            i = i + 1;
        }
        self.cursor = store.events.len();
    }

    /// A point-in-time resolution of the watched service: the connection
    /// target of the first known instance, or `NotFound` when none is
    /// known. Never blocks waiting for discovery to complete.
    pub fn resolve(&self, service_name: &str) -> (r: Result<String, RegistryError>)
        requires
            self.map.wf(),
        ensures
            match r {
                Ok(ep) => spec_resolve(
                    self.map.entries@,
                    spec_service_prefix(self.namespace@, service_name@),
                ) == Some(ep@),
                Err(e) => e == RegistryError::NotFound && spec_resolve(
                    self.map.entries@,
                    spec_service_prefix(self.namespace@, service_name@),
                ) is None,
            },
            r matches Ok(ep) ==> exists|k: Seq<char>|
                #[trigger] self.map@.dom().contains(k) && is_prefix_of(
                    spec_service_prefix(self.namespace@, service_name@),
                    k,
                ) && self.map@[k] == ep@,
            r is Err ==> forall|k: Seq<char>|
                #[trigger] self.map@.dom().contains(k) ==> !is_prefix_of(
                    spec_service_prefix(self.namespace@, service_name@),
                    k,
                ),
    {
        let prefix = service_prefix(self.namespace.as_str(), service_name);
        let ghost pre = spec_service_prefix(self.namespace@, service_name@);
        let mut i: usize = 0;
        proof {
            assert(self.map.entries@.skip(0) =~= self.map.entries@);
        }
        while i < self.map.entries.len()
            invariant
                i <= self.map.entries@.len(),
                self.map.wf(),
                pre == spec_service_prefix(self.namespace@, service_name@),
                prefix@ == pre,
                forall|j: int|
                    0 <= j < i ==> !is_prefix_of(pre, (#[trigger] self.map.entries@[j]).0@),
                spec_resolve(self.map.entries@, pre) == spec_resolve(
                    self.map.entries@.skip(i as int),
                    pre,
                ),
            decreases self.map.entries@.len() - i,
        {
            proof {
                assert(self.map.entries@.skip(i as int)[0] == self.map.entries@[i as int]);
                assert(self.map.entries@.skip(i as int).drop_first() =~= self.map.entries@.skip(
                    i + 1,
                ));
            }
            if check_prefix(self.map.entries[i].0.as_str(), prefix.as_str()) {
                proof {
                    let es = self.map.entries@;
                    let k = es[i as int].0@;
                    lemma_member_idx_unique(es, k, i as int);
                    assert(self.map@.dom().contains(k));
                    assert(self.map@[k] == es[i as int].1@);
                }
                return Ok(self.map.entries[i].1.clone());
            }
            i = i + 1;
        }
        proof {
            assert(self.map.entries@.skip(self.map.entries@.len() as int) =~= Seq::<(
                String,
                String,
            )>::empty());
            let es = self.map.entries@;
            assert forall|k: Seq<char>| #[trigger] self.map@.dom().contains(k) implies
                !is_prefix_of(pre, k) by {
                let j = member_idx(es, k);
                lemma_member_idx_some(es, k);
                assert(!is_prefix_of(pre, es[j].0@));
            }
        }
        Err(RegistryError::NotFound)
    }

    /// Exposes the live membership map for components that consume change
    /// notifications rather than single lookups.
    pub fn snapshot(&self) -> (r: &MembershipMap)
        ensures
            r == &self.map,
    {
        &self.map
    }
}

/// The connection target of the first member under a prefix.
pub open spec fn spec_resolve(es: Seq<(String, String)>, prefix: Seq<char>) -> Option<Seq<char>>
    decreases es.len(),
{
    if es.len() == 0 {
        None
    } else if is_prefix_of(prefix, es[0].0@) {
        Some(es[0].1@)
    } else {
        spec_resolve(es.drop_first(), prefix)
    }
}

/// The discovery backend: a consistent read of all current records of one
/// service.
pub trait ServiceDiscovery: Sized {
    /// The fixed root namespace this client reads under.
    spec fn namespace_spec(&self) -> Seq<char>;

    /// Reads every record of one service by a consistent prefix read, in
    /// store order, skipping malformed values.
    fn get_service(&self, store: &MemoryStore, service_name: &str) -> (r: Result<
        Vec<ServiceInstance>,
        RegistryError,
    >)
        requires
            store.wf(),
        ensures
            r matches Ok(v) && instances_view(v@) == parsed_records(
                store.entries@.filter(
                    key_starts_with(spec_service_prefix(self.namespace_spec(), service_name@)),
                ).map_values(kv_of()),
            ),
    ;
}

impl ServiceDiscovery for MemoryServiceDiscovery {
    open spec fn namespace_spec(&self) -> Seq<char> {
        self.namespace@
    }

    fn get_service(&self, store: &MemoryStore, service_name: &str) -> (r: Result<
        Vec<ServiceInstance>,
        RegistryError,
    >) {
        Ok(read_service_records(store, self.namespace.as_str(), service_name))
    }
}

/// A put of a fresh key followed by a delete of that same key returns the
/// membership map exactly to its prior value: the put adds one entry, the
/// delete removes that one entry.
pub proof fn lemma_put_then_delete_restores(
    map: Map<Seq<char>, Seq<char>>,
    key: Seq<char>,
    value: Seq<u8>,
)
    requires
        !map.dom().contains(key),
    ensures
        apply_events_spec(
            map,
            seq![EventView::Put { key, value }, EventView::Delete { key }],
        ) == map,
{
    let evs = seq![EventView::Put { key, value }, EventView::Delete { key }];
    let after_put = apply_event_spec(map, evs[0]);
    let ds = seq![EventView::Delete { key }];
    assert(evs[0] == EventView::Put { key, value });
    assert(evs.drop_first() =~= ds);
    assert(apply_events_spec(map, evs) == apply_events_spec(after_put, ds));
    assert(ds[0] == EventView::Delete { key });
    assert(ds.drop_first() =~= Seq::<EventView>::empty());
    assert(apply_events_spec(after_put, ds) == apply_events_spec(
        apply_event_spec(after_put, ds[0]),
        ds.drop_first(),
    ));
    assert(apply_events_spec(map, evs) == apply_event_spec(after_put, EventView::Delete { key }));
    match spec_parse_instance(value) {
        Some(m) => {
            if m.endpoints.len() > 0 {
                assert(after_put == map.insert(key, m.endpoints[0]));
                assert(map.insert(key, m.endpoints[0]).remove(key) =~= map);
            } else {
                assert(after_put == map);
                assert(map.remove(key) =~= map);
            }
        },
        None => {
            assert(after_put == map);
            assert(map.remove(key) =~= map);
        },
    }
}

/// A malformed value delivered on the watch stream is skipped without
/// disturbing the map, and a following well-formed event still applies
/// exactly as if the malformed one had never arrived.
pub proof fn lemma_malformed_event_skipped(
    map: Map<Seq<char>, Seq<char>>,
    bad: EventView,
    good: EventView,
)
    requires
        bad matches EventView::Put { key, value } && spec_parse_instance(value) is None,
    ensures
        apply_event_spec(map, bad) == map,
        apply_events_spec(map, seq![bad, good]) == apply_event_spec(map, good),
{
    let evs = seq![bad, good];
    let gs = seq![good];
    assert(evs[0] == bad);
    assert(apply_event_spec(map, bad) == map);
    assert(evs.drop_first() =~= gs);
    assert(apply_events_spec(map, evs) == apply_events_spec(map, gs));
    assert(gs[0] == good);
    assert(gs.drop_first() =~= Seq::<EventView>::empty());
    assert(apply_events_spec(map, gs) == apply_events_spec(
        apply_event_spec(map, good),
        gs.drop_first(),
    ));
}

/// A snapshot holding exactly one record binds its key to that record's
/// first endpoint: a freshly registered instance is resolvable as soon as
/// the snapshot read completes.
pub proof fn lemma_snapshot_map_singleton(k: Seq<char>, m: crate::instance::InstanceView)
    requires
        crate::codec::encodable(m),
        m.endpoints.len() > 0,
    ensures
        snapshot_map(seq![(k, crate::codec::spec_encode_instance(m))])
            == Map::<Seq<char>, Seq<char>>::empty().insert(k, m.endpoints[0]),
{
    crate::codec::lemma_parse_encode_instance(m);
    let kvs = seq![(k, crate::codec::spec_encode_instance(m))];
    assert(kvs.drop_last() =~= Seq::<(Seq<char>, Seq<u8>)>::empty());
    assert(kvs.last() == (k, crate::codec::spec_encode_instance(m)));
    assert(snapshot_map(kvs) == apply_event_spec(
        snapshot_map(kvs.drop_last()),
        EventView::Put { key: k, value: crate::codec::spec_encode_instance(m) },
    ));
    assert(snapshot_map(Seq::<(Seq<char>, Seq<u8>)>::empty())
        == Map::<Seq<char>, Seq<char>>::empty());
}

/// The key a watch event concerns.
pub open spec fn event_key(ev: EventView) -> Seq<char> {
    match ev {
        EventView::Put { key, value } => key,
        EventView::Delete { key } => key,
    }
}

/// Per-key isolation: a run of watch events none of which concerns `k`
/// leaves `k`'s entry exactly as it was — malformed or not, inserts and
/// removals of other instances never disturb this one.
pub proof fn lemma_apply_events_frame(
    map: Map<Seq<char>, Seq<char>>,
    evs: Seq<EventView>,
    k: Seq<char>,
)
    requires
        forall|i: int| 0 <= i < evs.len() ==> event_key(#[trigger] evs[i]) != k,
    ensures
        apply_events_spec(map, evs).dom().contains(k) <==> map.dom().contains(k),
        map.dom().contains(k) ==> apply_events_spec(map, evs)[k] == map[k],
    decreases evs.len(),
{
    if evs.len() > 0 {
        let head = evs[0];
        let mid = apply_event_spec(map, head);
        assert(event_key(head) != k);
        assert(mid.dom().contains(k) <==> map.dom().contains(k));
        assert(map.dom().contains(k) ==> mid[k] == map[k]);
        assert(forall|i: int|
            0 <= i < evs.drop_first().len() ==> event_key(#[trigger] evs.drop_first()[i]) != k);
        lemma_apply_events_frame(mid, evs.drop_first(), k);
    }
}

} // verus!
