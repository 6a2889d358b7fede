//! An in-memory coordination store with the observable behaviour the
//! registration layer relies on: key/value bindings attached to leases
//! with a time to live, a logical clock, and an ordered event log that
//! watch consumers replay.
//!
//! This is the verified backend against which the registrar and the
//! discovery client are specified and tested; a process talking to the
//! external store performs the same operations over its network client.

use vstd::prelude::*;

verus! {

/// One stored key/value binding, attached to a lease (`0` means none).
pub struct StoreEntry {
    pub key: String,
    pub value: Vec<u8>,
    pub lease: i64,
}

/// One live lease: its identifier, its granted time to live, and the
/// logical instant at which it expires unless refreshed first.
pub struct LeaseRec {
    pub id: i64,
    pub ttl: u64,
    pub expires_at: u64,
}

/// One watch event, in store order.
pub enum WatchEvent {
    Put { key: String, value: Vec<u8> },
    Delete { key: String },
}

/// The mathematical content of a watch event.
#[verifier::ext_equal]
pub enum EventView {
    Put { key: Seq<char>, value: Seq<u8> },
    Delete { key: Seq<char> },
}

impl View for WatchEvent {
    type V = EventView;

    open spec fn view(&self) -> EventView {
        match self {
            WatchEvent::Put { key, value } => EventView::Put { key: key@, value: value@ },
            WatchEvent::Delete { key } => EventView::Delete { key: key@ },
        }
    }
}

/// A sequence of watch events, as views, in delivery order.
pub open spec fn events_views(evs: Seq<WatchEvent>) -> Seq<EventView> {
    Seq::new(evs.len(), |i: int| evs[i]@)
}

/// Some entry holds this key.
pub open spec fn has_key(es: Seq<StoreEntry>, k: Seq<char>) -> bool {
    exists|i: int| 0 <= i < es.len() && (#[trigger] es[i]).key@ == k
}

/// The index of the entry holding this key.
pub open spec fn idx_of(es: Seq<StoreEntry>, k: Seq<char>) -> int {
    choose|i: int| 0 <= i < es.len() && (#[trigger] es[i]).key@ == k
}

/// No two entries share a key.
pub open spec fn keys_unique(es: Seq<StoreEntry>) -> bool {
    forall|i: int, j: int|
        0 <= i < j < es.len() ==> (#[trigger] es[i]).key@ != (#[trigger] es[j]).key@
}

/// A lease with this identifier is among these lease records.
pub open spec fn lease_live_in(leases: Seq<LeaseRec>, id: i64) -> bool {
    exists|i: int| 0 <= i < leases.len() && (#[trigger] leases[i]).id == id
}

/// A lease with this identifier is among these records with time left
/// beyond instant `t`.
pub open spec fn lease_surviving(leases: Seq<LeaseRec>, id: i64, t: u64) -> bool {
    exists|i: int|
        0 <= i < leases.len() && (#[trigger] leases[i]).id == id && leases[i].expires_at > t
}

/// The lease records with time left beyond instant `t`.
pub open spec fn lease_alive_at(t: u64) -> spec_fn(LeaseRec) -> bool {
    |l: LeaseRec| l.expires_at > t
}

/// The entries that survive the clock reaching instant `t`: unleased, or
/// attached to a lease with time left.
pub open spec fn live_entry(leases: Seq<LeaseRec>, t: u64) -> spec_fn(StoreEntry) -> bool {
    |e: StoreEntry| e.lease == 0 || lease_surviving(leases, e.lease, t)
}

/// The entries whose lease runs out by instant `t`.
pub open spec fn expired_entry(leases: Seq<LeaseRec>, t: u64) -> spec_fn(StoreEntry) -> bool {
    |e: StoreEntry| e.lease != 0 && !lease_surviving(leases, e.lease, t)
}

/// The bindings held by a sequence of entries, as a map.
pub open spec fn entries_map(es: Seq<StoreEntry>) -> Map<Seq<char>, Seq<u8>> {
    Map::new(|k: Seq<char>| has_key(es, k), |k: Seq<char>| es[idx_of(es, k)].value@)
}

pub proof fn lemma_idx_of_some(es: Seq<StoreEntry>, k: Seq<char>)
    requires
        has_key(es, k),
    ensures
        0 <= idx_of(es, k) < es.len(),
        es[idx_of(es, k)].key@ == k,
{
}

/// With unique keys, the entry index of a key is the only one holding it.
pub proof fn lemma_idx_of_unique(es: Seq<StoreEntry>, k: Seq<char>, i: int)
    requires
        keys_unique(es),
        0 <= i < es.len(),
        es[i].key@ == k,
    ensures
        has_key(es, k),
        idx_of(es, k) == i,
{
    assert(has_key(es, k));
    lemma_idx_of_some(es, k);
    let j = idx_of(es, k);
    if i < j {
        assert(es[i].key@ != es[j].key@);
    }
    if j < i {
        assert(es[j].key@ != es[i].key@);
    }
}

/// Appending an entry under a fresh key inserts one binding.
pub proof fn lemma_entries_map_push(es: Seq<StoreEntry>, e: StoreEntry)
    requires
        keys_unique(es),
        !has_key(es, e.key@),
    ensures
        keys_unique(es.push(e)),
        entries_map(es.push(e)) == entries_map(es).insert(e.key@, e.value@),
        idx_of(es.push(e), e.key@) == es.len(),
        has_key(es.push(e), e.key@),
        es.push(e)[idx_of(es.push(e), e.key@)] == e,
        forall|k: Seq<char>|
            k != e.key@ ==> (has_key(es.push(e), k) <==> has_key(es, k)),
        forall|k: Seq<char>|
            k != e.key@ && has_key(es, k) ==> es.push(e)[idx_of(es.push(e), k)] == es[idx_of(
                es,
                k,
            )],
{
    let post = es.push(e);
    assert forall|i: int, j: int| 0 <= i < j < post.len() implies (#[trigger] post[i]).key@ != (
    #[trigger] post[j]).key@ by {
        if j < es.len() {
            assert(es[i].key@ != es[j].key@);
        } else {
            assert(post[j] == e);
            assert(post[i] == es[i]);
            if es[i].key@ == e.key@ {
                assert(has_key(es, e.key@));
            }
        }
    }
    assert(post[es.len() as int] == e);
    lemma_idx_of_unique(post, e.key@, es.len() as int);
    assert forall|k: Seq<char>| k != e.key@ implies (has_key(post, k) <==> has_key(es, k)) by {
        if has_key(post, k) {
            let i = idx_of(post, k);
            lemma_idx_of_some(post, k);
            assert(i < es.len());
            assert(es[i].key@ == k);
            assert(has_key(es, k));
        }
        if has_key(es, k) {
            let i = idx_of(es, k);
            lemma_idx_of_some(es, k);
            assert(post[i].key@ == k);
            assert(has_key(post, k));
        }
    }
    assert forall|k: Seq<char>| k != e.key@ && has_key(es, k) implies post[idx_of(post, k)]
        == es[idx_of(es, k)] by {
        lemma_idx_of_some(es, k);
        let i = idx_of(es, k);
        assert(post[i].key@ == k);
        lemma_idx_of_unique(post, k, i);
    }
    assert(entries_map(post) =~= entries_map(es).insert(e.key@, e.value@));
}

/// Replacing the entry of a held key updates its binding.
pub proof fn lemma_entries_map_update(es: Seq<StoreEntry>, i: int, e: StoreEntry)
    requires
        keys_unique(es),
        0 <= i < es.len(),
        e.key@ == es[i].key@,
    ensures
        keys_unique(es.update(i, e)),
        entries_map(es.update(i, e)) == entries_map(es).insert(e.key@, e.value@),
        idx_of(es.update(i, e), e.key@) == i,
        has_key(es.update(i, e), e.key@),
        es.update(i, e)[idx_of(es.update(i, e), e.key@)] == e,
        forall|k: Seq<char>| has_key(es.update(i, e), k) <==> has_key(es, k),
        forall|k: Seq<char>|
            k != e.key@ && has_key(es, k) ==> es.update(i, e)[idx_of(es.update(i, e), k)]
                == es[idx_of(es, k)],
{
    let post = es.update(i, e);
    assert forall|p: int, q: int| 0 <= p < q < post.len() implies (#[trigger] post[p]).key@ != (
    #[trigger] post[q]).key@ by {
        assert(es[p].key@ != es[q].key@);
        assert(post[p].key@ == es[p].key@);
        assert(post[q].key@ == es[q].key@);
    }
    assert(post[i].key@ == e.key@);
    lemma_idx_of_unique(post, e.key@, i);
    assert forall|k: Seq<char>| has_key(post, k) == has_key(es, k) by {
        if has_key(post, k) {
            let p = idx_of(post, k);
            lemma_idx_of_some(post, k);
            assert(es[p].key@ == post[p].key@);
            assert(has_key(es, k));
        }
        if has_key(es, k) {
            let p = idx_of(es, k);
            lemma_idx_of_some(es, k);
            assert(post[p].key@ == es[p].key@);
            assert(has_key(post, k));
        }
    }
    assert forall|k: Seq<char>| k != e.key@ && has_key(es, k) implies post[idx_of(post, k)]
        == es[idx_of(es, k)] by {
        lemma_idx_of_some(es, k);
        let p = idx_of(es, k);
        if p == i {
            assert(k == e.key@);
        }
        assert(post[p].key@ == k);
        lemma_idx_of_unique(post, k, p);
    }
    assert(entries_map(post) =~= entries_map(es).insert(e.key@, e.value@));
}

/// Removing the entry of a held key removes its binding.
pub proof fn lemma_entries_map_remove(es: Seq<StoreEntry>, i: int)
    requires
        keys_unique(es),
        0 <= i < es.len(),
    ensures
        keys_unique(es.remove(i)),
        entries_map(es.remove(i)) == entries_map(es).remove(es[i].key@),
        forall|k: Seq<char>|
            k != es[i].key@ ==> (has_key(es.remove(i), k) <==> has_key(es, k)),
        !has_key(es.remove(i), es[i].key@),
        forall|k: Seq<char>|
            k != es[i].key@ && has_key(es, k) ==> es.remove(i)[idx_of(es.remove(i), k)]
                == es[idx_of(es, k)],
{
    let post = es.remove(i);
    assert forall|p: int, q: int| 0 <= p < q < post.len() implies (#[trigger] post[p]).key@ != (
    #[trigger] post[q]).key@ by {
        let p0: int = if p < i { p } else { p + 1 };
        let q0: int = if q < i { q } else { q + 1 };
        assert(post[p] == es[p0]);
        assert(post[q] == es[q0]);
        assert(es[p0].key@ != es[q0].key@);
    }
    if has_key(post, es[i].key@) {
        let p = idx_of(post, es[i].key@);
        lemma_idx_of_some(post, es[i].key@);
        let p0: int = if p < i { p } else { p + 1 };
        assert(post[p] == es[p0]);
        assert(p0 != i);
        if p0 < i {
            assert(es[p0].key@ != es[i].key@);
        } else {
            assert(es[i].key@ != es[p0].key@);
        }
        assert(false);
    }
    assert forall|k: Seq<char>| k != es[i].key@ implies (has_key(post, k) <==> has_key(es, k)) by {
        if has_key(post, k) {
            let p = idx_of(post, k);
            lemma_idx_of_some(post, k);
            let p0: int = if p < i { p } else { p + 1 };
            assert(post[p] == es[p0]);
            assert(has_key(es, k));
        }
        if has_key(es, k) {
            let p = idx_of(es, k);
            lemma_idx_of_some(es, k);
            assert(p != i);
            if p < i {
                assert(post[p] == es[p]);
                assert(has_key(post, k));
            } else {
                assert(post[p - 1] == es[p]);
                assert(has_key(post, k));
            }
        }
    }
    assert forall|k: Seq<char>| k != es[i].key@ && has_key(es, k) implies post[idx_of(post, k)]
        == es[idx_of(es, k)] by {
        lemma_idx_of_some(es, k);
        let p = idx_of(es, k);
        assert(p != i);
        if p < i {
            assert(post[p] == es[p]);
            lemma_idx_of_unique(post, k, p);
        } else {
            assert(post[p - 1] == es[p]);
            lemma_idx_of_unique(post, k, p - 1);
        }
    }
    assert(entries_map(post) =~= entries_map(es).remove(es[i].key@));
}

/// Addition on the clock, capped at the largest representable instant.
pub open spec fn spec_sat_add(a: u64, b: u64) -> u64 {
    if a + b <= u64::MAX {
        (a + b) as u64
    } else {
        u64::MAX
    }
}

fn sat_add(a: u64, b: u64) -> (r: u64)
    ensures
        r == spec_sat_add(a, b),
{
    if a <= u64::MAX - b {
        a + b
    } else {
        u64::MAX
    }
}

/// The in-memory coordination store.
pub struct MemoryStore {
    pub entries: Vec<StoreEntry>,
    pub leases: Vec<LeaseRec>,
    /// The logical clock, in seconds.
    pub now: u64,
    pub next_lease_id: i64,
    /// Every put and delete so far, in order; watch consumers replay a
    /// suffix of this log.
    pub events: Vec<WatchEvent>,
}

impl MemoryStore {
    /// The live bindings, as a map from key to stored bytes.
    pub open spec fn contents(&self) -> Map<Seq<char>, Seq<u8>> {
        entries_map(self.entries@)
    }

    /// The lease the entry of `k` is attached to.
    pub open spec fn lease_of(&self, k: Seq<char>) -> i64 {
        self.entries@[idx_of(self.entries@, k)].lease
    }

    /// A lease with this identifier is currently live.
    pub open spec fn lease_live(&self, id: i64) -> bool {
        lease_live_in(self.leases@, id)
    }

    /// The index of the live lease with this identifier.
    pub open spec fn lease_idx(&self, id: i64) -> int {
        choose|i: int| 0 <= i < self.leases@.len() && (#[trigger] self.leases@[i]).id == id
    }

    /// The granted time to live of a live lease.
    pub open spec fn lease_ttl(&self, id: i64) -> u64 {
        self.leases@[self.lease_idx(id)].ttl
    }

    /// The instant at which a live lease expires unless refreshed.
    pub open spec fn lease_expiry(&self, id: i64) -> u64 {
        self.leases@[self.lease_idx(id)].expires_at
    }

    /// The events so far, as views, in delivery order.
    pub open spec fn events_view(&self) -> Seq<EventView> {
        events_views(self.events@)
    }

    /// No two live leases share an identifier.
    pub open spec fn leases_unique(&self) -> bool {
        forall|i: int, j: int|
            0 <= i < j < self.leases@.len() ==> (#[trigger] self.leases@[i]).id != (
            #[trigger] self.leases@[j]).id
    }

    /// Well-formedness: unique keys and lease identifiers, every entry's
    /// lease live or absent, identifiers positive and below the allocator
    /// cursor, and no live lease already expired.
    pub open spec fn wf(&self) -> bool {
        &&& keys_unique(self.entries@)
        &&& self.leases_unique()
        &&& forall|i: int|
            0 <= i < self.entries@.len() ==> ((#[trigger] self.entries@[i]).lease == 0
                || self.lease_live(self.entries@[i].lease))
        &&& forall|i: int|
            0 <= i < self.leases@.len() ==> 1 <= (#[trigger] self.leases@[i]).id
                < self.next_lease_id && self.leases@[i].ttl >= 1 && self.leases@[i].expires_at
                > self.now
        &&& self.next_lease_id >= 1
    }

    /// An empty store at instant zero.
    pub fn new() -> (s: MemoryStore)
        ensures
            s.wf(),
            s.contents() == Map::<Seq<char>, Seq<u8>>::empty(),
            s.events_view() == Seq::<EventView>::empty(),
            s.now == 0,
            forall|id: i64| !s.lease_live(id),
    {
        let s = MemoryStore {
            entries: Vec::new(),
            leases: Vec::new(),
            now: 0,
            next_lease_id: 1,
            events: Vec::new(),
        };
        proof {
            assert(s.contents() =~= Map::<Seq<char>, Seq<u8>>::empty());
            assert(s.events_view() =~= Seq::<EventView>::empty());
        }
        s
    }

    /// The index of the entry holding `key`, if one does.
    fn find_key(&self, key: &String) -> (r: Option<usize>)
        requires
            keys_unique(self.entries@),
        ensures
            match r {
                Some(i) => i < self.entries@.len() && self.entries@[i as int].key@ == key@
                    && has_key(self.entries@, key@) && idx_of(self.entries@, key@) == i,
                None => !has_key(self.entries@, key@),
            },
    {
        let mut i: usize = 0;
        while i < self.entries.len()
            invariant
                i <= self.entries@.len(),
                keys_unique(self.entries@),
                forall|j: int| 0 <= j < i ==> (#[trigger] self.entries@[j]).key@ != key@,
            decreases self.entries@.len() - i,
        {
            if self.entries[i].key == *key {
                proof {
                    lemma_idx_of_unique(self.entries@, key@, i as int);
                }
                return Some(i);
            }
            i = i + 1;
        }
        None
    }

    /// A snapshot read of one key.
    pub fn get(&self, key: &String) -> (r: Option<Vec<u8>>)
        requires
            self.wf(),
        ensures
            match r {
                Some(v) => self.contents().dom().contains(key@) && v@ == self.contents()[key@],
                None => !self.contents().dom().contains(key@),
            },
    {
        match self.find_key(key) {
            Some(i) => {
                let v = self.entries[i].value.clone();
                proof {
                    assert(v@ =~= self.entries@[i as int].value@);
                }
                Some(v)
            },
            None => None,
        }
    }

    /// Grants a fresh lease with the given time to live.
    pub fn lease_grant(&mut self, ttl: u64) -> (id: i64)
        requires
            old(self).wf(),
            ttl >= 1,
            old(self).now < u64::MAX,
            old(self).next_lease_id < i64::MAX,
        ensures
            final(self).wf(),
            id == old(self).next_lease_id,
            id >= 1,
            !old(self).lease_live(id),
            final(self).lease_live(id),
            final(self).lease_ttl(id) == ttl,
            final(self).lease_expiry(id) == spec_sat_add(old(self).now, ttl),
            forall|other: i64|
                #![trigger final(self).lease_live(other)]
                #![trigger old(self).lease_live(other)]
                other != id ==> (final(self).lease_live(other) <==> old(self).lease_live(other)),
            final(self).entries == old(self).entries,
            final(self).events == old(self).events,
            final(self).now == old(self).now,
            final(self).next_lease_id == old(self).next_lease_id + 1,
            final(self).contents() == old(self).contents(),
    {
        let id = self.next_lease_id;
        let expires_at = sat_add(self.now, ttl);
        self.leases.push(LeaseRec { id, ttl, expires_at });
        self.next_lease_id = self.next_lease_id + 1;
        proof {
            let post = self.leases@;
            let n = post.len() - 1;
            assert(post[n].id == id);
            assert(forall|i: int| 0 <= i < n ==> (#[trigger] post[i]).id < id);
            if old(self).lease_live(id) {
                let i = old(self).lease_idx(id);
                assert(old(self).leases@[i].id < id);
                assert(false);
            }
            assert(self.lease_live(id));
            assert forall|i: int| 0 <= i < post.len() && (#[trigger] post[i]).id == id implies i
                == n by {
                if i < n {
                    assert(post[i].id < id);
                }
            }
            assert(self.lease_idx(id) == n);
            assert(spec_sat_add(old(self).now, ttl) > old(self).now);
            assert forall|other: i64| other != id implies (self.lease_live(other) <==> old(self).lease_live(other)) by {
                if self.lease_live(other) {
                    let i = self.lease_idx(other);
                    assert(post[i].id == other);
                    assert(i != n);
                    assert(old(self).leases@[i].id == other);
                    assert(old(self).lease_live(other));
                }
                if old(self).lease_live(other) {
                    let i = old(self).lease_idx(other);
                    assert(post[i].id == other);
                    assert(self.lease_live(other));
                }
            }
        }
        id
    }

    /// Refreshes a lease: on success the expiry moves to `now + ttl` and
    /// the acknowledged remaining time to live is positive. A vanished
    /// lease acknowledges zero and changes nothing: the caller must treat
    /// that as lease loss.
    pub fn keep_alive(&mut self, id: i64) -> (ttl: u64)
        requires
            old(self).wf(),
        ensures
            final(self).wf(),
            old(self).lease_live(id) ==> ttl == old(self).lease_ttl(id) && ttl >= 1,
            !old(self).lease_live(id) ==> ttl == 0 && *final(self) == *old(self),
            final(self).leases@.len() == old(self).leases@.len(),
            forall|other: i64|
                #![trigger final(self).lease_live(other)]
                #![trigger old(self).lease_live(other)]
                final(self).lease_live(other) <==> old(self).lease_live(other),
            old(self).lease_live(id) ==> final(self).lease_expiry(id) == spec_sat_add(
                old(self).now,
                old(self).lease_ttl(id),
            ) && final(self).lease_ttl(id) == old(self).lease_ttl(id),
            forall|other: i64|
                #![trigger final(self).lease_expiry(other)]
                #![trigger old(self).lease_expiry(other)]
                other != id && old(self).lease_live(other) ==> final(self).lease_expiry(other)
                    == old(self).lease_expiry(other) && final(self).lease_ttl(other) == old(self).lease_ttl(other),
            final(self).entries == old(self).entries,
            final(self).events == old(self).events,
            final(self).now == old(self).now,
            final(self).next_lease_id == old(self).next_lease_id,
            final(self).contents() == old(self).contents(),
    {
        let mut i: usize = 0;
        while i < self.leases.len()
            invariant
                i <= self.leases@.len(),
                self == old(self),
                old(self).wf(),
                forall|j: int| 0 <= j < i ==> (#[trigger] self.leases@[j]).id != id,
            decreases self.leases@.len() - i,
        {
            if self.leases[i].id == id {
                let ttl = self.leases[i].ttl;
                let expires_at = sat_add(self.now, ttl);
                let ghost pre = self.leases@;
                let rec = LeaseRec { id, ttl, expires_at };
                self.leases.remove(i);
                self.leases.insert(i, rec);
                proof {
                    let post = self.leases@;
                    assert(post =~= pre.update(i as int, rec));
                    assert forall|p: int, q: int| 0 <= p < q < post.len() implies (
                    #[trigger] post[p]).id != (#[trigger] post[q]).id by {
                        assert(pre[p].id != pre[q].id);
                        assert(post[p].id == pre[p].id);
                        assert(post[q].id == pre[q].id);
                    }
                    assert forall|other: i64| self.lease_live(other) <==> old(self).lease_live(
                        other,
                    ) by {
                        if self.lease_live(other) {
                            let p = self.lease_idx(other);
                            assert(pre[p].id == post[p].id);
                            assert(old(self).lease_live(other));
                        }
                        if old(self).lease_live(other) {
                            let p = old(self).lease_idx(other);
                            assert(post[p].id == pre[p].id);
                            assert(self.lease_live(other));
                        }
                    }
                    assert(old(self).lease_idx(id) == i as int) by {
                        let p = old(self).lease_idx(id);
                        assert(old(self).lease_live(id));
                        assert(pre[p].id == id);
                        if p < i as int {
                            assert(pre[p].id != id);
                        }
                        if p > i as int {
                            assert(pre[i as int].id != pre[p].id);
                        }
                    }
                    assert(self.lease_idx(id) == i as int) by {
                        let p = self.lease_idx(id);
                        assert(self.lease_live(id));
                        assert(post[p].id == id);
                        if p != i as int {
                            assert(pre[p].id == id);
                            assert(pre[p].id != pre[i as int].id);
                        }
                    }
                    assert forall|other: i64| other != id && old(self).lease_live(other) implies
                        self.lease_expiry(other) == old(self).lease_expiry(other)
                        && self.lease_ttl(other) == old(self).lease_ttl(other) by {
                        let p = old(self).lease_idx(other);
                        assert(pre[p].id == other);
                        assert(p != i as int);
                        assert(post[p] == pre[p]);
                        assert(self.lease_idx(other) == p) by {
                            let q = self.lease_idx(other);
                            assert(self.lease_live(other));
                            assert(post[q].id == other);
                            if q != p {
                                if q == i as int {
                                    assert(post[q].id == id);
                                } else {
                                    assert(pre[q].id == other);
                                    if p < q {
                                        assert(pre[p].id != pre[q].id);
                                    } else {
                                        assert(pre[q].id != pre[p].id);
                                    }
                                }
                            }
                        }
                    }
                    assert(spec_sat_add(old(self).now, ttl) > old(self).now);
                }
                return ttl;
            }
            i = i + 1;
        }
        proof {
            if old(self).lease_live(id) {
                let p = old(self).lease_idx(id);
                assert(self.leases@[p].id != id);
                assert(false);
            }
        }
        0
    }
}

/// Copies a byte vector.
pub fn clone_bytes(v: &Vec<u8>) -> (r: Vec<u8>)
    ensures
        r@ == v@,
{
    let mut r: Vec<u8> = Vec::new();
    let mut i: usize = 0;
    while i < v.len()
        invariant
            i <= v@.len(),
            r@ == v@.take(i as int),
        decreases v@.len() - i,
    {
        r.push(v[i]);
        proof {
            assert(v@.take(i as int).push(v@[i as int]) =~= v@.take(i + 1 as int));
        }
        i = i + 1;
    }
    proof {
        assert(v@.take(v@.len() as int) =~= v@);
    }
    r
}

/// The entries bound to lease `id`.
pub open spec fn bound_to(id: i64) -> spec_fn(StoreEntry) -> bool {
    |e: StoreEntry| e.lease == id
}

/// The entries not bound to lease `id`.
pub open spec fn not_bound_to(id: i64) -> spec_fn(StoreEntry) -> bool {
    |e: StoreEntry| e.lease != id
}

/// The delete event an entry's removal emits.
pub open spec fn delete_of() -> spec_fn(StoreEntry) -> EventView {
    |e: StoreEntry| EventView::Delete { key: e.key@ }
}

/// The delete events that revoking lease `id` emits: one per bound entry,
/// in entry order.
pub open spec fn delete_events(es: Seq<StoreEntry>, id: i64) -> Seq<EventView> {
    es.filter(bound_to(id)).map_values(delete_of())
}

/// A sequence of owned key/value pairs, as views.
pub open spec fn kv_view(v: Seq<(String, Vec<u8>)>) -> Seq<(Seq<char>, Seq<u8>)> {
    Seq::new(v.len(), |i: int| (v[i].0@, v[i].1@))
}

/// The entries whose key starts with a prefix.
pub open spec fn key_starts_with(prefix: Seq<char>) -> spec_fn(StoreEntry) -> bool {
    |e: StoreEntry| crate::instance::is_prefix_of(prefix, e.key@)
}

/// An entry's binding as a key/value pair of views.
pub open spec fn kv_of() -> spec_fn(StoreEntry) -> (Seq<char>, Seq<u8>) {
    |e: StoreEntry| (e.key@, e.value@)
}

impl MemoryStore {
    /// Whether a lease with this identifier is live.
    pub fn lease_exists(&self, id: i64) -> (r: bool)
        ensures
            r == self.lease_live(id),
    {
        let mut i: usize = 0;
        while i < self.leases.len()
            invariant
                i <= self.leases@.len(),
                forall|j: int| 0 <= j < i ==> (#[trigger] self.leases@[j]).id != id,
            decreases self.leases@.len() - i,
        {
            if self.leases[i].id == id {
                return true;
            }
            i = i + 1;
        }
        proof {
            if self.lease_live(id) {
                let p = self.lease_idx(id);
                assert(self.leases@[p].id != id);
                assert(false);
            }
        }
        false
    }

    /// Writes a binding, replacing any previous value of the key, and
    /// appends the corresponding put event.
    pub fn put(&mut self, key: String, value: Vec<u8>, lease: i64)
        requires
            old(self).wf(),
            lease == 0 || old(self).lease_live(lease),
        ensures
            final(self).wf(),
            final(self).contents() == old(self).contents().insert(key@, value@),
            has_key(final(self).entries@, key@),
            final(self).lease_of(key@) == lease,
            forall|k: Seq<char>|
                #![trigger has_key(final(self).entries@, k)]
                #![trigger has_key(old(self).entries@, k)]
                k != key@ ==> (has_key(final(self).entries@, k) <==> has_key(
                    old(self).entries@,
                    k,
                )),
            forall|k: Seq<char>|
                #![trigger final(self).lease_of(k)]
                #![trigger old(self).lease_of(k)]
                k != key@ && has_key(old(self).entries@, k) ==> final(self).lease_of(k) == old(self).lease_of(k),
            final(self).leases == old(self).leases,
            final(self).now == old(self).now,
            final(self).next_lease_id == old(self).next_lease_id,
            final(self).events_view() == old(self).events_view().push(
                EventView::Put { key: key@, value: value@ },
            ),
    {
        let ekey = key.clone();
        let evalue = clone_bytes(&value);
        let ghost pre = self.entries@;
        let r = self.find_key(&key);
        match r {
            Some(i) => {
                let e = StoreEntry { key, value, lease };
                self.entries.remove(i);
                self.entries.insert(i, e);
                proof {
                    assert(self.entries@ =~= pre.update(i as int, e));
                    lemma_entries_map_update(pre, i as int, e);
                }
            },
            None => {
                let e = StoreEntry { key, value, lease };
                self.entries.push(e);
                proof {
                    lemma_entries_map_push(pre, e);
                }
            },
        }
        proof {
            assert(has_key(self.entries@, key@));
            assert(self.entries@[idx_of(self.entries@, key@)].lease == lease);
        }
        self.events.push(WatchEvent::Put { key: ekey, value: evalue });
        proof {
            assert(self.events_view() =~= old(self).events_view().push(
                EventView::Put { key: ekey@, value: evalue@ },
            ));
            let post = self.entries@;
            assert forall|t: int|
                0 <= t < post.len() implies ((#[trigger] post[t]).lease == 0 || self.lease_live(
                post[t].lease,
            )) by {
                let e2 = post[t];
                lemma_idx_of_unique(post, e2.key@, t);
                if e2.key@ == key@ {
                    assert(e2.lease == lease);
                } else {
                    assert(has_key(pre, e2.key@));
                    assert(post[idx_of(post, e2.key@)] == pre[idx_of(pre, e2.key@)]);
                    lemma_idx_of_some(pre, e2.key@);
                    assert(pre[idx_of(pre, e2.key@)].lease == 0 || old(self).lease_live(
                        pre[idx_of(pre, e2.key@)].lease,
                    ));
                    if e2.lease != 0 && e2.key@ != key@ {
                        assert(old(self).lease_live(e2.lease));
                        let w = old(self).lease_idx(e2.lease);
                        assert(old(self).leases@[w].id == e2.lease);
                        assert(self.leases@[w].id == e2.lease);
                        assert(self.lease_live(e2.lease));
                    }
                }
                if e2.key@ == key@ && lease != 0 {
                    assert(old(self).lease_live(lease));
                    let w = old(self).lease_idx(lease);
                    assert(old(self).leases@[w].id == lease);
                    assert(self.leases@[w].id == lease);
                    assert(self.lease_live(lease));
                }
            }
        }
    }

    /// Deletes a binding if present, appending the corresponding delete
    /// event; deleting an absent key changes nothing.
    pub fn delete(&mut self, key: &String)
        requires
            old(self).wf(),
        ensures
            final(self).wf(),
            final(self).contents() == old(self).contents().remove(key@),
            !has_key(final(self).entries@, key@),
            forall|k: Seq<char>|
                #![trigger has_key(final(self).entries@, k)]
                #![trigger has_key(old(self).entries@, k)]
                k != key@ ==> (has_key(final(self).entries@, k) <==> has_key(
                    old(self).entries@,
                    k,
                )),
            forall|k: Seq<char>|
                #![trigger final(self).lease_of(k)]
                #![trigger old(self).lease_of(k)]
                k != key@ && has_key(old(self).entries@, k) ==> final(self).lease_of(k) == old(self).lease_of(k),
            final(self).leases == old(self).leases,
            final(self).now == old(self).now,
            final(self).next_lease_id == old(self).next_lease_id,
            has_key(old(self).entries@, key@) ==> final(self).events_view() == old(self).events_view().push(EventView::Delete { key: key@ }),
            !has_key(old(self).entries@, key@) ==> *final(self) == *old(self),
    {
        let ghost pre = self.entries@;
        match self.find_key(key) {
            None => {
                proof {
                    assert(self.contents() =~= old(self).contents().remove(key@));
                }
            },
            Some(i) => {
                self.entries.remove(i);
                self.events.push(WatchEvent::Delete { key: key.clone() });
                proof {
                    lemma_entries_map_remove(pre, i as int);
                    assert(self.events_view() =~= old(self).events_view().push(
                        EventView::Delete { key: key@ },
                    ));
                    let post = self.entries@;
                    assert forall|p: int|
                        0 <= p < post.len() implies ((#[trigger] post[p]).lease == 0
                        || self.lease_live(post[p].lease)) by {
                        let e = post[p];
                        lemma_idx_of_unique(post, e.key@, p);
                        assert(e.key@ != pre[i as int].key@) by {
                            if e.key@ == pre[i as int].key@ {
                                assert(has_key(post, pre[i as int].key@));
                            }
                        }
                        assert(has_key(pre, e.key@));
                        assert(post[idx_of(post, e.key@)] == pre[idx_of(pre, e.key@)]);
                        let j = idx_of(pre, e.key@);
                        lemma_idx_of_some(pre, e.key@);
                        assert(pre[j].lease == 0 || old(self).lease_live(pre[j].lease));
                        if e.lease != 0 {
                            assert(old(self).lease_live(e.lease));
                            let w = old(self).lease_idx(e.lease);
                            assert(old(self).leases@[w].id == e.lease);
                            assert(self.leases@[w].id == e.lease);
                            assert(self.lease_live(e.lease));
                        }
                    }
                }
            },
        }
    }

    /// Revokes a lease: the lease vanishes and every binding attached to it
    /// is deleted at once, each deletion appended to the event log in entry
    /// order. Returns whether the lease was live.
    pub fn lease_revoke(&mut self, id: i64) -> (was: bool)
        requires
            old(self).wf(),
            id != 0,
        ensures
            final(self).wf(),
            was == old(self).lease_live(id),
            !final(self).lease_live(id),
            forall|other: i64|
                #![trigger final(self).lease_live(other)]
                #![trigger old(self).lease_live(other)]
                other != id ==> (final(self).lease_live(other) <==> old(self).lease_live(other)),
            forall|other: i64|
                #![trigger final(self).lease_expiry(other)]
                #![trigger old(self).lease_expiry(other)]
                other != id && old(self).lease_live(other) ==> final(self).lease_expiry(other)
                    == old(self).lease_expiry(other) && final(self).lease_ttl(other) == old(self).lease_ttl(other),
            forall|k: Seq<char>|
                #![trigger has_key(final(self).entries@, k)]
                #![trigger has_key(old(self).entries@, k)]
                has_key(final(self).entries@, k) <==> (has_key(old(self).entries@, k) && old(self).lease_of(k) != id),
            forall|k: Seq<char>|
                #![trigger final(self).contents()[k]]
                #![trigger old(self).contents()[k]]
                has_key(old(self).entries@, k) && old(self).lease_of(k) != id ==> final(self).contents()[k] == old(self).contents()[k] && final(self).lease_of(k) == old(self).lease_of(k),
            final(self).now == old(self).now,
            final(self).next_lease_id == old(self).next_lease_id,
            final(self).events_view() == old(self).events_view() + delete_events(
                old(self).entries@,
                id,
            ),
    {
        // Drop the lease record itself.
        let mut was = false;
        let mut i: usize = 0;
        while i < self.leases.len()
            invariant
                i <= self.leases@.len(),
                old(self).wf(),
                self.entries == old(self).entries,
                self.events == old(self).events,
                self.now == old(self).now,
                self.next_lease_id == old(self).next_lease_id,
                !was ==> self.leases == old(self).leases && (forall|j: int|
                    0 <= j < i ==> (#[trigger] self.leases@[j]).id != id),
                was ==> old(self).lease_live(id) && self.leases@ == old(self).leases@.remove(
                    old(self).lease_idx(id),
                ) && (forall|j: int| 0 <= j < self.leases@.len() ==> (#[trigger] self.leases@[j]).id
                    != id),
            decreases self.leases@.len() - i,
        {
            if !was && self.leases[i].id == id {
                proof {
                    let pre = old(self).leases@;
                    assert(old(self).lease_live(id));
                    let p = old(self).lease_idx(id);
                    assert(pre[p].id == id);
                    if p < i as int {
                        assert(pre[p].id != id);
                    }
                    if p > i as int {
                        assert(pre[i as int].id != pre[p].id);
                    }
                    assert(p == i as int);
                }
                self.leases.remove(i);
                was = true;
                proof {
                    let pre = old(self).leases@;
                    assert forall|j: int|
                        0 <= j < self.leases@.len() implies (#[trigger] self.leases@[j]).id
                        != id by {
                        let j0: int = if j < i as int { j } else { j + 1 };
                        assert(self.leases@[j] == pre[j0]);
                        if j0 < i as int {
                            assert(pre[j0].id != id);
                        } else {
                            assert(j0 > i as int);
                            assert(pre[i as int].id != pre[j0].id);
                        }
                    }
                }
            } else {
                i = i + 1;
            }
        }
        proof {
            if !was && old(self).lease_live(id) {
                let p = old(self).lease_idx(id);
                assert(self.leases@[p].id != id);
                assert(false);
            }
        }
        // Drop every binding attached to the lease, one delete event each.
        let ghost pre = old(self).entries@;
        let ghost keep = not_bound_to(id);
        let ghost evs0 = old(self).events_view();
        let ghost lease_state = self.leases@;
        let mut n: usize = 0;
        let ghost mut j: int = 0;
        proof {
            reveal(Seq::filter);
            assert(pre.take(0).filter(keep) =~= Seq::<StoreEntry>::empty());
            assert(pre.take(0).filter(bound_to(id)) =~= Seq::<StoreEntry>::empty());
            assert(self.entries@ =~= pre.take(0).filter(keep) + pre.skip(0));
            assert(pre.take(0).filter(bound_to(id)).map_values(delete_of())
                =~= Seq::<EventView>::empty());
            assert(self.events_view() =~= evs0 + pre.take(0).filter(bound_to(id)).map_values(
                delete_of(),
            ));
        }
        while n < self.entries.len()
            invariant
                0 <= j <= pre.len(),
                n as int == pre.take(j).filter(keep).len(),
                self.entries@ == pre.take(j).filter(keep) + pre.skip(j),
                self.events_view() == evs0 + pre.take(j).filter(bound_to(id)).map_values(
                    delete_of(),
                ),
                self.leases@ == lease_state,
                self.now == old(self).now,
                self.next_lease_id == old(self).next_lease_id,
                keep == not_bound_to(id),
            decreases self.entries@.len() - n,
        {
            let ghost evs_head = self.events_view();
            proof {
                reveal(Seq::filter);
                assert(self.entries@[n as int] == pre.skip(j)[0]);
                assert(pre.skip(j)[0] == pre[j]);
                assert(pre.take(j + 1) =~= pre.take(j).push(pre[j]));
                assert(pre.take(j + 1).drop_last() =~= pre.take(j));
            }
            if self.entries[n].lease == id {
                let e = self.entries.remove(n);
                self.events.push(WatchEvent::Delete { key: e.key });
                proof {
                    reveal(Seq::filter);
                    assert(e == pre[j]);
                    assert(pre.take(j + 1).filter(keep) =~= pre.take(j).filter(keep));
                    assert(self.entries@ =~= pre.take(j + 1).filter(keep) + pre.skip(j + 1)) by {
                        assert((pre.take(j).filter(keep) + pre.skip(j)).remove(n as int)
                            =~= pre.take(j).filter(keep) + pre.skip(j).drop_first());
                        assert(pre.skip(j).drop_first() =~= pre.skip(j + 1));
                    }
                    let dropped = bound_to(id);
                    let del = delete_of();
                    assert(dropped(pre[j]));
                    assert(pre.take(j + 1).filter(dropped) =~= pre.take(j).filter(dropped).push(
                        pre[j],
                    ));
                    assert(pre.take(j + 1).filter(dropped).map_values(del) =~= pre.take(
                        j,
                    ).filter(dropped).map_values(del).push(del(pre[j])));
                    assert(del(pre[j]) == EventView::Delete { key: e.key@ });
                    assert(self.events_view() =~= evs_head.push(
                        EventView::Delete { key: e.key@ },
                    )) by {
                        assert(self.events@.len() == evs_head.len() + 1);
                    }
                    assert(self.events_view() =~= evs0 + pre.take(j + 1).filter(dropped)
                        .map_values(del)) by {
                        assert(evs_head == evs0 + pre.take(j).filter(dropped).map_values(del));
                        assert((evs0 + pre.take(j).filter(dropped).map_values(del)).push(
                            del(pre[j]),
                        ) =~= evs0 + pre.take(j).filter(dropped).map_values(del).push(del(pre[j])));
                    }
                    j = j + 1;
                }
            } else {
                proof {
                    reveal(Seq::filter);
                    assert(keep(pre[j]));
                    assert(pre.take(j + 1).filter(keep) =~= pre.take(j).filter(keep).push(pre[j]));
                    assert(pre.take(j + 1).filter(bound_to(id)) =~= pre.take(j).filter(
                        bound_to(id),
                    ));
                    assert(self.entries@ =~= pre.take(j + 1).filter(keep) + pre.skip(j + 1)) by {
                        assert(pre.skip(j) =~= seq![pre[j]] + pre.skip(j + 1));
                    }
                    j = j + 1;
                }
                n = n + 1;
            }
        }
        proof {
            reveal(Seq::filter);
            assert(pre.skip(j).len() == 0);
            assert(j == pre.len());
            assert(pre.take(j) =~= pre);
            assert(self.entries@ =~= pre.filter(keep));
            let post = self.entries@;
            // Unique keys survive filtering: every post entry is a pre entry.
            assert forall|p: int, q: int|
                0 <= p < q < post.len() implies (#[trigger] post[p]).key@ != (
            #[trigger] post[q]).key@ by {
                lemma_filter_distinct(pre, keep, p, q);
            }
            assert forall|k: Seq<char>|
                has_key(post, k) implies (has_key(pre, k) && old(self).lease_of(k) != id
                && post[idx_of(post, k)] == pre[idx_of(pre, k)]) by {
                lemma_idx_of_some(post, k);
                let p = idx_of(post, k);
                pre.lemma_filter_pred(keep, p);
                lemma_filter_elem_from(pre, keep, p);
                let e = post[p];
                assert(pre.contains(e));
                let p0 = choose|p0: int| 0 <= p0 < pre.len() && pre[p0] == e;
                lemma_idx_of_unique(pre, k, p0);
            }
            assert forall|k: Seq<char>|
                has_key(pre, k) && old(self).lease_of(k) != id implies has_key(post, k) by {
                lemma_idx_of_some(pre, k);
                let p0 = idx_of(pre, k);
                assert(keep(pre[p0]));
                pre.lemma_filter_contains(keep, p0);
                assert(post.contains(pre[p0]));
                let p = choose|p: int| 0 <= p < post.len() && post[p] == pre[p0];
                assert(has_key(post, k));
            }
            assert forall|k: Seq<char>|
                has_key(pre, k) && old(self).lease_of(k) != id implies self.contents()[k] == old(self).contents()[k] && self.lease_of(k) == old(self).lease_of(k) by {}
            assert forall|p: int|
                0 <= p < post.len() implies ((#[trigger] post[p]).lease == 0 || self.lease_live(
                post[p].lease,
            )) by {
                pre.lemma_filter_pred(keep, p);
                lemma_filter_elem_from(pre, keep, p);
                let e = post[p];
                assert(pre.contains(e));
                let p0 = choose|p0: int| 0 <= p0 < pre.len() && pre[p0] == e;
                assert(pre[p0].lease == 0 || old(self).lease_live(pre[p0].lease));
                if e.lease != 0 {
                    assert(e.lease != id);
                    let q = old(self).lease_idx(e.lease);
                    if was {
                        let rem = old(self).lease_idx(id);
                        assert(old(self).leases@[q].id == e.lease);
                        assert(q != rem);
                        if q < rem {
                            assert(self.leases@[q] == old(self).leases@[q]);
                        } else {
                            assert(self.leases@[q - 1] == old(self).leases@[q]);
                        }
                        assert(self.lease_live(e.lease));
                    } else {
                        assert(self.lease_live(e.lease));
                    }
                }
            }
            if was {
                let rem = old(self).lease_idx(id);
                assert forall|p: int, q: int|
                    0 <= p < q < self.leases@.len() implies (#[trigger] self.leases@[p]).id != (
                #[trigger] self.leases@[q]).id by {
                    let p0: int = if p < rem { p } else { p + 1 };
                    let q0: int = if q < rem { q } else { q + 1 };
                    assert(self.leases@[p] == old(self).leases@[p0]);
                    assert(self.leases@[q] == old(self).leases@[q0]);
                    assert(old(self).leases@[p0].id != old(self).leases@[q0].id);
                }
                assert forall|other: i64|
                    other != id implies (self.lease_live(other) <==> old(self).lease_live(
                    other,
                )) by {
                    if self.lease_live(other) {
                        let p = self.lease_idx(other);
                        let p0: int = if p < rem { p } else { p + 1 };
                        assert(self.leases@[p] == old(self).leases@[p0]);
                        assert(old(self).lease_live(other));
                    }
                    if old(self).lease_live(other) {
                        let p0 = old(self).lease_idx(other);
                        assert(p0 != rem);
                        if p0 < rem {
                            assert(self.leases@[p0] == old(self).leases@[p0]);
                            assert(self.lease_live(other));
                        } else {
                            assert(self.leases@[p0 - 1] == old(self).leases@[p0]);
                            assert(self.lease_live(other));
                        }
                    }
                }
                assert forall|other: i64|
                    other != id && old(self).lease_live(other) implies self.lease_expiry(other)
                    == old(self).lease_expiry(other) && self.lease_ttl(other) == old(self).lease_ttl(other) by {
                    let p0 = old(self).lease_idx(other);
                    assert(p0 != rem);
                    let p: int = if p0 < rem { p0 } else { p0 - 1 };
                    assert(self.leases@[p] == old(self).leases@[p0]);
                    assert(self.lease_idx(other) == p) by {
                        let q = self.lease_idx(other);
                        assert(self.lease_live(other));
                        assert(self.leases@[q].id == other);
                        if q != p {
                            let q0: int = if q < rem { q } else { q + 1 };
                            assert(self.leases@[q] == old(self).leases@[q0]);
                            assert(old(self).leases@[q0].id == other);
                            assert(old(self).leases@[p0].id == other);
                            if p0 < q0 {
                                assert(old(self).leases@[p0].id != old(self).leases@[q0].id);
                            } else {
                                assert(q0 != p0);
                                assert(old(self).leases@[q0].id != old(self).leases@[p0].id);
                            }
                        }
                    }
                }
            }
            if self.lease_live(id) {
                let p = self.lease_idx(id);
                assert(self.leases@[p].id != id);
                assert(false);
            }
        }
        was
    }

    /// A consistent prefix read: every binding whose key starts with the
    /// prefix, in entry order.
    pub fn get_prefix(&self, prefix: &String) -> (r: Vec<(String, Vec<u8>)>)
        requires
            self.wf(),
        ensures
            kv_view(r@) == self.entries@.filter(key_starts_with(prefix@)).map_values(kv_of()),
    {
        let ghost pred = key_starts_with(prefix@);
        let ghost kv = kv_of();
        let mut r: Vec<(String, Vec<u8>)> = Vec::new();
        let mut i: usize = 0;
        proof {
            reveal(Seq::filter);
            assert(self.entries@.take(0).filter(pred) =~= Seq::<StoreEntry>::empty());
            assert(kv_view(r@) =~= self.entries@.take(0).filter(pred).map_values(kv));
        }
        while i < self.entries.len()
            invariant
                i <= self.entries@.len(),
                kv_view(r@) == self.entries@.take(i as int).filter(pred).map_values(kv),
                pred == key_starts_with(prefix@),
                kv == kv_of(),
            decreases self.entries@.len() - i,
        {
            let ghost es = self.entries@;
            proof {
                reveal(Seq::filter);
                assert(es.take(i + 1) =~= es.take(i as int).push(es[i as int]));
                assert(es.take(i + 1).drop_last() =~= es.take(i as int));
            }
            if crate::instance::check_prefix(self.entries[i].key.as_str(), prefix.as_str()) {
                let pair = (self.entries[i].key.clone(), clone_bytes(&self.entries[i].value));
                let ghost r0 = r@;
                r.push(pair);
                proof {
                    reveal(Seq::filter);
                    assert(pred(es[i as int]));
                    assert(es.take(i + 1).filter(pred) =~= es.take(i as int).filter(pred).push(
                        es[i as int],
                    ));
                    assert(es.take(i + 1).filter(pred).map_values(kv) =~= es.take(i as int).filter(
                        pred,
                    ).map_values(kv).push(kv(es[i as int])));
                    assert(kv_view(r@) =~= kv_view(r0).push((pair.0@, pair.1@)));
                    assert((pair.0@, pair.1@) == kv(es[i as int]));
                }
            } else {
                proof {
                    reveal(Seq::filter);
                    assert(!pred(es[i as int]));
                    assert(es.take(i + 1).filter(pred) =~= es.take(i as int).filter(pred));
                }
            }
            i = i + 1;
        }
        proof {
            assert(self.entries@.take(self.entries@.len() as int) =~= self.entries@);
        }
        r
    }
}


/// Every element of a filtered sequence comes from the original.
pub proof fn lemma_filter_elem_from<A>(s: Seq<A>, pred: spec_fn(A) -> bool, i: int)
    requires
        0 <= i < s.filter(pred).len(),
    ensures
        s.contains(s.filter(pred)[i]),
    decreases s.len(),
{
    reveal(Seq::filter);
    if s.len() == 0 {
    } else {
        let front = s.drop_last();
        if pred(s.last()) {
            if i < s.filter(pred).len() - 1 {
                assert(s.filter(pred)[i] == front.filter(pred)[i]);
                lemma_filter_elem_from(front, pred, i);
                let j = choose|j: int| 0 <= j < front.len() && front[j] == front.filter(pred)[i];
                assert(s[j] == front[j]);
            } else {
                assert(s.filter(pred)[i] == s.last());
                assert(s[s.len() - 1] == s.last());
            }
        } else {
            assert(s.filter(pred) == front.filter(pred));
            lemma_filter_elem_from(front, pred, i);
            let j = choose|j: int| 0 <= j < front.len() && front[j] == front.filter(pred)[i];
            assert(s[j] == front[j]);
        }
    }
}

/// In a sequence with pairwise distinct keys, distinct positions of a
/// filtered copy hold distinct keys.
pub proof fn lemma_filter_distinct(
    es: Seq<StoreEntry>,
    pred: spec_fn(StoreEntry) -> bool,
    p: int,
    q: int,
)
    requires
        keys_unique(es),
        0 <= p < q < es.filter(pred).len(),
    ensures
        es.filter(pred)[p].key@ != es.filter(pred)[q].key@,
    decreases es.len(),
{
    reveal(Seq::filter);
    if es.len() == 0 {
    } else {
        let last = es.last();
        let front = es.drop_last();
        assert(keys_unique(front)) by {
            assert(forall|a: int, b: int|
                0 <= a < b < front.len() ==> (#[trigger] front[a]).key@ == es[a].key@ && (
                #[trigger] front[b]).key@ == es[b].key@);
        }
        if pred(last) {
            assert(es.filter(pred) == front.filter(pred).push(last));
            let f = es.filter(pred);
            if q < f.len() - 1 {
                assert(front.filter(pred)[p] == f[p]);
                assert(front.filter(pred)[q] == f[q]);
                lemma_filter_distinct(front, pred, p, q);
            } else {
                // q holds the appended last entry; p's entry came from the
                // front, whose keys all differ from the last one's.
                assert(f[q] == last);
                assert(front.filter(pred)[p] == f[p]);
                lemma_filter_elem_from(front, pred, p);
                assert(front.contains(f[p]));
                let p0 = choose|p0: int| 0 <= p0 < front.len() && front[p0] == f[p];
                assert(es[p0] == front[p0]);
                assert(es[p0].key@ != es[es.len() - 1].key@);
            }
        } else {
            assert(es.filter(pred) == front.filter(pred));
            lemma_filter_distinct(front, pred, p, q);
        }
    }
}

/// Lease records with pairwise distinct identifiers keep them distinct
/// after filtering.
pub proof fn lemma_filter_distinct_ids(
    ls: Seq<LeaseRec>,
    pred: spec_fn(LeaseRec) -> bool,
    p: int,
    q: int,
)
    requires
        forall|a: int, b: int|
            0 <= a < b < ls.len() ==> (#[trigger] ls[a]).id != (#[trigger] ls[b]).id,
        0 <= p < q < ls.filter(pred).len(),
    ensures
        ls.filter(pred)[p].id != ls.filter(pred)[q].id,
    decreases ls.len(),
{
    reveal(Seq::filter);
    if ls.len() == 0 {
    } else {
        let last = ls.last();
        let front = ls.drop_last();
        assert(forall|a: int, b: int|
            0 <= a < b < front.len() ==> (#[trigger] front[a]).id == ls[a].id && (
            #[trigger] front[b]).id == ls[b].id);
        if pred(last) {
            let f = ls.filter(pred);
            assert(f == front.filter(pred).push(last));
            if q < f.len() - 1 {
                assert(front.filter(pred)[p] == f[p]);
                assert(front.filter(pred)[q] == f[q]);
                lemma_filter_distinct_ids(front, pred, p, q);
            } else {
                assert(f[q] == last);
                assert(front.filter(pred)[p] == f[p]);
                lemma_filter_elem_from(front, pred, p);
                let p0 = choose|p0: int| 0 <= p0 < front.len() && front[p0] == f[p];
                assert(ls[p0] == front[p0]);
                assert(ls[p0].id != ls[ls.len() - 1].id);
            }
        } else {
            assert(ls.filter(pred) == front.filter(pred));
            lemma_filter_distinct_ids(front, pred, p, q);
        }
    }
}

impl MemoryStore {
    /// Moves the clock forward. Every lease whose expiry is reached
    /// vanishes, and every binding attached to such a lease is deleted,
    /// with one delete event per dropped binding in entry order: exactly
    /// what happens when a keepalive stops refreshing for longer than the
    /// time to live.
    pub fn advance(&mut self, dt: u64)
        requires
            old(self).wf(),
            old(self).now + dt <= u64::MAX,
        ensures
            final(self).wf(),
            final(self).now == old(self).now + dt,
            forall|id: i64|
                final(self).lease_live(id) <==> lease_surviving(
                    old(self).leases@,
                    id,
                    (old(self).now + dt) as u64,
                ),
            forall|id: i64|
                final(self).lease_live(id) ==> final(self).lease_expiry(id) == old(
                    self,
                ).lease_expiry(id) && final(self).lease_ttl(id) == old(self).lease_ttl(id),
            forall|k: Seq<char>|
                has_key(final(self).entries@, k) <==> (has_key(old(self).entries@, k)
                    && live_entry(old(self).leases@, (old(self).now + dt) as u64)(
                    old(self).entries@[idx_of(old(self).entries@, k)],
                )),
            forall|k: Seq<char>|
                has_key(final(self).entries@, k) ==> final(self).contents()[k] == old(
                    self,
                ).contents()[k] && final(self).lease_of(k) == old(self).lease_of(k),
            final(self).next_lease_id == old(self).next_lease_id,
            final(self).events_view() == old(self).events_view() + old(self).entries@.filter(
                expired_entry(old(self).leases@, (old(self).now + dt) as u64),
            ).map_values(delete_of()),
    {
        let t = self.now + dt;
        self.now = t;
        // Drop the lease records that have run out.
        let ghost lpre = old(self).leases@;
        let mut n: usize = 0;
        let ghost mut j: int = 0;
        proof {
            reveal(Seq::filter);
            assert(lpre.take(0).filter(lease_alive_at(t)) =~= Seq::<LeaseRec>::empty());
            assert(self.leases@ =~= lpre.take(0).filter(lease_alive_at(t)) + lpre.skip(0));
        }
        while n < self.leases.len()
            invariant
                0 <= j <= lpre.len(),
                n as int == lpre.take(j).filter(lease_alive_at(t)).len(),
                self.leases@ == lpre.take(j).filter(lease_alive_at(t)) + lpre.skip(j),
                self.entries == old(self).entries,
                self.events == old(self).events,
                self.now == t,
                self.next_lease_id == old(self).next_lease_id,
            decreases self.leases@.len() - n,
        {
            proof {
                reveal(Seq::filter);
                assert(self.leases@[n as int] == lpre.skip(j)[0]);
                assert(lpre.skip(j)[0] == lpre[j]);
                assert(lpre.take(j + 1) =~= lpre.take(j).push(lpre[j]));
                assert(lpre.take(j + 1).drop_last() =~= lpre.take(j));
            }
            if self.leases[n].expires_at <= t {
                self.leases.remove(n);
                proof {
                    reveal(Seq::filter);
                    assert(!lease_alive_at(t)(lpre[j]));
                    assert(lpre.take(j + 1).filter(lease_alive_at(t)) =~= lpre.take(j).filter(
                        lease_alive_at(t),
                    ));
                    assert(self.leases@ =~= lpre.take(j + 1).filter(lease_alive_at(t)) + lpre.skip(
                        j + 1,
                    )) by {
                        assert((lpre.take(j).filter(lease_alive_at(t)) + lpre.skip(j)).remove(
                            n as int,
                        ) =~= lpre.take(j).filter(lease_alive_at(t)) + lpre.skip(j).drop_first());
                        assert(lpre.skip(j).drop_first() =~= lpre.skip(j + 1));
                    }
                    j = j + 1;
                }
            } else {
                proof {
                    reveal(Seq::filter);
                    assert(lease_alive_at(t)(lpre[j]));
                    assert(lpre.take(j + 1).filter(lease_alive_at(t)) =~= lpre.take(j).filter(
                        lease_alive_at(t),
                    ).push(lpre[j]));
                    assert(self.leases@ =~= lpre.take(j + 1).filter(lease_alive_at(t)) + lpre.skip(
                        j + 1,
                    )) by {
                        assert(lpre.skip(j) =~= seq![lpre[j]] + lpre.skip(j + 1));
                    }
                    j = j + 1;
                }
                n = n + 1;
            }
        }
        proof {
            assert(lpre.skip(j).len() == 0);
            assert(j == lpre.len());
            assert(lpre.take(j) =~= lpre);
            assert(self.leases@ =~= lpre.filter(lease_alive_at(t)));
        }
        let ghost lposts = self.leases@;
        proof {
            assert forall|id: i64| lease_live_in(lposts, id) <==> lease_surviving(
                lpre,
                id,
                t,
            ) by {
                if lease_live_in(lposts, id) {
                    let p = choose|p: int|
                        0 <= p < lposts.len() && (#[trigger] lposts[p]).id == id;
                    lemma_filter_elem_from(lpre, lease_alive_at(t), p);
                    lpre.lemma_filter_pred(lease_alive_at(t), p);
                    let p0 = choose|p0: int| 0 <= p0 < lpre.len() && lpre[p0] == lposts[p];
                    assert(lpre[p0].id == id && lpre[p0].expires_at > t);
                    assert(lease_surviving(lpre, id, t));
                }
                if lease_surviving(lpre, id, t) {
                    let p0 = choose|p0: int|
                        0 <= p0 < lpre.len() && (#[trigger] lpre[p0]).id == id
                            && lpre[p0].expires_at > t;
                    assert(lease_alive_at(t)(lpre[p0]));
                    lpre.lemma_filter_contains(lease_alive_at(t), p0);
                    assert(lposts.contains(lpre[p0]));
                    let p = choose|p: int| 0 <= p < lposts.len() && lposts[p] == lpre[p0];
                    assert(lease_live_in(lposts, id));
                }
            }
            assert forall|a: int, b: int|
                0 <= a < b < lposts.len() implies (#[trigger] lposts[a]).id != (
            #[trigger] lposts[b]).id by {
                lemma_filter_distinct_ids(lpre, lease_alive_at(t), a, b);
            }
            assert forall|p: int|
                0 <= p < lposts.len() implies 1 <= (#[trigger] lposts[p]).id
                < self.next_lease_id && lposts[p].ttl >= 1 && lposts[p].expires_at > t by {
                lemma_filter_elem_from(lpre, lease_alive_at(t), p);
                lpre.lemma_filter_pred(lease_alive_at(t), p);
                let p0 = choose|p0: int| 0 <= p0 < lpre.len() && lpre[p0] == lposts[p];
                assert(1 <= lpre[p0].id < old(self).next_lease_id);
            }
        }
        // Drop every binding attached to a vanished lease, one delete
        // event each.
        let ghost pre = old(self).entries@;
        let ghost evs0 = old(self).events_view();
        let mut m: usize = 0;
        let ghost mut i: int = 0;
        proof {
            reveal(Seq::filter);
            assert(pre.take(0).filter(live_entry(lpre, t)) =~= Seq::<StoreEntry>::empty());
            assert(pre.take(0).filter(expired_entry(lpre, t)) =~= Seq::<StoreEntry>::empty());
            assert(self.entries@ =~= pre.take(0).filter(live_entry(lpre, t)) + pre.skip(0));
            assert(pre.take(0).filter(expired_entry(lpre, t)).map_values(delete_of())
                =~= Seq::<EventView>::empty());
            assert(self.events_view() =~= evs0 + pre.take(0).filter(expired_entry(lpre, t))
                .map_values(delete_of()));
        }
        while m < self.entries.len()
            invariant
                0 <= i <= pre.len(),
                m as int == pre.take(i).filter(live_entry(lpre, t)).len(),
                self.entries@ == pre.take(i).filter(live_entry(lpre, t)) + pre.skip(i),
                self.events_view() == evs0 + pre.take(i).filter(expired_entry(lpre, t))
                    .map_values(delete_of()),
                self.leases@ == lposts,
                self.now == t,
                self.next_lease_id == old(self).next_lease_id,
                forall|id: i64|
                    lease_live_in(lposts, id) <==> lease_surviving(lpre, id, t),
            decreases self.entries@.len() - m,
        {
            let ghost evs_head = self.events_view();
            proof {
                reveal(Seq::filter);
                assert(self.entries@[m as int] == pre.skip(i)[0]);
                assert(pre.skip(i)[0] == pre[i]);
                assert(pre.take(i + 1) =~= pre.take(i).push(pre[i]));
                assert(pre.take(i + 1).drop_last() =~= pre.take(i));
            }
            let lease = self.entries[m].lease;
            if lease != 0 && !self.lease_exists(lease) {
                let e = self.entries.remove(m);
                self.events.push(WatchEvent::Delete { key: e.key });
                proof {
                    reveal(Seq::filter);
                    assert(e == pre[i]);
                    assert(expired_entry(lpre, t)(pre[i]));
                    assert(!live_entry(lpre, t)(pre[i]));
                    assert(pre.take(i + 1).filter(live_entry(lpre, t)) =~= pre.take(i).filter(
                        live_entry(lpre, t),
                    ));
                    assert(self.entries@ =~= pre.take(i + 1).filter(live_entry(lpre, t))
                        + pre.skip(i + 1)) by {
                        assert((pre.take(i).filter(live_entry(lpre, t)) + pre.skip(i)).remove(
                            m as int,
                        ) =~= pre.take(i).filter(live_entry(lpre, t)) + pre.skip(i).drop_first());
                        assert(pre.skip(i).drop_first() =~= pre.skip(i + 1));
                    }
                    assert(pre.take(i + 1).filter(expired_entry(lpre, t)) =~= pre.take(i).filter(
                        expired_entry(lpre, t),
                    ).push(pre[i]));
                    assert(pre.take(i + 1).filter(expired_entry(lpre, t)).map_values(delete_of())
                        =~= pre.take(i).filter(expired_entry(lpre, t)).map_values(
                        delete_of(),
                    ).push(delete_of()(pre[i])));
                    assert(delete_of()(pre[i]) == EventView::Delete { key: e.key@ });
                    assert(self.events_view() =~= evs_head.push(
                        EventView::Delete { key: e.key@ },
                    )) by {
                        assert(self.events@.len() == evs_head.len() + 1);
                    }
                    assert(self.events_view() =~= evs0 + pre.take(i + 1).filter(
                        expired_entry(lpre, t),
                    ).map_values(delete_of())) by {
                        assert(evs_head == evs0 + pre.take(i).filter(expired_entry(lpre, t))
                            .map_values(delete_of()));
                        assert((evs0 + pre.take(i).filter(expired_entry(lpre, t)).map_values(
                            delete_of(),
                        )).push(delete_of()(pre[i])) =~= evs0 + pre.take(i).filter(
                            expired_entry(lpre, t),
                        ).map_values(delete_of()).push(delete_of()(pre[i])));
                    }
                    i = i + 1;
                }
            } else {
                proof {
                    reveal(Seq::filter);
                    assert(live_entry(lpre, t)(pre[i]));
                    assert(!expired_entry(lpre, t)(pre[i]));
                    assert(pre.take(i + 1).filter(live_entry(lpre, t)) =~= pre.take(i).filter(
                        live_entry(lpre, t),
                    ).push(pre[i]));
                    assert(pre.take(i + 1).filter(expired_entry(lpre, t)) =~= pre.take(i).filter(
                        expired_entry(lpre, t),
                    ));
                    assert(self.entries@ =~= pre.take(i + 1).filter(live_entry(lpre, t))
                        + pre.skip(i + 1)) by {
                        assert(pre.skip(i) =~= seq![pre[i]] + pre.skip(i + 1));
                    }
                    i = i + 1;
                }
                m = m + 1;
            }
        }
        proof {
            reveal(Seq::filter);
            assert(pre.skip(i).len() == 0);
            assert(i == pre.len());
            assert(pre.take(i) =~= pre);
            assert(self.entries@ =~= pre.filter(live_entry(lpre, t)));
            let post = self.entries@;
            assert forall|p: int, q: int|
                0 <= p < q < post.len() implies (#[trigger] post[p]).key@ != (
            #[trigger] post[q]).key@ by {
                lemma_filter_distinct(pre, live_entry(lpre, t), p, q);
            }
            assert forall|k: Seq<char>|
                has_key(post, k) implies (has_key(pre, k) && live_entry(lpre, t)(
                pre[idx_of(pre, k)],
            ) && post[idx_of(post, k)] == pre[idx_of(pre, k)]) by {
                lemma_idx_of_some(post, k);
                let p = idx_of(post, k);
                pre.lemma_filter_pred(live_entry(lpre, t), p);
                lemma_filter_elem_from(pre, live_entry(lpre, t), p);
                let e = post[p];
                assert(pre.contains(e));
                let p0 = choose|p0: int| 0 <= p0 < pre.len() && pre[p0] == e;
                lemma_idx_of_unique(pre, k, p0);
            }
            assert forall|k: Seq<char>|
                has_key(pre, k) && live_entry(lpre, t)(pre[idx_of(pre, k)]) implies has_key(
                post,
                k,
            ) by {
                lemma_idx_of_some(pre, k);
                let p0 = idx_of(pre, k);
                pre.lemma_filter_contains(live_entry(lpre, t), p0);
                assert(post.contains(pre[p0]));
                let p = choose|p: int| 0 <= p < post.len() && post[p] == pre[p0];
                assert(has_key(post, k));
            }
            assert forall|p: int|
                0 <= p < post.len() implies ((#[trigger] post[p]).lease == 0 || self.lease_live(
                post[p].lease,
            )) by {
                pre.lemma_filter_pred(live_entry(lpre, t), p);
                let e = post[p];
                if e.lease != 0 {
                    assert(lease_surviving(lpre, e.lease, t));
                    assert(lease_live_in(lposts, e.lease));
                }
            }
            assert forall|id: i64|
                self.lease_live(id) implies self.lease_expiry(id) == old(self).lease_expiry(id)
                && self.lease_ttl(id) == old(self).lease_ttl(id) by {
                let p = self.lease_idx(id);
                assert(lposts[p].id == id);
                lemma_filter_elem_from(lpre, lease_alive_at(t), p);
                let p0 = choose|p0: int| 0 <= p0 < lpre.len() && lpre[p0] == lposts[p];
                assert(old(self).lease_live(id));
                assert(old(self).lease_idx(id) == p0) by {
                    let q0 = old(self).lease_idx(id);
                    assert(lpre[q0].id == id);
                    if q0 != p0 {
                        if q0 < p0 {
                            assert(lpre[q0].id != lpre[p0].id);
                        } else {
                            assert(lpre[p0].id != lpre[q0].id);
                        }
                    }
                }
            }
        }
    }
}


} // verus!
