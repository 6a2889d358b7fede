//! The connection pool / balancer: the dynamic set of live backends for
//! one logical service, updated from the discovery client's insert and
//! remove notifications. New calls are routed round-robin over the
//! current set only: a removed backend is never picked again, and a
//! just-inserted backend is eligible at once.

use vstd::prelude::*;
use crate::discovery::{member_has, MembershipMap, PoolUpdate};

verus! {

/// The routing set of one logical service.
pub struct ConnectionPool {
    /// The live backends, keyed by store key, valued by connection target.
    pub backends: MembershipMap,
    /// The round-robin cursor.
    pub next: usize,
}

impl ConnectionPool {
    /// Well-formedness: one backend per store key.
    pub open spec fn wf(&self) -> bool {
        self.backends.wf()
    }

    /// An empty pool.
    pub fn new() -> (r: ConnectionPool)
        ensures
            r.wf(),
            r.backends@ == Map::<Seq<char>, Seq<char>>::empty(),
            r.backends.entries@.len() == 0,
    {
        ConnectionPool { backends: MembershipMap::new(), next: 0 }
    }

    /// Adds or replaces a backend; new calls may be routed to it at once.
    pub fn insert(&mut self, key: String, endpoint: String)
        requires
            old(self).wf(),
        ensures
            final(self).wf(),
            final(self).backends@ == old(self).backends@.insert(key@, endpoint@),
    {
        self.backends.insert_entry(key, endpoint);
    }

    /// Removes a backend: no new call is routed to it after this returns;
    /// calls already in flight on it finish on their own terms.
    pub fn remove(&mut self, key: &String)
        requires
            old(self).wf(),
        ensures
            final(self).wf(),
            final(self).backends@ == old(self).backends@.remove(key@),
            !final(self).backends@.dom().contains(key@),
    {
        self.backends.remove_entry(key);
    }

    /// Applies one membership change from the discovery client.
    pub fn apply_update(&mut self, upd: PoolUpdate)
        requires
            old(self).wf(),
        ensures
            final(self).wf(),
            upd matches PoolUpdate::Insert { key, endpoint } ==> final(self).backends@ == old(
                self,
            ).backends@.insert(key@, endpoint@),
            upd matches PoolUpdate::Remove { key } ==> final(self).backends@ == old(
                self,
            ).backends@.remove(key@),
    {
        match upd {
            PoolUpdate::Insert { key, endpoint } => self.insert(key, endpoint),
            PoolUpdate::Remove { key } => self.remove(&key),
        }
    }

    /// Routes one call: picks the backend at the round-robin cursor and
    /// advances the cursor. The pick is always a member of the current
    /// set, so a removed backend is never routed to; an empty pool yields
    /// nothing.
    pub fn pick(&mut self) -> (r: Option<(String, String)>)
        requires
            old(self).wf(),
        ensures
            final(self).wf(),
            final(self).backends == old(self).backends,
            old(self).backends.entries@.len() == 0 ==> r is None && *final(self) == *old(self),
            old(self).backends.entries@.len() > 0 ==> (r matches Some(b)
                && b == old(self).backends.entries@[old(self).next as int % old(
                self,
            ).backends.entries@.len() as int] && member_has(final(self).backends.entries@, b.0@)
                && final(self).backends@[b.0@] == b.1@ && final(self).next == old(self).next
                as int % old(self).backends.entries@.len() as int + 1),
    {
        let n = self.backends.entries.len();
        if n == 0 {
            return None;
        }
        let i = self.next % n;
        let pair = (self.backends.entries[i].0.clone(), self.backends.entries[i].1.clone());
        self.next = i + 1;
        proof {
            crate::discovery::lemma_member_idx_unique(
                self.backends.entries@,
                self.backends.entries@[i as int].0@,
                i as int,
            );
        }
        Some(pair)
    }
}

} // verus!
