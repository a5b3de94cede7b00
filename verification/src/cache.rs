//! The cache-aside layer in front of "latest" retrieval.
//!
//! The cache holds one exact copy of the full latest result tree — there
//! is no per-contest entry — stamped with the time it was stored. A read
//! within the TTL is served from the cache without touching the store; any
//! other read goes through to the store and repopulates the cache. Entries
//! are never invalidated by a write: staleness is bounded purely by TTL
//! expiry, so a freshly written snapshot may stay invisible for up to one
//! TTL period. That is an accepted trade-off favoring read-path
//! simplicity; the cache is an optimization, never the source of truth.

use crate::store::{snapshot_contests, SnapshotStore, SnapshotView};
use vstd::prelude::*;

verus! {

/// A cached copy of the latest result tree, stamped with its store time.
pub struct CacheEntry {
    pub stored_at: i64,
    pub view: SnapshotView,
}

/// The read-through cache for `latest()`.
pub struct LatestCache {
    /// Process-lifetime TTL, in the same clock unit the caller supplies.
    pub ttl_seconds: u64,
    pub entry: Option<CacheEntry>,
}

impl LatestCache {
    /// Timestamps never run backwards past the epoch.
    pub open spec fn wf(self) -> bool {
        match self.entry {
            Option::Some(e) => e.stored_at >= 0,
            Option::None => true,
        }
    }

    /// Whether a read at `now` is served from the cache: an entry exists
    /// and has not exceeded its TTL.
    pub open spec fn is_fresh(self, now: i64) -> bool {
        match self.entry {
            Option::Some(e) => e.stored_at <= now && now - e.stored_at
                <= self.ttl_seconds,
            Option::None => false,
        }
    }

    /// An empty cache with the given TTL.
    pub fn new(ttl_seconds: u64) -> (c: LatestCache)
        ensures
            c.wf(),
            c.ttl_seconds == ttl_seconds,
            c.entry is None,
    {
        LatestCache { ttl_seconds, entry: Option::None }
    }

    /// Drop the cached entry. Not needed by normal operation — expiry is
    /// TTL-only — but offered for completeness.
    pub fn invalidate(&mut self)
        ensures
            final(self).wf(),
            final(self).ttl_seconds == old(self).ttl_seconds,
            final(self).entry is None,
    {
        self.entry = Option::None;
    }
}

/// Read the latest snapshot through the cache.
///
/// A fresh entry answers without touching the store and leaves the cache
/// as it is; otherwise the store's `latest()` answers, and — when there is
/// one — a copy of it is cached with a fresh timestamp. An empty store
/// yields nothing and leaves the cache untouched.
pub fn cached_latest(
    cache: &mut LatestCache,
    store: &SnapshotStore,
    now: i64,
) -> (r: Option<SnapshotView>)
    requires
        store.wf(),
        old(cache).wf(),
        now >= 0,
    ensures
        final(cache).wf(),
        final(cache).ttl_seconds == old(cache).ttl_seconds,
        old(cache).is_fresh(now) ==> {
            let cached = old(cache).entry.unwrap().view;
            &&& *final(cache) == *old(cache)
            &&& r matches Option::Some(v)
            &&& r.unwrap().id == cached.id
            &&& r.unwrap().timestamp == cached.timestamp
            &&& r.unwrap().total_votes == cached.total_votes
            &&& r.unwrap().contests.deep_view() == cached.contests.deep_view()
        },
        !old(cache).is_fresh(now) ==> {
            &&& (r is Some <==> store.snapshots@.len() > 0)
            &&& r matches Option::Some(v) ==> {
                &&& v.id == store.snapshots@.last().id
                &&& v.timestamp == store.snapshots@.last().timestamp
                &&& v.total_votes == store.snapshots@.last().total_votes
                &&& v.contests.deep_view() == snapshot_contests(
                    *store,
                    store.snapshots@.len() - 1,
                )
                &&& final(cache).entry matches Option::Some(e)
                &&& e.stored_at == now
                &&& e.view.id == v.id
                &&& e.view.timestamp == v.timestamp
                &&& e.view.total_votes == v.total_votes
                &&& e.view.contests.deep_view() == v.contests.deep_view()
            }
            &&& r is None ==> *final(cache) == *old(cache)
        },
{
    match &cache.entry {
        Option::Some(e) => {
            if e.stored_at <= now {
                let age: i64 = now - e.stored_at;
                if age as u64 <= cache.ttl_seconds {
                    return Option::Some(e.view.duplicate());
                }
            }
        },
        Option::None => {},
    }
    let fetched = store.latest();
    match fetched {
        Option::Some(v) => {
            cache.entry = Option::Some(CacheEntry { stored_at: now, view: v.duplicate() });
            Option::Some(v)
        },
        Option::None => Option::None,
    }
}

} // verus!
