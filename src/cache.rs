//! The record store behind an LRU read cache.

use vstd::prelude::*;

use crate::error::Error;
use crate::lru::{has_key, keys_unique, lemma_remove_keeps_unique, position_of, removed, stored, touched, LruCache};
use crate::stats::{bumped, CacheStats, StatsView};
use crate::storage::{
    lemma_stored_survives_append, lookup, read_outcome, stored_at, appended, StoreModel, ToonStore,
};

verus! {

/// What a cached store holds.
pub struct CachedView {
    pub store: StoreModel,
    pub entries: Seq<(u64, Vec<u8>)>,
    pub stats: StatsView,
    pub capacity: nat,
}

/// Whether a cache entry holds what the store holds for its row: the row is
/// live and its offset holds the entry's bytes followed by a newline.
pub open spec fn entry_matches(v: StoreModel, e: (u64, Vec<u8>)) -> bool {
    lookup(v, e.0 as int) is Some && stored_at(v.data, lookup(v, e.0 as int)->Some_0 as int, e.1@)
}

/// Whether every cache entry holds what the store holds.
pub open spec fn coherent(v: StoreModel, entries: Seq<(u64, Vec<u8>)>) -> bool {
    forall|i: int| 0 <= i < entries.len() ==> entry_matches(v, #[trigger] entries[i])
}

proof fn lemma_coherent_after_stored(v: StoreModel, s: Seq<(u64, Vec<u8>)>, cap: nat, k: u64, x: Vec<u8>)
    requires
        coherent(v, s),
        entry_matches(v, (k, x)),
        cap > 0,
    ensures
        coherent(v, stored(s, cap, k, x)),
{
    let r = stored(s, cap, k, x);
    assert forall|i: int| 0 <= i < r.len() implies entry_matches(v, #[trigger] r[i]) by {
        if i == r.len() - 1 {
        } else if has_key(s, k) {
            let p = position_of(s, k);
            if i < p {
                assert(r[i] == s[i]);
            } else {
                assert(r[i] == s[i + 1]);
            }
        } else if s.len() >= cap {
            assert(r[i] == s[i + 1]);
        } else {
            assert(r[i] == s[i]);
        }
    }
}

proof fn lemma_coherent_after_removal(v: StoreModel, s: Seq<(u64, Vec<u8>)>, p: int)
    requires
        coherent(v, s),
        0 <= p < s.len(),
    ensures
        coherent(v, s.remove(p)),
        coherent(v, s.remove(p).push(s[p])),
{
    let r = s.remove(p);
    assert forall|i: int| 0 <= i < r.len() implies entry_matches(v, #[trigger] r[i]) by {
        if i < p {
            assert(r[i] == s[i]);
        } else {
            assert(r[i] == s[i + 1]);
        }
    }
    let t = r.push(s[p]);
    assert forall|i: int| 0 <= i < t.len() implies entry_matches(v, #[trigger] t[i]) by {
        if i < r.len() {
            assert(t[i] == r[i]);
        }
    }
}

/// The record store with a write-through, read-through LRU cache.
pub struct ToonCache {
    store: ToonStore,
    cache: LruCache<Vec<u8>>,
    stats: CacheStats,
    capacity: usize,
}

impl View for ToonCache {
    type V = CachedView;

    closed spec fn view(&self) -> CachedView {
        CachedView {
            store: self.store@,
            entries: self.cache@,
            stats: self.stats@,
            capacity: self.capacity as nat,
        }
    }
}

impl ToonCache {
    /// The invariant: a valid store and cache, and cache entries that agree
    /// with the store.
    pub closed spec fn wf(&self) -> bool {
        &&& self.store.wf()
        &&& self.cache.wf()
        &&& self.cache.cap() == self.capacity
        &&& coherent(self.store@, self.cache@)
    }

    /// A well-formed cached store holds each row at most once, and each
    /// cached entry agrees with the store.
    pub proof fn lemma_entries_unique(&self)
        requires
            self.wf(),
        ensures
            keys_unique(self@.entries),
            coherent(self@.store, self@.entries),
    {
        self.cache.lemma_wf();
    }

    /// Puts a cache of `capacity` entries in front of `store`.
    pub fn new(store: ToonStore, capacity: usize) -> (r: Self)
        requires
            store.wf(),
            capacity > 0,
        ensures
            r.wf(),
            r@.store == store@,
            r@.entries == Seq::<(u64, Vec<u8>)>::empty(),
            r@.stats == (StatsView { hits: 0, misses: 0, evictions: 0, inserts: 0 }),
            r@.capacity == capacity,
    {
        ToonCache { store, cache: LruCache::new(capacity), stats: CacheStats::new(), capacity }
    }

    /// Appends a record to the store and caches it.
    pub fn put(&mut self, line: &[u8]) -> (r: Result<u64, Error>)
        requires
            old(self).wf(),
        ensures
            final(self).wf(),
            final(self)@.capacity == old(self)@.capacity,
            r is Err ==> final(self)@ == old(self)@,
            r is Ok <==> (!old(self)@.store.closed && line@.len() <= crate::storage::MAX_VALUE_SIZE
                && old(self)@.store.data.len() + line@.len() + 1 <= crate::storage::MAX_DB_SIZE
                && old(self)@.store.index.len() < crate::storage::MAX_ROWS),
            r matches Ok(id) ==> {
                &&& id == old(self)@.store.index.len()
                &&& final(self)@.store == appended(old(self)@.store, line@)
                &&& final(self)@.entries.len() > 0
                &&& final(self)@.entries == stored(
                    old(self)@.entries,
                    old(self)@.capacity,
                    id,
                    final(self)@.entries.last().1,
                )
                &&& final(self)@.entries.last().1@ == line@
                &&& final(self)@.stats == (StatsView {
                    inserts: bumped(old(self)@.stats.inserts),
                    evictions: if old(self)@.entries.len() >= old(self)@.capacity {
                        bumped(old(self)@.stats.evictions)
                    } else {
                        old(self)@.stats.evictions
                    },
                    ..old(self)@.stats
                })
            },
    {
        let row_id = match self.store.put(line) {
            Ok(id) => id,
            Err(e) => {
                return Err(e);
            },
        };
        let copy = vstd::slice::slice_to_vec(line);
        proof {
            let v0 = old(self)@.store;
            let v1 = self.store@;
            assert forall|i: int| 0 <= i < self.cache@.len() implies entry_matches(
                v1,
                #[trigger] self.cache@[i],
            ) by {
                let e = self.cache@[i];
                assert(entry_matches(v0, e));
                let off = lookup(v0, e.0 as int)->Some_0 as int;
                lemma_stored_survives_append(v0.data, off, e.1@, line@ + seq![10u8]);
                assert(v0.data + line@ + seq![10u8] =~= v0.data + (line@ + seq![10u8]));
                assert(v1.index[e.0 as int] == v0.index[e.0 as int]);
            }
            let n = v0.data.len() as int;
            assert(v1.data.subrange(n, n + line@.len()) =~= line@);
            assert(v1.index[row_id as int] == Some(v0.data.len() as u64));
            assert(entry_matches(v1, (row_id, copy)));
            self.cache.lemma_wf();
            lemma_coherent_after_stored(v1, self.cache@, self.cache.cap(), row_id, copy);
        }
        let full = self.cache.len() >= self.capacity;
        proof {
            assert(!has_key(self.cache@, row_id)) by {
                if has_key(self.cache@, row_id) {
                    let j = choose|j: int| 0 <= j < self.cache@.len() && self.cache@[j].0 == row_id;
                    assert(entry_matches(old(self)@.store, self.cache@[j]));
                }
            }
        }
        self.cache.put(row_id, copy);
        self.stats.record_insert();
        if full {
            self.stats.record_eviction();
        }
        Ok(row_id)
    }

    /// Reads row `row_id`, from the cache when it holds the row (a hit), else
    /// from the store (a miss), caching what the store returned.
    pub fn get(&mut self, row_id: u64) -> (r: Result<Vec<u8>, Error>)
        requires
            old(self).wf(),
        ensures
            final(self).wf(),
            final(self)@.store == old(self)@.store,
            final(self)@.capacity == old(self)@.capacity,
            has_key(old(self)@.entries, row_id) ==> {
                &&& r is Ok
                &&& r->Ok_0@ == old(self)@.entries[position_of(old(self)@.entries, row_id)].1@
                &&& final(self)@.entries == touched(old(self)@.entries, row_id)
                &&& final(self)@.stats == (StatsView { hits: bumped(old(self)@.stats.hits), ..old(self)@.stats })
            },
            !has_key(old(self)@.entries, row_id) ==> {
                &&& read_outcome(old(self)@.store, row_id as int, r)
                &&& r is Err ==> final(self)@.stats == (StatsView {
                    misses: bumped(old(self)@.stats.misses),
                    ..old(self)@.stats
                })
                &&& r is Ok ==> final(self)@.stats == (StatsView {
                    misses: bumped(old(self)@.stats.misses),
                    evictions: if old(self)@.entries.len() >= old(self)@.capacity {
                        bumped(old(self)@.stats.evictions)
                    } else {
                        old(self)@.stats.evictions
                    },
                    ..old(self)@.stats
                })
                &&& r is Err ==> final(self)@.entries == old(self)@.entries
                &&& r is Ok ==> final(self)@.entries.len() > 0 && final(self)@.entries == stored(
                    old(self)@.entries,
                    old(self)@.capacity,
                    row_id,
                    final(self)@.entries.last().1,
                ) && final(self)@.entries.last().1@ == r->Ok_0@
            },
            old(self)@.stats.hits < u64::MAX && old(self)@.stats.misses < u64::MAX ==> final(self)@.stats.hits
                + final(self)@.stats.misses == old(self)@.stats.hits + old(self)@.stats.misses + 1,
            r matches Ok(v) ==> entry_matches(old(self)@.store, (row_id, v)),
    {
        proof {
            if has_key(self.cache@, row_id) {
                lemma_coherent_after_removal(self.store@, self.cache@, position_of(self.cache@, row_id));
                assert(entry_matches(self.store@, self.cache@[position_of(self.cache@, row_id)]));
            }
        }
        match self.cache.get(&row_id) {
            Some(v) => {
                let out = v.clone();
                proof {
                    assert(out@ =~= v@);
                }
                self.stats.record_hit();
                return Ok(out);
            },
            None => {},
        }
        self.stats.record_miss();
        let value = match self.store.get(row_id) {
            Ok(v) => v,
            Err(e) => {
                return Err(e);
            },
        };
        let out = value.clone();
        proof {
            assert(out@ =~= value@);
            assert(entry_matches(self.store@, (row_id, value)));
            self.cache.lemma_wf();
            lemma_coherent_after_stored(self.store@, self.cache@, self.cache.cap(), row_id, value);
        }
        let full = self.cache.len() >= self.capacity;
        self.cache.put(row_id, value);
        if full {
            self.stats.record_eviction();
        }
        Ok(out)
    }

    /// Drops row `row_id` from the cache, then tombstones it in the store.
    pub fn delete(&mut self, row_id: u64) -> (r: Result<(), Error>)
        requires
            old(self).wf(),
        ensures
            final(self).wf(),
            final(self)@.capacity == old(self)@.capacity,
            final(self)@.stats == old(self)@.stats,
            final(self)@.entries == removed(old(self)@.entries, row_id),
            r is Ok <==> !old(self)@.store.closed && lookup(old(self)@.store, row_id as int) is Some,
            r is Err ==> final(self)@.store == old(self)@.store,
            r is Ok ==> final(self)@.store == (StoreModel {
                index: old(self)@.store.index.update(row_id as int, None),
                ..old(self)@.store
            }),
            old(self)@.store.closed ==> r == Err::<(), Error>(Error::Closed),
            !old(self)@.store.closed && lookup(old(self)@.store, row_id as int) is None ==> r == Err::<
                (),
                Error,
            >(Error::NotFound),
    {
        proof {
            self.cache.lemma_wf();
            if has_key(self.cache@, row_id) {
                lemma_remove_keeps_unique(self.cache@, position_of(self.cache@, row_id));
                lemma_coherent_after_removal(self.store@, self.cache@, position_of(self.cache@, row_id));
            }
        }
        let _ = self.cache.remove(&row_id);
        let ghost rest = self.cache@;
        let r = self.store.delete(row_id);
        proof {
            assert forall|i: int| 0 <= i < rest.len() implies entry_matches(self.store@, #[trigger] rest[i]) by {
                assert(entry_matches(old(self)@.store, rest[i]));
                if rest[i].0 == row_id {
                    assert(has_key(rest, row_id));
                }
            }
        }
        r
    }

    /// Reads every live row from the store, bypassing the cache.
    pub fn scan(&self) -> (r: Vec<Result<(u64, Vec<u8>), Error>>)
        ensures
            r@.len() == crate::storage::live_ids(self@.store.index).len(),
            forall|k: int|
                0 <= k < r@.len() ==> crate::storage::scan_item(
                    self@.store,
                    #[trigger] crate::storage::live_ids(self@.store.index)[k],
                    r@[k],
                ),
    {
        self.store.scan()
    }

    /// The cache statistics.
    pub fn stats(&self) -> (r: &CacheStats)
        ensures
            r@ == self@.stats,
    {
        &self.stats
    }

    /// Number of cached entries.
    pub fn cache_len(&self) -> (r: usize)
        requires
            self.wf(),
        ensures
            r == self@.entries.len(),
    {
        self.cache.len()
    }

    /// The cache capacity.
    pub fn capacity(&self) -> (r: usize)
        ensures
            r == self@.capacity,
    {
        self.capacity
    }

    /// Empties the cache and resets its statistics; the store is unchanged.
    pub fn clear_cache(&mut self)
        requires
            old(self).wf(),
        ensures
            final(self).wf(),
            final(self)@.store == old(self)@.store,
            final(self)@.capacity == old(self)@.capacity,
            final(self)@.entries == Seq::<(u64, Vec<u8>)>::empty(),
            final(self)@.stats == (StatsView { hits: 0, misses: 0, evictions: 0, inserts: 0 }),
    {
        self.cache.clear();
        self.stats.reset();
    }

    /// Number of row-id slots in the store.
    pub fn len(&self) -> (r: usize)
        ensures
            r == self@.store.index.len(),
    {
        self.store.len()
    }

    /// Whether the store holds no row.
    pub fn is_empty(&self) -> (r: bool)
        ensures
            r <==> self@.store.index.len() == 0,
    {
        self.store.is_empty()
    }

    /// Closes the store.
    pub fn close(&mut self) -> (r: Result<(), Error>)
        requires
            old(self).wf(),
        ensures
            r is Ok,
            final(self)@.store.closed,
            final(self)@.store.index == old(self)@.store.index,
    {
        self.store.close()
    }

    /// The underlying store.
    pub fn store(&self) -> (r: &ToonStore)
        ensures
            r@ == self@.store,
            r.wf() <== self.wf(),
    {
        &self.store
    }
}

} // verus!
