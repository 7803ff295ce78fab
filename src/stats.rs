//! Cache statistics counters.

use vstd::prelude::*;

verus! {

/// The counters' values.
pub struct StatsView {
    pub hits: u64,
    pub misses: u64,
    pub evictions: u64,
    pub inserts: u64,
}

/// A counter advanced by one; it wraps around at `u64::MAX`.
pub open spec fn bumped(x: u64) -> u64 {
    if x == u64::MAX {
        0
    } else {
        (x + 1) as u64
    }
}

/// Hit, miss, eviction and insert counters of a cache.
#[derive(Debug, Default)]
pub struct CacheStats {
    hits: u64,
    misses: u64,
    evictions: u64,
    inserts: u64,
}

impl View for CacheStats {
    type V = StatsView;

    closed spec fn view(&self) -> StatsView {
        StatsView {
            hits: self.hits,
            misses: self.misses,
            evictions: self.evictions,
            inserts: self.inserts,
        }
    }
}

impl CacheStats {
    /// All counters at zero.
    pub fn new() -> (r: Self)
        ensures
            r@ == (StatsView { hits: 0, misses: 0, evictions: 0, inserts: 0 }),
    {
        CacheStats { hits: 0, misses: 0, evictions: 0, inserts: 0 }
    }

    /// Counts a cache hit.
    pub fn record_hit(&mut self)
        ensures
            final(self)@ == (StatsView { hits: bumped(old(self)@.hits), ..old(self)@ }),
    {
        self.hits = self.hits.wrapping_add(1);
    }

    /// Counts a cache miss.
    pub fn record_miss(&mut self)
        ensures
            final(self)@ == (StatsView { misses: bumped(old(self)@.misses), ..old(self)@ }),
    {
        self.misses = self.misses.wrapping_add(1);
    }

    /// Counts an eviction.
    pub fn record_eviction(&mut self)
        ensures
            final(self)@ == (StatsView { evictions: bumped(old(self)@.evictions), ..old(self)@ }),
    {
        self.evictions = self.evictions.wrapping_add(1);
    }

    /// Counts an insert.
    pub fn record_insert(&mut self)
        ensures
            final(self)@ == (StatsView { inserts: bumped(old(self)@.inserts), ..old(self)@ }),
    {
        self.inserts = self.inserts.wrapping_add(1);
    }

    /// Total hits.
    pub fn hits(&self) -> (r: u64)
        ensures
            r == self@.hits,
    {
        self.hits
    }

    /// Total misses.
    pub fn misses(&self) -> (r: u64)
        ensures
            r == self@.misses,
    {
        self.misses
    }

    /// Total evictions.
    pub fn evictions(&self) -> (r: u64)
        ensures
            r == self@.evictions,
    {
        self.evictions
    }

    /// Total inserts.
    pub fn inserts(&self) -> (r: u64)
        ensures
            r == self@.inserts,
    {
        self.inserts
    }

    /// Hits and lookups as a pair: the hit ratio is `hits / (hits + misses)`,
    /// and 0 when there was no lookup.
    pub fn hit_ratio_parts(&self) -> (r: (u64, u128))
        ensures
            r.0 == self@.hits,
            r.1 == self@.hits as u128 + self@.misses as u128,
    {
        (self.hits, self.hits as u128 + self.misses as u128)
    }

    /// Puts every counter back to zero.
    pub fn reset(&mut self)
        ensures
            final(self)@ == (StatsView { hits: 0, misses: 0, evictions: 0, inserts: 0 }),
    {
        self.hits = 0;
        self.misses = 0;
        self.evictions = 0;
        self.inserts = 0;
    }
}

} // verus!
