//! A fixed-capacity least-recently-used cache keyed by row id.
//!
//! Entries live in slots of an arena: parallel vectors of keys, values and
//! links to the next newer and next older slot, so that the slots in use form
//! a doubly-linked recency list from the head (most recently used) to the
//! tail (least recently used). A hash map finds a key's slot, and a free list
//! hands out vacated slots before the arena grows. Every operation takes
//! constant time, amortized.

use std::collections::HashMap;

use vstd::prelude::*;
use vstd::std_specs::hash::group_hash_axioms;

verus! {

broadcast use group_hash_axioms;

/// Whether no two entries share a key.
pub open spec fn keys_unique<V>(s: Seq<(u64, V)>) -> bool {
    forall|i: int, j: int| 0 <= i < j < s.len() ==> s[i].0 != s[j].0
}

/// Whether some entry has key `k`.
pub open spec fn has_key<V>(s: Seq<(u64, V)>, k: u64) -> bool {
    exists|i: int| 0 <= i < s.len() && s[i].0 == k
}

/// The position of the entry with key `k` (meaningful when `has_key(s, k)`).
pub open spec fn position_of<V>(s: Seq<(u64, V)>, k: u64) -> int {
    choose|i: int| 0 <= i < s.len() && s[i].0 == k
}

/// The entries after a lookup of `k`: a present entry becomes the most recent.
pub open spec fn touched<V>(s: Seq<(u64, V)>, k: u64) -> Seq<(u64, V)> {
    if has_key(s, k) {
        s.remove(position_of(s, k)).push(s[position_of(s, k)])
    } else {
        s
    }
}

/// The entries after storing `v` under `k` with capacity `cap`: a present
/// entry is replaced and becomes the most recent; otherwise, when the cache is
/// full, the least recently used entry is evicted before the new one is added.
pub open spec fn stored<V>(s: Seq<(u64, V)>, cap: nat, k: u64, v: V) -> Seq<(u64, V)> {
    if has_key(s, k) {
        s.remove(position_of(s, k)).push((k, v))
    } else if s.len() >= cap {
        s.drop_first().push((k, v))
    } else {
        s.push((k, v))
    }
}

/// The entries after removing key `k`.
pub open spec fn removed<V>(s: Seq<(u64, V)>, k: u64) -> Seq<(u64, V)> {
    if has_key(s, k) {
        s.remove(position_of(s, k))
    } else {
        s
    }
}

pub(crate) proof fn lemma_remove_keeps_unique<V>(s: Seq<(u64, V)>, i: int)
    requires
        keys_unique(s),
        0 <= i < s.len(),
    ensures
        keys_unique(s.remove(i)),
        forall|k: u64| has_key(s.remove(i), k) ==> has_key(s, k),
        forall|k: u64| #[trigger] has_key(s.remove(i), k) <==> (has_key(s, k) && k != s[i].0),
{
    let r = s.remove(i);
    assert forall|k: u64| has_key(s, k) && k != s[i].0 implies #[trigger] has_key(r, k) by {
        let j = choose|j: int| 0 <= j < s.len() && s[j].0 == k;
        if j < i {
            assert(r[j].0 == k);
        } else {
            assert(r[j - 1].0 == k);
        }
    }
    assert forall|k: u64| #[trigger] has_key(r, k) implies has_key(s, k) && k != s[i].0 by {
        let j = choose|j: int| 0 <= j < r.len() && r[j].0 == k;
        if j < i {
            assert(s[j].0 == k);
        } else {
            assert(s[j + 1].0 == k);
        }
    }
}

/// The entries after storing each of `items` in turn.
pub open spec fn stored_all<V>(s: Seq<(u64, V)>, cap: nat, items: Seq<(u64, V)>) -> Seq<(u64, V)>
    decreases items.len(),
{
    if items.len() == 0 {
        s
    } else {
        let p = stored_all(s, cap, items.drop_last());
        stored(p, cap, items.last().0, items.last().1)
    }
}

proof fn lemma_fill_without_eviction<V>(cap: nat, items: Seq<(u64, V)>)
    requires
        items.len() <= cap,
        keys_unique(items),
    ensures
        stored_all(Seq::<(u64, V)>::empty(), cap, items) == items,
    decreases items.len(),
{
    if items.len() > 0 {
        let init = items.drop_last();
        assert(keys_unique(init));
        lemma_fill_without_eviction(cap, init);
        assert(!has_key(init, items.last().0)) by {
            if has_key(init, items.last().0) {
                let j = choose|j: int| 0 <= j < init.len() && init[j].0 == items.last().0;
                assert(items[j].0 == items[items.len() - 1].0);
            }
        }
        assert(init.push(items.last()) =~= items);
    }
}

/// Storing `capacity + 1` distinct keys into an empty cache, with no lookup in
/// between, evicts exactly the first key: the others remain, in order.
pub proof fn lemma_eviction_takes_the_first<V>(cap: nat, items: Seq<(u64, V)>)
    requires
        cap > 0,
        items.len() == cap + 1,
        keys_unique(items),
    ensures
        stored_all(Seq::<(u64, V)>::empty(), cap, items) == items.drop_first(),
        !has_key(stored_all(Seq::<(u64, V)>::empty(), cap, items), items[0].0),
        forall|i: int|
            1 <= i < items.len() ==> has_key(
                stored_all(Seq::<(u64, V)>::empty(), cap, items),
                #[trigger] items[i].0,
            ),
{
    let init = items.drop_last();
    assert(keys_unique(init));
    lemma_fill_without_eviction(cap, init);
    assert(!has_key(init, items.last().0)) by {
        if has_key(init, items.last().0) {
            let j = choose|j: int| 0 <= j < init.len() && init[j].0 == items.last().0;
            assert(items[j].0 == items[items.len() - 1].0);
        }
    }
    let r = stored_all(Seq::<(u64, V)>::empty(), cap, items);
    assert(r =~= items.drop_first());
    assert(!has_key(r, items[0].0)) by {
        if has_key(r, items[0].0) {
            let j = choose|j: int| 0 <= j < r.len() && r[j].0 == items[0].0;
            assert(items[j + 1].0 == items[0].0);
        }
    }
    assert forall|i: int| 1 <= i < items.len() implies has_key(r, #[trigger] items[i].0) by {
        assert(r[i - 1].0 == items[i].0);
    }
}

/// An LRU cache with a fixed, positive capacity.
pub struct LruCache<V> {
    map: HashMap<u64, usize>,
    keys: Vec<u64>,
    values: Vec<Option<V>>,
    newer: Vec<Option<usize>>,
    older: Vec<Option<usize>>,
    head: Option<usize>,
    tail: Option<usize>,
    free: Vec<usize>,
    size: usize,
    capacity: usize,
    /// The slots in use, from least to most recently used.
    order: Ghost<Seq<usize>>,
}

impl<V> View for LruCache<V> {
    type V = Seq<(u64, V)>;

    closed spec fn view(&self) -> Seq<(u64, V)> {
        Seq::new(
            self.order@.len(),
            |i: int| (self.keys@[self.order@[i] as int], self.values@[self.order@[i] as int]->Some_0),
        )
    }
}

impl<V> LruCache<V> {
    /// The recency list: in-range, distinct slots holding values, linked to
    /// their neighbours, with the head and tail at its ends.
    #[verifier::opaque]
    closed spec fn links_ok(&self) -> bool {
        let o = self.order@;
        let n = self.keys@.len();
        &&& self.values@.len() == n
        &&& self.newer@.len() == n
        &&& self.older@.len() == n
        &&& forall|i: int| 0 <= i < o.len() ==> #[trigger] o[i] < n
        &&& forall|i: int, j: int| 0 <= i < j < o.len() ==> o[i] != o[j]
        &&& forall|i: int| 0 <= i < o.len() ==> self.values@[#[trigger] o[i] as int] is Some
        &&& forall|i: int|
            0 <= i < o.len() ==> self.older@[#[trigger] o[i] as int] == if i == 0 {
                None
            } else {
                Some(o[i - 1])
            }
        &&& forall|i: int|
            0 <= i < o.len() ==> self.newer@[#[trigger] o[i] as int] == if i == o.len() - 1 {
                None
            } else {
                Some(o[i + 1])
            }
        &&& self.head == if o.len() == 0 {
            None
        } else {
            Some(o.last())
        }
        &&& self.tail == if o.len() == 0 {
            None
        } else {
            Some(o[0])
        }
    }

    /// The map sends each key in the list to its slot, and nothing else.
    #[verifier::opaque]
    closed spec fn map_ok(&self) -> bool {
        let o = self.order@;
        &&& forall|i: int|
            0 <= i < o.len() ==> #[trigger] self.map@.contains_key(self.keys@[o[i] as int])
                && self.map@[self.keys@[o[i] as int]] == o[i]
        &&& forall|k: u64|
            #[trigger] self.map@.contains_key(k) ==> exists|i: int|
                0 <= i < o.len() && o[i] == self.map@[k] && self.keys@[o[i] as int] == k
    }

    /// Free slots are distinct, in range and empty.
    #[verifier::opaque]
    closed spec fn free_ok(&self) -> bool {
        &&& forall|i: int| 0 <= i < self.free@.len() ==> #[trigger] self.free@[i] < self.keys@.len()
        &&& forall|i: int| 0 <= i < self.free@.len() ==> self.values@[#[trigger] self.free@[i] as int] is None
        &&& forall|i: int, j: int| 0 <= i < j < self.free@.len() ==> self.free@[i] != self.free@[j]
    }

    /// The cache's invariant.
    pub closed spec fn wf(&self) -> bool {
        &&& self.links_ok()
        &&& self.map_ok()
        &&& self.free_ok()
        &&& self.size == self.order@.len()
        &&& self.order@.len() <= self.capacity
        &&& self.capacity > 0
    }

    /// The fixed capacity.
    pub closed spec fn cap(&self) -> nat {
        self.capacity as nat
    }

    proof fn lemma_view_keys(&self)
        requires
            self.links_ok(),
            self.map_ok(),
        ensures
            keys_unique(self@),
            forall|k: u64| #[trigger] has_key(self@, k) <==> self.map@.contains_key(k),
            forall|k: u64|
                #[trigger] self.map@.contains_key(k) ==> 0 <= position_of(self@, k) < self.order@.len()
                    && self.order@[position_of(self@, k)] == self.map@[k],
            forall|k: u64|
                #[trigger] self.map@.contains_key(k) ==> self.map@[k] < self.keys@.len()
                    && self.keys@[self.map@[k] as int] == k && self.values@[self.map@[k] as int] is Some,
            self.values@.len() == self.keys@.len(),
    {
        reveal(LruCache::links_ok);
        reveal(LruCache::map_ok);
        let o = self.order@;
        assert forall|i: int, j: int| 0 <= i < j < self@.len() implies self@[i].0 != self@[j].0 by {
            assert(self.map@.contains_key(self.keys@[o[i] as int]));
            assert(self.map@.contains_key(self.keys@[o[j] as int]));
        }
        assert forall|k: u64| #[trigger] has_key(self@, k) <==> self.map@.contains_key(k) by {
            if has_key(self@, k) {
                let i = choose|i: int| 0 <= i < self@.len() && self@[i].0 == k;
                assert(self.map@.contains_key(self.keys@[o[i] as int]));
            }
            if self.map@.contains_key(k) {
                let i = choose|i: int|
                    0 <= i < o.len() && o[i] == self.map@[k] && self.keys@[o[i] as int] == k;
                assert(self@[i].0 == k);
            }
        }
        assert forall|k: u64| #[trigger] self.map@.contains_key(k) implies 0 <= position_of(self@, k)
            < self.order@.len() && self.order@[position_of(self@, k)] == self.map@[k] by {
            let i = choose|i: int| 0 <= i < o.len() && o[i] == self.map@[k] && self.keys@[o[i] as int] == k;
            assert(self@[i].0 == k);
            assert(has_key(self@, k));
            let p = position_of(self@, k);
            assert(self@[p].0 == k);
            assert(self.map@.contains_key(self.keys@[o[p] as int]));
        }
        assert forall|k: u64| #[trigger] self.map@.contains_key(k) implies self.map@[k] < self.keys@.len()
            && self.keys@[self.map@[k] as int] == k && self.values@[self.map@[k] as int] is Some by {
            let i = choose|i: int| 0 <= i < o.len() && o[i] == self.map@[k] && self.keys@[o[i] as int] == k;
            assert(o[i] < self.keys@.len());
            assert(self.values@[o[i] as int] is Some);
        }
    }

    /// A well-formed cache has unique keys and at most `cap()` entries.
    pub proof fn lemma_wf(&self)
        requires
            self.wf(),
        ensures
            keys_unique(self@),
            self@.len() <= self.cap(),
            self.cap() > 0,
    {
        self.lemma_view_keys();
    }

    /// An empty cache holding at most `capacity` entries.
    pub fn new(capacity: usize) -> (r: Self)
        requires
            capacity > 0,
        ensures
            r.wf(),
            r@ == Seq::<(u64, V)>::empty(),
            r.cap() == capacity,
    {
        proof {
            reveal(LruCache::links_ok);
            reveal(LruCache::map_ok);
            reveal(LruCache::free_ok);
        }
        let r = LruCache {
            map: HashMap::new(),
            keys: Vec::new(),
            values: Vec::new(),
            newer: Vec::new(),
            older: Vec::new(),
            head: None,
            tail: None,
            free: Vec::new(),
            size: 0,
            capacity,
            order: Ghost(Seq::empty()),
        };
        proof {
            assert(r@ =~= Seq::<(u64, V)>::empty());
        }
        r
    }

    /// The capacity given at construction.
    pub fn capacity(&self) -> (r: usize)
        ensures
            r == self.cap(),
    {
        self.capacity
    }
}

impl<V> LruCache<V> {
    /// Takes slot `idx`, at position `p` of the recency list, out of the list.
    #[verifier::rlimit(100)]
    #[verifier::spinoff_prover]
    fn unlink(&mut self, idx: usize, Ghost(p): Ghost<int>)
        requires
            old(self).links_ok(),
            0 <= p < old(self).order@.len(),
            old(self).order@[p] == idx,
        ensures
            final(self).links_ok(),
            final(self).order@ == old(self).order@.remove(p),
            final(self).keys@ == old(self).keys@,
            final(self).values@ == old(self).values@,
            final(self).map@ == old(self).map@,
            final(self).free@ == old(self).free@,
            final(self).size == old(self).size,
            final(self).capacity == old(self).capacity,
    {
        proof {
            reveal(LruCache::links_ok);
        }
        let ghost o = self.order@;
        let older = self.older[idx];
        let newer = self.newer[idx];
        match older {
            Some(a) => {
                self.newer.set(a, newer);
            },
            None => {
                self.tail = newer;
            },
        }
        match newer {
            Some(b) => {
                self.older.set(b, older);
            },
            None => {
                self.head = older;
            },
        }
        self.order = Ghost(o.remove(p));
        proof {
            let o2 = o.remove(p);
            assert forall|i: int| 0 <= i < o2.len() implies #[trigger] o2[i] < self.keys@.len() by {
                if i < p {
                    assert(o2[i] == o[i]);
                } else {
                    assert(o2[i] == o[i + 1]);
                }
            }
            assert forall|i: int, j: int| 0 <= i < j < o2.len() implies o2[i] != o2[j] by {
                let oi = if i < p { i } else { i + 1 };
                let oj = if j < p { j } else { j + 1 };
                assert(o2[i] == o[oi] && o2[j] == o[oj]);
            }
            assert forall|i: int| 0 <= i < o2.len() implies self.values@[#[trigger] o2[i] as int] is Some by {
                let oi = if i < p { i } else { i + 1 };
                assert(o2[i] == o[oi]);
            }
            assert forall|i: int| 0 <= i < o2.len() implies self.older@[#[trigger] o2[i] as int] == if i == 0 {
                None
            } else {
                Some(o2[i - 1])
            } by {
                let oi = if i < p { i } else { i + 1 };
                assert(o2[i] == o[oi]);
                if i < p {
                    if i > 0 {
                        assert(o2[i - 1] == o[i - 1]);
                    }
                    if p + 1 < o.len() {
                        assert(o[oi] != o[p + 1]);
                    }
                } else if i == p {
                    if p > 0 {
                        assert(o2[i - 1] == o[p - 1]);
                    }
                } else {
                    assert(o2[i - 1] == o[i]);
                    assert(o[oi] != o[p + 1]);
                }
            }
            assert forall|i: int| 0 <= i < o2.len() implies self.newer@[#[trigger] o2[i] as int] == if i
                == o2.len() - 1 {
                None
            } else {
                Some(o2[i + 1])
            } by {
                let oi = if i < p { i } else { i + 1 };
                assert(o2[i] == o[oi]);
                if i < p - 1 {
                    assert(o2[i + 1] == o[i + 1]);
                    assert(o[oi] != o[p - 1]);
                } else if i == p - 1 {
                    if p + 1 < o.len() {
                        assert(o2[i + 1] == o[p + 1]);
                    }
                } else {
                    if i + 1 < o2.len() {
                        assert(o2[i + 1] == o[i + 2]);
                    }
                    if p > 0 {
                        assert(o[oi] != o[p - 1]);
                    }
                }
            }
            if o2.len() > 0 {
                if p == o.len() - 1 {
                    assert(o2.last() == o[p - 1]);
                } else {
                    assert(o2.last() == o.last());
                }
                if p == 0 {
                    assert(o2[0] == o[1]);
                } else {
                    assert(o2[0] == o[0]);
                }
            }
        }
    }

    /// Puts slot `idx`, which is not in the list, at its head.
    fn link_front(&mut self, idx: usize)
        requires
            old(self).links_ok(),
            idx < old(self).keys@.len(),
            old(self).values@[idx as int] is Some,
            forall|i: int| 0 <= i < old(self).order@.len() ==> old(self).order@[i] != idx,
        ensures
            final(self).links_ok(),
            final(self).order@ == old(self).order@.push(idx),
            final(self).keys@ == old(self).keys@,
            final(self).values@ == old(self).values@,
            final(self).map@ == old(self).map@,
            final(self).free@ == old(self).free@,
            final(self).size == old(self).size,
            final(self).capacity == old(self).capacity,
    {
        proof {
            reveal(LruCache::links_ok);
        }
        let ghost o = self.order@;
        let old_head = self.head;
        self.older.set(idx, old_head);
        self.newer.set(idx, None);
        match old_head {
            Some(h) => {
                self.newer.set(h, Some(idx));
            },
            None => {
                self.tail = Some(idx);
            },
        }
        self.head = Some(idx);
        self.order = Ghost(o.push(idx));
        proof {
            let o2 = o.push(idx);
            assert forall|i: int| 0 <= i < o2.len() implies #[trigger] o2[i] < self.keys@.len() by {
                if i < o.len() {
                    assert(o2[i] == o[i]);
                }
            }
            assert forall|i: int, j: int| 0 <= i < j < o2.len() implies o2[i] != o2[j] by {
                if j == o.len() {
                    assert(o2[i] == o[i]);
                } else {
                    assert(o2[i] == o[i] && o2[j] == o[j]);
                }
            }
            assert forall|i: int| 0 <= i < o2.len() implies self.values@[#[trigger] o2[i] as int] is Some by {
                if i < o.len() {
                    assert(o2[i] == o[i]);
                }
            }
            assert forall|i: int| 0 <= i < o2.len() implies self.older@[#[trigger] o2[i] as int] == if i == 0 {
                None
            } else {
                Some(o2[i - 1])
            } by {
                if i < o.len() {
                    assert(o2[i] == o[i]);
                    if i > 0 {
                        assert(o2[i - 1] == o[i - 1]);
                    }
                } else if i > 0 {
                    assert(o2[i - 1] == o[i - 1]);
                }
            }
            assert forall|i: int| 0 <= i < o2.len() implies self.newer@[#[trigger] o2[i] as int] == if i
                == o2.len() - 1 {
                None
            } else {
                Some(o2[i + 1])
            } by {
                if i < o.len() {
                    assert(o2[i] == o[i]);
                    if i < o.len() - 1 {
                        assert(o2[i + 1] == o[i + 1]);
                        assert(o[i] != o[o.len() - 1]);
                    } else {
                        assert(o2[i + 1] == idx);
                    }
                }
            }
            if o.len() > 0 {
                assert(o2[0] == o[0]);
            }
        }
    }

    proof fn lemma_map_after_move(&self, old_self: &Self, p: int)
        requires
            old_self.map_ok(),
            old_self.links_ok(),
            0 <= p < old_self.order@.len(),
            self.order@ == old_self.order@.remove(p).push(old_self.order@[p]),
            self.keys@ == old_self.keys@,
            self.map@ == old_self.map@,
        ensures
            self.map_ok(),
    {
        reveal(LruCache::map_ok);
        let o = old_self.order@;
        let o2 = self.order@;
        assert forall|i: int| 0 <= i < o2.len() implies #[trigger] self.map@.contains_key(self.keys@[o2[i] as int])
            && self.map@[self.keys@[o2[i] as int]] == o2[i] by {
            let oi = if i == o2.len() - 1 { p } else if i < p { i } else { i + 1 };
            assert(o2[i] == o[oi]);
            assert(old_self.map@.contains_key(old_self.keys@[o[oi] as int]));
        }
        assert forall|k: u64| #[trigger] self.map@.contains_key(k) implies exists|i: int|
            0 <= i < o2.len() && o2[i] == self.map@[k] && self.keys@[o2[i] as int] == k by {
            let j = choose|j: int| 0 <= j < o.len() && o[j] == old_self.map@[k] && old_self.keys@[o[j] as int] == k;
            let i = if j == p { o2.len() - 1 } else if j < p { j } else { j - 1 };
            assert(o2[i] == o[j]);
        }
    }

    /// Stores `value` in slot `idx`, which holds a value but is out of the list.
    fn replace_value(&mut self, idx: usize, value: V)
        requires
            old(self).links_ok(),
            old(self).free_ok(),
            idx < old(self).keys@.len(),
            old(self).values@[idx as int] is Some,
            forall|i: int| 0 <= i < old(self).order@.len() ==> old(self).order@[i] != idx,
        ensures
            final(self).links_ok(),
            final(self).free_ok(),
            final(self).values@ == old(self).values@.update(idx as int, Some(value)),
            final(self).order@ == old(self).order@,
            final(self).keys@ == old(self).keys@,
            final(self).map@ == old(self).map@,
            final(self).size == old(self).size,
            final(self).capacity == old(self).capacity,
    {
        proof {
            reveal(LruCache::links_ok);
            reveal(LruCache::free_ok);
        }
        let ghost before = *self;
        self.values.set(idx, Some(value));
        proof {
            let o = self.order@;
            assert forall|i: int| 0 <= i < o.len() implies self.values@[#[trigger] o[i] as int] is Some by {
                assert(o[i] != idx);
            }
            assert forall|i: int| 0 <= i < self.free@.len() implies self.values@[#[trigger] self.free@[i] as int] is None by {
                assert(before.values@[before.free@[i] as int] is None);
            }
        }
    }

    /// Looks up `key`; a present entry becomes the most recently used.
    pub fn get(&mut self, key: &u64) -> (r: Option<&V>)
        requires
            old(self).wf(),
        ensures
            final(self).wf(),
            final(self).cap() == old(self).cap(),
            final(self)@ == touched(old(self)@, *key),
            r is Some <==> has_key(old(self)@, *key),
            r matches Some(v) ==> *v == old(self)@[position_of(old(self)@, *key)].1,
    {
        proof {
            self.lemma_view_keys();
            reveal(LruCache::free_ok);
        }
        let idx = match self.map.get(key) {
            None => {
                return None;
            },
            Some(i) => *i,
        };
        let ghost p = position_of(self@, *key);
        let ghost before = *self;
        self.unlink(idx, Ghost(p));
        proof {
            assert forall|i: int| 0 <= i < self.order@.len() implies self.order@[i] != idx by {
                let oi = if i < p { i } else { i + 1 };
                assert(self.order@[i] == before.order@[oi]);
                assert(before.order@[oi] != before.order@[p]) by {
                    reveal(LruCache::links_ok);
                }
            }
        }
        self.link_front(idx);
        proof {
            self.lemma_map_after_move(&before, p);
            assert(self@ =~= before@.remove(p).push(before@[p]));
        }
        self.values[idx].as_ref()
    }
}

impl<V> LruCache<V> {
    fn take_slot(&mut self, key: u64, value: V) -> (idx: usize)
        requires
            old(self).links_ok(),
            old(self).map_ok(),
            old(self).free_ok(),
            !old(self).map@.contains_key(key),
        ensures
            final(self).links_ok(),
            final(self).map_ok(),
            final(self).free_ok(),
            final(self).order@ == old(self).order@,
            final(self).map@ == old(self).map@,
            final(self).size == old(self).size,
            final(self).capacity == old(self).capacity,
            idx < final(self).keys@.len(),
            final(self).keys@[idx as int] == key,
            final(self).values@[idx as int] == Some(value),
            forall|i: int| 0 <= i < final(self).order@.len() ==> final(self).order@[i] != idx,
            final(self)@ == old(self)@,
    {
        proof {
            reveal(LruCache::links_ok);
            reveal(LruCache::map_ok);
            reveal(LruCache::free_ok);
        }
        let ghost o = self.order@;
        let ghost before = *self;
        let idx = match self.free.pop() {
            Some(i) => {
                proof {
                    assert(before.free@[before.free@.len() - 1] == i);
                }
                self.keys.set(i, key);
                self.values.set(i, Some(value));
                i
            },
            None => {
                let i = self.keys.len();
                self.keys.push(key);
                self.values.push(Some(value));
                self.newer.push(None);
                self.older.push(None);
                i
            },
        };
        proof {
            assert forall|i: int| 0 <= i < o.len() implies o[i] != idx by {
                if idx < before.keys@.len() {
                    assert(before.values@[idx as int] is None);
                    assert(before.values@[o[i] as int] is Some);
                }
            }
            assert forall|i: int| 0 <= i < o.len() implies #[trigger] o[i] < self.keys@.len() by {
                assert(before.keys@.len() <= self.keys@.len());
            }
            assert forall|i: int| 0 <= i < o.len() implies self.values@[#[trigger] o[i] as int] is Some by {
                assert(o[i] != idx);
                assert(before.values@[o[i] as int] is Some);
            }
            assert forall|i: int| 0 <= i < o.len() implies self.older@[#[trigger] o[i] as int] == if i == 0 {
                None
            } else {
                Some(o[i - 1])
            } by {
                assert(before.older@[o[i] as int] == self.older@[o[i] as int]);
            }
            assert forall|i: int| 0 <= i < o.len() implies self.newer@[#[trigger] o[i] as int] == if i
                == o.len() - 1 {
                None
            } else {
                Some(o[i + 1])
            } by {
                assert(before.newer@[o[i] as int] == self.newer@[o[i] as int]);
            }
            assert forall|i: int| 0 <= i < o.len() implies #[trigger] self.map@.contains_key(self.keys@[o[i] as int])
                && self.map@[self.keys@[o[i] as int]] == o[i] by {
                assert(o[i] != idx);
                assert(self.keys@[o[i] as int] == before.keys@[o[i] as int]);
                assert(before.map@.contains_key(before.keys@[o[i] as int]));
            }
            assert forall|k: u64| #[trigger] self.map@.contains_key(k) implies exists|i: int|
                0 <= i < o.len() && o[i] == self.map@[k] && self.keys@[o[i] as int] == k by {
                let j = choose|j: int| 0 <= j < o.len() && o[j] == before.map@[k] && before.keys@[o[j] as int] == k;
                assert(o[j] != idx);
                assert(self.keys@[o[j] as int] == before.keys@[o[j] as int]);
            }
            assert forall|i: int| 0 <= i < self.free@.len() implies self.values@[#[trigger] self.free@[i] as int] is None by {
                assert(self.free@[i] == before.free@[i]);
                if idx < before.keys@.len() {
                    assert(before.free@[i] != before.free@[before.free@.len() - 1]);
                }
            }
            assert forall|i: int| 0 <= i < self.free@.len() implies #[trigger] self.free@[i] < self.keys@.len() by {
                assert(self.free@[i] == before.free@[i]);
            }
            assert forall|i: int, j: int| 0 <= i < j < self.free@.len() implies self.free@[i] != self.free@[j] by {
                assert(self.free@[i] == before.free@[i] && self.free@[j] == before.free@[j]);
            }
            assert(self@ =~= before@);
        }
        idx
    }

    fn evict(&mut self)
        requires
            old(self).wf(),
            old(self).order@.len() > 0,
        ensures
            final(self).links_ok(),
            final(self).map_ok(),
            final(self).free_ok(),
            final(self).size == final(self).order@.len(),
            final(self).order@.len() == old(self).order@.len() - 1,
            final(self).capacity == old(self).capacity,
            final(self)@ == old(self)@.drop_first(),
            forall|k: u64| final(self).map@.contains_key(k) ==> old(self).map@.contains_key(k),
    {
        proof {
            reveal(LruCache::links_ok);
            reveal(LruCache::map_ok);
            reveal(LruCache::free_ok);
        }
        let ghost before = *self;
        let ghost o = self.order@;
        let t = match self.tail {
            Some(t) => t,
            None => {
                return;
            },
        };
        let k = self.keys[t];
        self.unlink(t, Ghost(0));
        self.map.remove(&k);
        self.values.set(t, None);
        self.free.push(t);
        self.size = self.size - 1;
        proof {
            let o2 = self.order@;
            assert(o2 =~= o.drop_first());
            assert forall|i: int| 0 <= i < o2.len() implies self.values@[#[trigger] o2[i] as int] is Some by {
                assert(o2[i] == o[i + 1]);
                assert(o[i + 1] != o[0]);
            }
            assert forall|i: int| 0 <= i < o2.len() implies #[trigger] self.map@.contains_key(self.keys@[o2[i] as int])
                && self.map@[self.keys@[o2[i] as int]] == o2[i] by {
                assert(o2[i] == o[i + 1]);
                assert(before.map@.contains_key(before.keys@[o[i + 1] as int]));
                assert(before.map@.contains_key(before.keys@[o[0] as int]));
                assert(o[i + 1] != o[0]);
            }
            assert forall|kk: u64| #[trigger] self.map@.contains_key(kk) implies exists|i: int|
                0 <= i < o2.len() && o2[i] == self.map@[kk] && self.keys@[o2[i] as int] == kk by {
                let j = choose|j: int| 0 <= j < o.len() && o[j] == before.map@[kk] && before.keys@[o[j] as int] == kk;
                assert(j != 0);
                assert(o2[j - 1] == o[j]);
            }
            assert forall|i: int| 0 <= i < self.free@.len() implies self.values@[#[trigger] self.free@[i] as int] is None by {
                if i < before.free@.len() {
                    assert(self.free@[i] == before.free@[i]);
                }
            }
            assert forall|i: int| 0 <= i < self.free@.len() implies #[trigger] self.free@[i] < self.keys@.len() by {
                if i < before.free@.len() {
                    assert(self.free@[i] == before.free@[i]);
                }
            }
            assert forall|i: int, j: int| 0 <= i < j < self.free@.len() implies self.free@[i] != self.free@[j] by {
                if j == before.free@.len() {
                    assert(before.values@[before.free@[i] as int] is None);
                    assert(before.values@[t as int] is Some);
                } else {
                    assert(self.free@[i] == before.free@[i] && self.free@[j] == before.free@[j]);
                }
            }
            assert(self@ =~= before@.drop_first());
        }
    }

    /// Stores `value` under `key` as the most recently used entry, evicting the
    /// least recently used one when a new key finds the cache full.
    pub fn put(&mut self, key: u64, value: V)
        requires
            old(self).wf(),
        ensures
            final(self).wf(),
            final(self).cap() == old(self).cap(),
            final(self)@ == stored(old(self)@, old(self).cap(), key, value),
    {
        proof {
            reveal(LruCache::map_ok);
            reveal(LruCache::free_ok);
        }
        proof {
            self.lemma_view_keys();
        }
        let ghost before = *self;
        let found = match self.map.get(&key) {
            Some(i) => Some(*i),
            None => None,
        };
        match found {
            Some(idx) => {
                let ghost p = position_of(self@, key);
                self.unlink(idx, Ghost(p));
                proof {
                    assert forall|i: int| 0 <= i < self.order@.len() implies self.order@[i] != idx by {
                        let oi = if i < p { i } else { i + 1 };
                        assert(self.order@[i] == before.order@[oi]);
                        assert(before.order@[oi] != before.order@[p]) by {
                            reveal(LruCache::links_ok);
                        }
                    }
                }
                let ghost o1 = self.order@;
                self.replace_value(idx, value);
                self.link_front(idx);
                proof {
                    self.lemma_map_after_move(&before, p);
                    let o = before.order@;
                    assert(self.order@ == o1.push(idx));
                    assert(o1 == o.remove(p));
                    assert(before.keys@[idx as int] == key);
                    assert forall|i: int| 0 <= i < self@.len() implies self@[i] == before@.remove(p).push((key, value))[i] by {
                        assert(self@[i] == (self.keys@[self.order@[i] as int], self.values@[self.order@[i] as int]->Some_0));
                        assert(self.order@[i] < self.values@.len()) by {
                            reveal(LruCache::links_ok);
                        }
                        if i < o1.len() {
                            assert(self.order@[i] == o1[i]);
                            assert(o1[i] != idx);
                            let oi = if i < p { i } else { i + 1 };
                            assert(o1[i] == o[oi]);
                            assert(self.values@[o1[i] as int] == before.values@[o1[i] as int]);
                            assert(self.keys@[o1[i] as int] == before.keys@[o1[i] as int]);
                            assert(before@[oi] == (before.keys@[o[oi] as int], before.values@[o[oi] as int]->Some_0));
                            assert(before@.remove(p)[i] == before@[oi]);
                        } else {
                            assert(self.order@[i] == idx);
                            assert(self.values@[idx as int] == Some(value));
                        }
                    }
                    assert(self@ =~= before@.remove(p).push((key, value)));
                }
            },
            None => {
                if self.size >= self.capacity {
                    self.evict();
                }
                let ghost mid = *self;
                let idx = self.take_slot(key, value);
                self.link_front(idx);
                let ghost linked = *self;
                self.map.insert(key, idx);
                self.size = self.size + 1;
                proof {
                    assert(self.links_ok()) by {
                        reveal(LruCache::links_ok);
                        assert(linked.links_ok());
                    }
                    let o = self.order@;
                    let mo = mid.order@;
                    assert forall|i: int| 0 <= i < o.len() implies #[trigger] self.map@.contains_key(self.keys@[o[i] as int])
                        && self.map@[self.keys@[o[i] as int]] == o[i] by {
                        if i < mo.len() {
                            assert(o[i] == mo[i]);
                            assert(mid.map@.contains_key(mid.keys@[mo[i] as int]));
                        }
                    }
                    assert forall|k: u64| #[trigger] self.map@.contains_key(k) implies exists|i: int|
                        0 <= i < o.len() && o[i] == self.map@[k] && self.keys@[o[i] as int] == k by {
                        if k == key {
                            assert(o[o.len() - 1] == idx);
                        } else {
                            let j = choose|j: int| 0 <= j < mo.len() && mo[j] == mid.map@[k] && mid.keys@[mo[j] as int] == k;
                            assert(o[j] == mo[j]);
                        }
                    }
                    if before.order@.len() >= before.capacity {
                        assert(self@ =~= before@.drop_first().push((key, value)));
                    } else {
                        assert(self@ =~= before@.push((key, value)));
                    }
                }
            },
        }
    }

    /// Removes `key`, returning its value when it was present.
    #[verifier::rlimit(60)]
    pub fn remove(&mut self, key: &u64) -> (r: Option<V>)
        requires
            old(self).wf(),
        ensures
            final(self).wf(),
            final(self).cap() == old(self).cap(),
            final(self)@ == removed(old(self)@, *key),
            r is Some <==> has_key(old(self)@, *key),
            r matches Some(v) ==> v == old(self)@[position_of(old(self)@, *key)].1,
    {
        proof {
            reveal(LruCache::links_ok);
            reveal(LruCache::map_ok);
            reveal(LruCache::free_ok);
        }
        proof {
            self.lemma_view_keys();
        }
        let ghost before = *self;
        let ghost p = position_of(self@, *key);
        let idx = match self.map.remove(key) {
            None => {
                return None;
            },
            Some(i) => i,
        };
        self.unlink(idx, Ghost(p));
        let v = self.values[idx].take();
        self.free.push(idx);
        self.size = self.size - 1;
        proof {
            let o = before.order@;
            let o2 = self.order@;
            assert forall|i: int| 0 <= i < o2.len() implies self.values@[#[trigger] o2[i] as int] is Some by {
                let oi = if i < p { i } else { i + 1 };
                assert(o2[i] == o[oi]);
                assert(o[oi] != o[p]);
            }
            assert forall|i: int| 0 <= i < o2.len() implies #[trigger] self.map@.contains_key(self.keys@[o2[i] as int])
                && self.map@[self.keys@[o2[i] as int]] == o2[i] by {
                let oi = if i < p { i } else { i + 1 };
                assert(o2[i] == o[oi]);
                assert(before.map@.contains_key(before.keys@[o[oi] as int]));
                assert(o[oi] != o[p]);
            }
            assert forall|kk: u64| #[trigger] self.map@.contains_key(kk) implies exists|i: int|
                0 <= i < o2.len() && o2[i] == self.map@[kk] && self.keys@[o2[i] as int] == kk by {
                let j = choose|j: int| 0 <= j < o.len() && o[j] == before.map@[kk] && before.keys@[o[j] as int] == kk;
                assert(j != p);
                let i = if j < p { j } else { j - 1 };
                assert(o2[i] == o[j]);
            }
            assert forall|i: int| 0 <= i < self.free@.len() implies self.values@[#[trigger] self.free@[i] as int] is None by {
                if i < before.free@.len() {
                    assert(self.free@[i] == before.free@[i]);
                }
            }
            assert forall|i: int| 0 <= i < self.free@.len() implies #[trigger] self.free@[i] < self.keys@.len() by {
                if i < before.free@.len() {
                    assert(self.free@[i] == before.free@[i]);
                }
            }
            assert forall|i: int, j: int| 0 <= i < j < self.free@.len() implies self.free@[i] != self.free@[j] by {
                if j == before.free@.len() {
                    assert(before.values@[before.free@[i] as int] is None);
                    assert(before.values@[idx as int] is Some);
                } else {
                    assert(self.free@[i] == before.free@[i] && self.free@[j] == before.free@[j]);
                }
            }
            assert(self@ =~= before@.remove(p));
        }
        v
    }

    /// Number of cached entries.
    pub fn len(&self) -> (r: usize)
        requires
            self.wf(),
        ensures
            r == self@.len(),
    {
        self.size
    }

    /// Whether the cache holds no entry.
    pub fn is_empty(&self) -> (r: bool)
        requires
            self.wf(),
        ensures
            r <==> self@.len() == 0,
    {
        self.size == 0
    }

    /// Drops every entry; the capacity stays.
    pub fn clear(&mut self)
        requires
            old(self).wf(),
        ensures
            final(self).wf(),
            final(self).cap() == old(self).cap(),
            final(self)@ == Seq::<(u64, V)>::empty(),
    {
        proof {
            reveal(LruCache::links_ok);
            reveal(LruCache::map_ok);
            reveal(LruCache::free_ok);
        }
        self.map.clear();
        self.keys.clear();
        self.values.clear();
        self.newer.clear();
        self.older.clear();
        self.free.clear();
        self.head = None;
        self.tail = None;
        self.size = 0;
        self.order = Ghost(Seq::empty());
        proof {
            assert(self@ =~= Seq::<(u64, V)>::empty());
        }
    }
}

} // verus!
