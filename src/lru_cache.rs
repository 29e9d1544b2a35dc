//! A least-recently-used cache: an ordered map whose oldest end is the least
//! recently used entry, and a capacity that insertion enforces by eviction.
use crate::linked_hash_map::{Entry, LinkedHashMap, RawEntryBuilder, RawEntryBuilderMut};
use crate::model::{
    has_key, key_pos, keys_unique, lemma_round_trip, model_from_pairs, model_insert, model_remove,
    model_to_back, value_of,
};
use crate::linked_hash_map::GUARD;
use std::hash::{BuildHasher, Hash};
use vstd::prelude::*;
use vstd::std_specs::hash::{builds_valid_hashers, obeys_key_model};

verus! {

/// `s` after inserting `(k, v)` into a cache of capacity `cap`: the pair goes to
/// the newest end, and when that leaves more than `cap` entries the oldest one
/// is evicted.
pub open spec fn model_lru_insert<K, V>(s: Seq<(K, V)>, cap: nat, k: K, v: V) -> Seq<(K, V)> {
    let t = model_insert(s, k, v);
    if t.len() > cap {
        t.drop_first()
    } else {
        t
    }
}

/// The entries of `s` that a cache of capacity `cap` keeps: the newest `cap`.
pub open spec fn model_shrink<K, V>(s: Seq<(K, V)>, cap: nat) -> Seq<(K, V)> {
    if s.len() > cap {
        s.subrange(s.len() - cap, s.len() as int)
    } else {
        s
    }
}

/// `s` after inserting the pairs of `items` one after another into a cache of
/// capacity `cap`.
pub open spec fn model_lru_extend<K, V>(s: Seq<(K, V)>, cap: nat, items: Seq<(K, V)>) -> Seq<
    (K, V),
>
    decreases items.len(),
{
    if items.len() == 0 {
        s
    } else {
        let t = model_lru_extend(s, cap, items.drop_last());
        model_lru_insert(t, cap, items.last().0, items.last().1)
    }
}

/// In a full cache of capacity `cap`, inserting a key it does not hold evicts
/// exactly the least recently used pair, and appends the new pair at the newest end.
pub proof fn lemma_evicts_oldest<K, V>(s: Seq<(K, V)>, cap: nat, k: K, v: V)
    requires
        keys_unique(s),
        s.len() == cap,
        cap > 0,
        !has_key(s, k),
    ensures
        model_insert(s, k, v)[0] == s[0],
        model_insert(s, k, v).len() > cap,
        model_lru_insert(s, cap, k, v) == s.drop_first().push((k, v)),
{
    assert(model_lru_insert(s, cap, k, v) =~= s.drop_first().push((k, v)));
}

/// Inserting up to `cap` pairs with distinct keys into an empty cache of capacity
/// `cap` evicts nothing.
pub proof fn lemma_fill<K, V>(items: Seq<(K, V)>, cap: nat)
    requires
        keys_unique(items),
        items.len() <= cap,
    ensures
        model_lru_extend(Seq::empty(), cap, items) == items,
    decreases items.len(),
{
    if items.len() > 0 {
        let init = items.drop_last();
        assert(keys_unique(init)) by {
            assert forall|a: int, b: int|
                0 <= a < init.len() && 0 <= b < init.len() && a != b implies (#[trigger] init[a]).0
                != (#[trigger] init[b]).0 by {
                assert(init[a] == items[a]);
                assert(init[b] == items[b]);
            }
        }
        lemma_fill(init, cap);
        if has_key(init, items.last().0) {
            let j = choose|j: int| 0 <= j < init.len() && (#[trigger] init[j]).0 == items.last().0;
            assert(items[j] == init[j]);
        }
        assert(init.push(items.last()) =~= items);
    }
}

/// Inserting `cap + 1` pairs with distinct keys into an empty cache of capacity
/// `cap` evicts exactly the first pair: the cache keeps the other `cap`, in order.
pub proof fn lemma_evicts_first_of_distinct<K, V>(items: Seq<(K, V)>, cap: nat)
    requires
        keys_unique(items),
        items.len() == cap + 1,
        cap > 0,
    ensures
        model_lru_extend(Seq::empty(), cap, items) == items.drop_first(),
{
    let init = items.drop_last();
    assert(keys_unique(init)) by {
        assert forall|a: int, b: int|
            0 <= a < init.len() && 0 <= b < init.len() && a != b implies (#[trigger] init[a]).0
            != (#[trigger] init[b]).0 by {
            assert(init[a] == items[a]);
            assert(init[b] == items[b]);
        }
    }
    lemma_fill(init, cap);
    if has_key(init, items.last().0) {
        let j = choose|j: int| 0 <= j < init.len() && (#[trigger] init[j]).0 == items.last().0;
        assert(items[j] == init[j]);
    }
    lemma_evicts_oldest(init, cap, items.last().0, items.last().1);
    assert(init.drop_first().push((items.last().0, items.last().1)) =~= items.drop_first());
}

/// A cache rebuilt from its entries and its capacity has the same entries, in the
/// same order.
pub proof fn lemma_cache_round_trip<K, V>(s: Seq<(K, V)>, cap: nat)
    requires
        keys_unique(s),
        s.len() <= cap,
    ensures
        model_shrink(model_from_pairs(s), cap) == s,
{
    lemma_round_trip(s);
}

/// A cache that holds at most `capacity()` entries and evicts the least recently
/// used one to make room.
#[derive(Clone)]
#[verifier::reject_recursive_types(K)]
#[verifier::reject_recursive_types(S)]
pub struct LruCache<K, V, S = std::hash::RandomState> {
    map: LinkedHashMap<K, V, S>,
    max_size: usize,
}

impl<K, V, S> LruCache<K, V, S> {
    /// The ordered map that holds the entries.
    pub closed spec fn inner(&self) -> LinkedHashMap<K, V, S> {
        self.map
    }

    /// The entries, least recently used first.
    pub open spec fn view(&self) -> Seq<(K, V)> {
        self.inner()@
    }

    /// The capacity bound.
    pub closed spec fn cap(&self) -> usize {
        self.max_size
    }

    /// The cache's invariant: its map is well formed. The entry methods may leave
    /// one entry more than the capacity; every other method that adds entries
    /// keeps the cache within its capacity.
    pub open spec fn wf(&self) -> bool {
        self.inner().wf()
    }
}

impl<K: Eq + Hash + Clone, V> LruCache<K, V> {
    /// An empty cache that holds at most `capacity` entries.
    pub fn new(capacity: usize) -> (r: Self)
        requires
            obeys_key_model::<K>(),
        ensures
            r.wf(),
            r@ == Seq::<(K, V)>::empty(),
            r.cap() == capacity,
    {
        LruCache { map: LinkedHashMap::new(), max_size: capacity }
    }

    /// An empty cache that never evicts: its capacity is `usize::MAX`.
    pub fn new_unbounded() -> (r: Self)
        requires
            obeys_key_model::<K>(),
        ensures
            r.wf(),
            r@ == Seq::<(K, V)>::empty(),
            r.cap() == usize::MAX,
    {
        LruCache::new(usize::MAX)
    }
}

impl<K: Eq + Hash + Clone, V> LruCache<K, V> {
    /// A cache of capacity `max_size` built by inserting `pairs` in order; when
    /// there are more distinct keys than `max_size`, the newest ones are kept.
    pub fn from_parts(pairs: Vec<(K, V)>, max_size: usize) -> (r: Self)
        requires
            obeys_key_model::<K>(),
            pairs@.len() < GUARD,
        ensures
            r.wf(),
            r.cap() == max_size,
            r@ == model_shrink(model_from_pairs(pairs@), max_size as nat),
            r@.len() <= r.cap(),
    {
        let mut map = LinkedHashMap::from_pairs(pairs);
        let ghost built = map@;
        let n0 = map.len();
        let mut dropped: usize = 0;
        while map.len() > max_size
            invariant
                map.wf(),
                n0 == built.len(),
                dropped <= n0,
                dropped == 0 || dropped + max_size <= n0,
                map@ == built.subrange(dropped as int, n0 as int),
            decreases map@.len(),
        {
            map.pop_front();
            dropped = dropped + 1;
            proof {
                assert(map@ =~= built.subrange(dropped as int, n0 as int));
            }
        }
        proof {
            if n0 <= max_size {
                assert(map@ =~= built);
            }
        }
        LruCache { map, max_size }
    }
}

impl<K: Eq + Hash + Clone, V, S: BuildHasher> LruCache<K, V, S> {
    /// An empty cache of capacity `capacity` that hashes with `hash_builder`.
    pub fn with_hasher(capacity: usize, hash_builder: S) -> (r: Self)
        requires
            obeys_key_model::<K>(),
            builds_valid_hashers::<S>(),
        ensures
            r.wf(),
            r@ == Seq::<(K, V)>::empty(),
            r.cap() == capacity,
    {
        LruCache { map: LinkedHashMap::with_hasher(hash_builder), max_size: capacity }
    }

    /// Inserts `(k, v)` as the most recently used entry and returns the value `k`
    /// held before. When the cache then exceeds its capacity, the least recently
    /// used entry is evicted and handed to `remove_lru_callback`.
    pub fn insert<F: FnOnce(K, V)>(&mut self, k: K, v: V, remove_lru_callback: F) -> (r: Option<V>)
        requires
            old(self).wf(),
            old(self)@.len() + 1 < GUARD,
            forall|ek: K, ev: V| remove_lru_callback.requires((ek, ev)),
        ensures
            final(self).wf(),
            final(self).cap() == old(self).cap(),
            final(self)@ == model_lru_insert(old(self)@, old(self).cap() as nat, k, v),
            old(self)@.len() <= old(self).cap() ==> final(self)@.len() <= final(self).cap(),
            r == (if has_key(old(self)@, k) {
                Some(value_of(old(self)@, k))
            } else {
                None
            }),
            ({
                let t = model_insert(old(self)@, k, v);
                t.len() > old(self).cap() ==> remove_lru_callback.ensures((t[0].0, t[0].1), ())
            }),
    {
        let old_val = self.map.insert(k, v);
        self.evict_over_capacity(remove_lru_callback);
        old_val
    }

    /// Inserts `items` in order, each as the most recently used entry, evicting the
    /// least recently used entry whenever the cache goes over capacity.
    pub fn extend(&mut self, items: Vec<(K, V)>)
        requires
            old(self).wf(),
            old(self)@.len() + items@.len() < GUARD,
        ensures
            final(self).wf(),
            final(self).cap() == old(self).cap(),
            final(self)@ == model_lru_extend(old(self)@, old(self).cap() as nat, items@),
            old(self)@.len() <= old(self).cap() ==> final(self)@.len() <= final(self).cap(),
    {
        let ghost items_seq = items@;
        let ghost start = self@;
        for e in it: items.into_iter()
            invariant
                self.wf(),
                self.cap() == old(self).cap(),
                it.seq() == items_seq,
                start == old(self)@,
                start.len() + items_seq.len() < GUARD,
                self@ == model_lru_extend(start, self.cap() as nat, items_seq.subrange(0, it.index() as int)),
                self@.len() <= start.len() + it.index(),
                start.len() <= self.cap() ==> self@.len() <= self.cap(),
        {
            proof {
                assert(items_seq.subrange(0, it.index() + 1).drop_last() =~= items_seq.subrange(
                    0,
                    it.index() as int,
                ));
            }
            self.map.insert(e.0, e.1);
            if self.map.len() > self.max_size {
                self.map.pop_front();
            }
        }
        proof {
            assert(items_seq.subrange(0, items_seq.len() as int) =~= items_seq);
        }
    }

    /// Takes the cache apart into its entries, least recently used first, and its
    /// capacity.
    pub fn into_parts(self) -> (r: (Vec<(K, V)>, usize))
        requires
            self.wf(),
        ensures
            r.0@ == self@,
            r.1 == self.cap(),
    {
        let max_size = self.max_size;
        (self.map.into_pairs(), max_size)
    }

    /// The cache's capacity.
    pub fn capacity(&self) -> (r: usize)
        ensures
            r == self.cap(),
    {
        self.max_size
    }

    /// The number of entries.
    pub fn len(&self) -> (r: usize)
        requires
            self.wf(),
        ensures
            r == self@.len(),
    {
        self.map.len()
    }

    /// Whether the cache is empty.
    pub fn is_empty(&self) -> (r: bool)
        requires
            self.wf(),
        ensures
            r == (self@.len() == 0),
    {
        self.map.is_empty()
    }

    /// Removes every entry; the capacity stays.
    pub fn clear(&mut self)
        requires
            old(self).wf(),
        ensures
            final(self).wf(),
            final(self)@.len() == 0,
            final(self).cap() == old(self).cap(),
    {
        self.map.clear();
    }

    /// The entries, least recently used first.
    pub fn iter(&self) -> (r: Vec<(&K, &V)>)
        requires
            self.wf(),
        ensures
            r@.len() == self@.len(),
            forall|j: int| 0 <= j < self@.len() ==> (*r@[j].0, *r@[j].1) == #[trigger] self@[j],
    {
        self.map.iter()
    }

    /// Takes every entry out, least recently used first, and leaves the cache empty.
    pub fn drain(&mut self) -> (r: Vec<(K, V)>)
        requires
            old(self).wf(),
        ensures
            final(self).wf(),
            r@ == old(self)@,
            final(self)@.len() == 0,
            final(self).cap() == old(self).cap(),
    {
        self.map.drain()
    }

    /// Whether the cache holds `k`; a held entry becomes the most recently used.
    pub fn contains_key(&mut self, k: &K) -> (r: bool)
        requires
            old(self).wf(),
        ensures
            final(self).wf(),
            final(self).cap() == old(self).cap(),
            r == has_key(old(self)@, *k),
            final(self)@ == model_to_back(old(self)@, *k),
    {
        self.map.to_back(k)
    }

    /// The value of `k`, without marking it as used.
    pub fn peek(&self, k: &K) -> (r: Option<&V>)
        requires
            self.wf(),
        ensures
            match r {
                Some(v) => has_key(self@, *k) && *v == value_of(self@, *k),
                None => !has_key(self@, *k),
            },
    {
        self.map.get(k)
    }

    /// A mutable reference to the value of `k`, without marking it as used.
    pub fn peek_mut(&mut self, k: &K) -> (r: Option<&mut V>)
        requires
            old(self).wf(),
        ensures
            r is Some == has_key(old(self)@, *k),
            r matches Some(v) ==> *v == value_of(old(self)@, *k),
            r matches Some(v) ==> final(self).wf(),
            r matches Some(v) ==> final(self)@ == old(self)@.update(
                key_pos(old(self)@, *k),
                (*k, *final(v)),
            ),
            final(self).cap() == old(self).cap(),
            r is None ==> *final(self) == *old(self),
    {
        self.map.get_mut(k)
    }

    /// The value of `k`, which becomes the most recently used entry.
    pub fn get(&mut self, k: &K) -> (r: Option<&V>)
        requires
            old(self).wf(),
        ensures
            final(self).wf(),
            final(self).cap() == old(self).cap(),
            final(self)@ == model_to_back(old(self)@, *k),
            match r {
                Some(v) => has_key(old(self)@, *k) && *v == value_of(old(self)@, *k),
                None => !has_key(old(self)@, *k),
            },
    {
        proof {
            self.map.lemma_index_keys();
            if has_key(self@, *k) {
                crate::model::lemma_to_back_last(self@, *k);
            }
        }
        self.map.to_back(k);
        self.map.get(k)
    }

    /// A mutable reference to the value of `k`, which becomes the most recently
    /// used entry.
    pub fn get_mut(&mut self, k: &K) -> (r: Option<&mut V>)
        requires
            old(self).wf(),
        ensures
            r is Some == has_key(old(self)@, *k),
            r matches Some(v) ==> *v == value_of(old(self)@, *k),
            r matches Some(v) ==> final(self).wf(),
            r matches Some(v) ==> final(self)@ == model_to_back(old(self)@, *k).update(
                old(self)@.len() - 1,
                (*k, *final(v)),
            ),
            final(self).cap() == old(self).cap(),
            r is None ==> final(self)@ == old(self)@ && final(self).wf(),
    {
        proof {
            self.map.lemma_index_keys();
            if has_key(self@, *k) {
                crate::model::lemma_to_back_last(self@, *k);
            }
        }
        self.map.to_back(k);
        self.map.get_mut(k)
    }

    /// Removes the entry of `k` and returns its value.
    pub fn remove(&mut self, k: &K) -> (r: Option<V>)
        requires
            old(self).wf(),
        ensures
            final(self).wf(),
            final(self).cap() == old(self).cap(),
            final(self)@ == model_remove(old(self)@, *k),
            r == (if has_key(old(self)@, *k) {
                Some(value_of(old(self)@, *k))
            } else {
                None
            }),
    {
        self.map.remove(k)
    }

    /// Removes the entry of `k` and returns its key and value.
    pub fn remove_entry(&mut self, k: &K) -> (r: Option<(K, V)>)
        requires
            old(self).wf(),
        ensures
            final(self).wf(),
            final(self).cap() == old(self).cap(),
            final(self)@ == model_remove(old(self)@, *k),
            r == (if has_key(old(self)@, *k) {
                Some(old(self)@[key_pos(old(self)@, *k)])
            } else {
                None
            }),
    {
        self.map.remove_entry(k)
    }

    /// Removes the least recently used entry and returns it.
    pub fn remove_lru(&mut self) -> (r: Option<(K, V)>)
        requires
            old(self).wf(),
        ensures
            final(self).wf(),
            final(self).cap() == old(self).cap(),
            old(self)@.len() == 0 ==> r is None && final(self)@ == old(self)@,
            old(self)@.len() > 0 ==> r == Some(old(self)@[0]) && final(self)@
                == old(self)@.drop_first(),
    {
        self.map.pop_front()
    }

    /// The least recently used entry, without marking it as used.
    pub fn peek_lru(&mut self) -> (r: Option<(&K, &V)>)
        requires
            old(self).wf(),
        ensures
            *final(self) == *old(self),
            old(self)@.len() == 0 ==> r is None,
            old(self)@.len() > 0 ==> (r matches Some(e) && (*e.0, *e.1) == old(self)@[0]),
    {
        self.map.front()
    }

    /// Sets the capacity to `capacity`. While the cache holds more entries than
    /// that, the least recently used one is evicted and handed to
    /// `remove_lru_callback`.
    pub fn set_capacity<F: Fn(K, V)>(&mut self, capacity: usize, remove_lru_callback: F)
        requires
            old(self).wf(),
            forall|ek: K, ev: V| remove_lru_callback.requires((ek, ev)),
        ensures
            final(self).wf(),
            final(self).cap() == capacity,
            final(self)@ == model_shrink(old(self)@, capacity as nat),
            final(self)@.len() <= capacity,
            forall|j: int|
                0 <= j < old(self)@.len() - capacity ==> remove_lru_callback.ensures(
                    (#[trigger] old(self)@[j].0, old(self)@[j].1),
                    (),
                ),
    {
        let n0 = self.map.len();
        let ghost n = n0 as nat;
        let mut evicted: usize = 0;
        while self.map.len() > capacity
            invariant
                self.map.wf(),
                n == old(self)@.len(),
                evicted <= n,
                evicted == 0 || evicted + capacity <= n,
                n0 == n,
                self@ == old(self)@.subrange(evicted as int, n as int),
                forall|j: int|
                    0 <= j < evicted ==> remove_lru_callback.ensures(
                        (#[trigger] old(self)@[j].0, old(self)@[j].1),
                        (),
                    ),
                forall|ek: K, ev: V| remove_lru_callback.requires((ek, ev)),
            decreases self@.len(),
        {
            if let Some(x) = self.map.pop_front() {
                remove_lru_callback(x.0, x.1);
                evicted = evicted + 1;
                proof {
                    assert(self@ =~= old(self)@.subrange(evicted as int, n as int));
                }
            }
        }
        self.max_size = capacity;
        proof {
            if n > capacity {
                assert(evicted == n - capacity);
            } else {
                assert(evicted == 0);
                assert(self@ =~= old(self)@);
            }
        }
    }
}

impl<K: Eq + Hash + Clone, V, S: BuildHasher> LruCache<K, V, S> {
    /// Evicts the least recently used entry, handing it to `remove_lru_callback`,
    /// when the cache holds more entries than its capacity.
    fn evict_over_capacity<F: FnOnce(K, V)>(&mut self, remove_lru_callback: F)
        requires
            old(self).wf(),
            forall|ek: K, ev: V| remove_lru_callback.requires((ek, ev)),
        ensures
            final(self).wf(),
            final(self).cap() == old(self).cap(),
            old(self)@.len() > old(self).cap() ==> final(self)@ == old(self)@.drop_first()
                && remove_lru_callback.ensures((old(self)@[0].0, old(self)@[0].1), ()),
            old(self)@.len() <= old(self).cap() ==> final(self)@ == old(self)@,
    {
        if self.map.len() > self.max_size {
            if let Some(x) = self.map.pop_front() {
                remove_lru_callback(x.0, x.1);
            }
        }
    }

    /// Looks `key` up and returns its entry, without marking it as used. First,
    /// when the cache is over capacity, the least recently used entry is evicted
    /// and handed to `remove_lru_callback`, so a vacant entry always has room for
    /// one insertion; inserting through it may leave one entry over capacity.
    pub fn entry<F: FnOnce(K, V)>(&mut self, key: K, remove_lru_callback: F) -> (r: Entry<
        '_,
        K,
        V,
        S,
    >)
        requires
            old(self).wf(),
            old(self)@.len() + 1 < GUARD,
            forall|ek: K, ev: V| remove_lru_callback.requires((ek, ev)),
        ensures
            final(self).cap() == old(self).cap(),
            old(self)@.len() > old(self).cap() ==> remove_lru_callback.ensures(
                (old(self)@[0].0, old(self)@[0].1),
                (),
            ),
            ({
                let kept = if old(self)@.len() > old(self).cap() {
                    old(self)@.drop_first()
                } else {
                    old(self)@
                };
                match r {
                    Entry::Occupied(o) => {
                        &&& has_key(kept, key)
                        &&& o.valid()
                        &&& o.entries() == kept
                        &&& o.pos() == key_pos(kept, key)
                        &&& *final(o.map) == final(self).inner()
                    },
                    Entry::Vacant(e) => {
                        &&& !has_key(kept, key)
                        &&& e.valid()
                        &&& e.entries() == kept
                        &&& e.key == key
                        &&& *final(e.map) == final(self).inner()
                    },
                }
            }),
    {
        self.evict_over_capacity(remove_lru_callback);
        self.map.entry(key)
    }

    /// Starts a read-only lookup by a borrowed key, which never marks an entry as
    /// used.
    pub fn raw_entry(&self) -> (r: RawEntryBuilder<'_, K, V, S>)
        ensures
            *r.map == self.inner(),
    {
        self.map.raw_entry()
    }

    /// Starts a lookup by a borrowed key that may change the cache, which never
    /// marks an entry as used. First, when the cache is over capacity, the least
    /// recently used entry is evicted and handed to `remove_lru_callback`.
    pub fn raw_entry_mut<F: FnOnce(K, V)>(&mut self, remove_lru_callback: F) -> (r:
        RawEntryBuilderMut<'_, K, V, S>)
        requires
            old(self).wf(),
            forall|ek: K, ev: V| remove_lru_callback.requires((ek, ev)),
        ensures
            final(self).cap() == old(self).cap(),
            old(self)@.len() > old(self).cap() ==> remove_lru_callback.ensures(
                (old(self)@[0].0, old(self)@[0].1),
                (),
            ),
            r.map.wf(),
            (*r.map)@ == (if old(self)@.len() > old(self).cap() {
                old(self)@.drop_first()
            } else {
                old(self)@
            }),
            *final(r.map) == final(self).inner(),
    {
        self.evict_over_capacity(remove_lru_callback);
        self.map.raw_entry_mut()
    }
}

} // verus!
