//! The mathematical model of an ordered map: a sequence of key-value pairs with
//! unique keys, oldest first, and what each operation does to it.
use vstd::prelude::*;

verus! {

/// The entries that inserting the pairs of `s` one after another into an empty map
/// leaves, oldest first.
pub open spec fn model_from_pairs<K, V>(s: Seq<(K, V)>) -> Seq<(K, V)>
    decreases s.len(),
{
    if s.len() == 0 {
        s
    } else {
        model_insert(model_from_pairs(s.drop_last()), s.last().0, s.last().1)
    }
}

/// Rebuilding a map from its own entries, by inserting them in order into an empty
/// map, gives back the same entries in the same order.
pub proof fn lemma_round_trip<K, V>(s: Seq<(K, V)>)
    requires
        keys_unique(s),
    ensures
        model_from_pairs(s) == s,
    decreases s.len(),
{
    if s.len() > 0 {
        let init = s.drop_last();
        assert(keys_unique(init)) by {
            assert forall|a: int, b: int|
                0 <= a < init.len() && 0 <= b < init.len() && a != b implies (#[trigger] init[a]).0
                != (#[trigger] init[b]).0 by {
                assert(init[a] == s[a]);
                assert(init[b] == s[b]);
            }
        }
        lemma_round_trip(init);
        if has_key(init, s.last().0) {
            let j = choose|j: int| 0 <= j < init.len() && (#[trigger] init[j]).0 == s.last().0;
            assert(s[j] == init[j]);
            assert(s[j].0 == s[s.len() - 1].0);
        }
        assert(init.push(s.last()) =~= s);
    }
}

/// Re-inserting a key that is present keeps the number of entries, makes the
/// pair the newest entry, and gives it the new value.
pub proof fn lemma_reinsert<K, V>(s: Seq<(K, V)>, k: K, v: V)
    requires
        keys_unique(s),
        has_key(s, k),
    ensures
        model_insert(s, k, v).len() == s.len(),
        model_insert(s, k, v).last() == (k, v),
        model_insert(s, k, v).drop_last() == s.remove(key_pos(s, k)),
{
    let t = model_insert(s, k, v);
    assert(t.drop_last() =~= s.remove(key_pos(s, k)));
}

/// Moving the pair of `k` to the newest end puts it last and keeps its value.
pub proof fn lemma_to_back_last<K, V>(s: Seq<(K, V)>, k: K)
    requires
        keys_unique(s),
        has_key(s, k),
    ensures
        model_to_back(s, k).len() == s.len(),
        has_key(model_to_back(s, k), k),
        key_pos(model_to_back(s, k), k) == s.len() - 1,
        value_of(model_to_back(s, k), k) == value_of(s, k),
        model_to_back(s, k).last() == s[key_pos(s, k)],
{
    let p = key_pos(s, k);
    let t = model_to_back(s, k);
    s.remove_ensures(p);
    assert(t[t.len() - 1].0 == k);
    let q = key_pos(t, k);
    if q != t.len() - 1 {
        let oq = if q < p { q } else { q + 1 };
        assert(t[q] == s[oq]);
    }
}

/// The keys of a sequence of pairs are pairwise different.
pub open spec fn keys_unique<K, V>(s: Seq<(K, V)>) -> bool {
    forall|a: int, b: int|
        0 <= a < s.len() && 0 <= b < s.len() && a != b ==> (#[trigger] s[a]).0 != (#[trigger] s[b]).0
}

/// Some pair of `s` has key `k`.
pub open spec fn has_key<K, V>(s: Seq<(K, V)>, k: K) -> bool {
    exists|j: int| 0 <= j < s.len() && (#[trigger] s[j]).0 == k
}

/// The position of the pair with key `k` in `s` (meaningful where `has_key(s, k)`).
pub open spec fn key_pos<K, V>(s: Seq<(K, V)>, k: K) -> int {
    choose|j: int| 0 <= j < s.len() && (#[trigger] s[j]).0 == k
}

/// The value stored under `k` in `s`.
pub open spec fn value_of<K, V>(s: Seq<(K, V)>, k: K) -> V {
    s[key_pos(s, k)].1
}

/// The keys of `s`, in order.
pub open spec fn keys_of<K, V>(s: Seq<(K, V)>) -> Seq<K> {
    s.map_values(|p: (K, V)| p.0)
}

/// `s` after inserting `(k, v)`: a present key is moved to the newest end with its
/// new value, an absent one is appended.
pub open spec fn model_insert<K, V>(s: Seq<(K, V)>, k: K, v: V) -> Seq<(K, V)> {
    if has_key(s, k) {
        s.remove(key_pos(s, k)).push((k, v))
    } else {
        s.push((k, v))
    }
}

/// `s` without the pair of key `k`.
pub open spec fn model_remove<K, V>(s: Seq<(K, V)>, k: K) -> Seq<(K, V)> {
    if has_key(s, k) {
        s.remove(key_pos(s, k))
    } else {
        s
    }
}

/// `s` with the pair of key `k`, if any, moved to the newest end.
pub open spec fn model_to_back<K, V>(s: Seq<(K, V)>, k: K) -> Seq<(K, V)> {
    if has_key(s, k) {
        s.remove(key_pos(s, k)).push(s[key_pos(s, k)])
    } else {
        s
    }
}

/// `s` with the pair of key `k`, if any, moved to the oldest end.
pub open spec fn model_to_front<K, V>(s: Seq<(K, V)>, k: K) -> Seq<(K, V)> {
    if has_key(s, k) {
        seq![s[key_pos(s, k)]] + s.remove(key_pos(s, k))
    } else {
        s
    }
}

} // verus!
