//! An ordered hash map: a hash index from keys to slot numbers, and an order list
//! threaded through a slot arena whose unused slots form a free list.
use std::collections::HashMap;
use std::hash::{BuildHasher, Hash};
use vstd::prelude::*;
use vstd::std_specs::hash::{builds_valid_hashers, obeys_key_model};
use crate::model::{
    has_key, key_pos, keys_of, keys_unique, model_from_pairs, model_insert, model_remove,
    model_to_back, model_to_front, value_of,
};
use crate::slot::{
    distinct, lemma_moved_back, lemma_moved_front, lemma_removed_absent, next_in, pair_at, payload,
    prev_in, set_next, set_prev, value_mut, with_next, with_prev, Slot,
};

pub use crate::slot::GUARD;

verus! {

broadcast use vstd::std_specs::hash::group_hash_axioms;

/// A map that remembers the order in which its keys were inserted or moved.
///
/// Entries live in `slots`. Live slots form a doubly linked order list from
/// `head` (oldest) to `tail` (newest); unused slots form a singly linked free list
/// from `free`, and are reused before the arena grows. `index` maps each key to
/// its slot.
#[derive(Clone)]
#[verifier::reject_recursive_types(K)]
#[verifier::reject_recursive_types(S)]
pub struct LinkedHashMap<K, V, S = std::hash::RandomState> {
    slots: Vec<Slot<K, V>>,
    index: HashMap<K, usize, S>,
    head: usize,
    tail: usize,
    free: usize,
    order: Ghost<Seq<usize>>,
    free_list: Ghost<Seq<usize>>,
}

impl<K, V, S> LinkedHashMap<K, V, S> {
    /// The slots of the free list, in the order they will be reused.
    pub closed spec fn free_slots(&self) -> Seq<usize> {
        self.free_list@
    }

    /// The number of slots the arena holds, live or free.
    pub closed spec fn storage(&self) -> nat {
        self.slots@.len()
    }

    /// The entries, oldest first.
    pub closed spec fn view(&self) -> Seq<(K, V)> {
        Seq::new(self.order@.len(), |j: int| pair_at(self.slots@, self.order@[j]))
    }

    /// The order list: distinct live slots, each linked to its neighbours, with
    /// `head` and `tail` at the ends.
    #[verifier::opaque]
    closed spec fn list_ok(&self) -> bool {
        let order = self.order@;
        let slots = self.slots@;
        &&& distinct(order)
        &&& forall|j: int|
            0 <= j < order.len() ==> {
                &&& (#[trigger] order[j]) < slots.len()
                &&& slots[order[j] as int] matches Slot::Occupied { prev, next, .. }
                &&& prev == prev_in(order, j)
                &&& next == next_in(order, j)
            }
        &&& self.head == (if order.len() == 0 { GUARD } else { order[0] })
        &&& self.tail == (if order.len() == 0 { GUARD } else { order.last() })
    }

    /// The free list: distinct unused slots, each linked to the next, from `free`.
    #[verifier::opaque]
    closed spec fn free_ok(&self) -> bool {
        let fl = self.free_list@;
        let slots = self.slots@;
        &&& distinct(fl)
        &&& forall|j: int|
            0 <= j < fl.len() ==> {
                &&& (#[trigger] fl[j]) < slots.len()
                &&& slots[fl[j] as int] == Slot::<K, V>::Free {
                    next: if j + 1 == fl.len() { GUARD } else { fl[j + 1] },
                }
            }
        &&& self.free == (if fl.len() == 0 { GUARD } else { fl[0] })
    }

    /// The hash index maps the key of each live slot to that slot, and nothing
    /// else.
    #[verifier::opaque]
    closed spec fn index_ok(&self) -> bool {
        let order = self.order@;
        let slots = self.slots@;
        let m = self.index@;
        &&& forall|j: int|
            0 <= j < order.len() ==> {
                let k = (#[trigger] pair_at(slots, order[j])).0;
                m.contains_key(k) && m[k] == order[j]
            }
        &&& forall|k: K|
            #[trigger] m.contains_key(k) ==> order.contains(m[k]) && pair_at(slots, m[k]).0 == k
    }

    /// The map's internal invariant. It includes vstd's hash-table model of the key
    /// and hasher types, on which the hash index's behaviour rests.
    pub closed spec fn wf(&self) -> bool {
        &&& obeys_key_model::<K>()
        &&& builds_valid_hashers::<S>()
        &&& self.slots@.len() < GUARD
        &&& self.order@.len() + self.free_list@.len() == self.slots@.len()
        &&& self.list_ok()
        &&& self.free_ok()
        &&& self.index_ok()
    }
}

impl<K, V, S> LinkedHashMap<K, V, S> {
    /// Whether slot `i` holds a live entry.
    pub closed spec fn holds_slot(&self, i: usize) -> bool {
        self.order@.contains(i)
    }

    /// The position in the order of the live slot `i`.
    pub closed spec fn slot_pos(&self, i: usize) -> int {
        choose|p: int| 0 <= p < self.order@.len() && self.order@[p] == i
    }

    /// The keys that the hash index holds.
    pub closed spec fn indexed_keys(&self) -> Set<K> {
        self.index@.dom()
    }

    /// The hash index and the order list agree: the index holds exactly the keys
    /// of the entries in the order list, no key twice, and as many keys as there
    /// are entries.
    pub proof fn lemma_index_keys(&self)
        requires
            self.wf(),
        ensures
            keys_unique(self@),
            keys_of(self@).no_duplicates(),
            self.indexed_keys() == keys_of(self@).to_set(),
            self.indexed_keys().finite(),
            self.indexed_keys().len() == self@.len(),
    {
        reveal(LinkedHashMap::list_ok);
        reveal(LinkedHashMap::free_ok);
        reveal(LinkedHashMap::index_ok);
        let v = self@;
        let ks = keys_of(v);
        assert forall|a: int, b: int|
            0 <= a < v.len() && 0 <= b < v.len() && a != b implies (#[trigger] v[a]).0
            != (#[trigger] v[b]).0 by {
            let ka = pair_at(self.slots@, self.order@[a]).0;
            let kb = pair_at(self.slots@, self.order@[b]).0;
            assert(self.index@[ka] == self.order@[a]);
            assert(self.index@[kb] == self.order@[b]);
        }
        assert(ks.no_duplicates()) by {
            assert forall|a: int, b: int|
                0 <= a < ks.len() && 0 <= b < ks.len() && a != b implies ks[a] != ks[b] by {
                assert(ks[a] == v[a].0);
                assert(ks[b] == v[b].0);
            }
        }
        assert forall|k: K| self.index@.dom().contains(k) <==> ks.to_set().contains(k) by {
            if self.index@.contains_key(k) {
                let i = self.index@[k];
                let j = choose|j: int| 0 <= j < self.order@.len() && self.order@[j] == i;
                assert(ks[j] == k);
            }
            if ks.to_set().contains(k) {
                let j = choose|j: int| 0 <= j < ks.len() && ks[j] == k;
                assert(pair_at(self.slots@, self.order@[j]).0 == k);
            }
        }
        assert(self.index@.dom() =~= ks.to_set());
        ks.unique_seq_to_set();
    }
}

impl<K, V, S> LinkedHashMap<K, V, S> {
    /// Unsplices the slot at position `p` of the order list, through its own links.
    #[verifier::spinoff_prover]
    #[verifier::rlimit(40)]
    fn detach(&mut self, i: usize, Ghost(p): Ghost<int>)
        requires
            old(self).list_ok(),
            old(self).free_ok(),
            old(self).slots@.len() < GUARD,
            0 <= p < old(self).order@.len(),
            old(self).order@[p] == i,
        ensures
            final(self).free_ok(),
            final(self).order@ == old(self).order@.remove(p),
            !final(self).order@.contains(i),
            !final(self).free_list@.contains(i),
            final(self).slots@[i as int] is Occupied,
            i < final(self).slots@.len(),
            final(self).list_ok(),
            final(self).slots@.len() == old(self).slots@.len(),
            forall|x: int|
                0 <= x < old(self).slots@.len() ==> payload(#[trigger] final(self).slots@[x])
                    == payload(old(self).slots@[x]),
            forall|x: int|
                0 <= x < old(self).slots@.len() && !old(self).order@.contains(x as usize)
                    ==> #[trigger] final(self).slots@[x] == old(self).slots@[x],
            final(self).index == old(self).index,
            final(self).free == old(self).free,
            final(self).free_list == old(self).free_list,
    {
        proof {
            reveal(LinkedHashMap::list_ok);
            reveal(LinkedHashMap::free_ok);
        }
        let ghost order = self.order@;
        let ghost n = order.len();
        let (prev, next) = match &self.slots[i] {
            Slot::Occupied { prev, next, .. } => (*prev, *next),
            Slot::Free { .. } => (GUARD, GUARD),
        };
        assert(prev == prev_in(order, p));
        assert(next == next_in(order, p));
        if prev == GUARD {
            self.head = next;
        } else {
            set_next(&mut self.slots, prev, next);
        }
        if next == GUARD {
            self.tail = prev;
        } else {
            set_prev(&mut self.slots, next, prev);
        }
        self.order = Ghost(order.remove(p));
        proof {
            lemma_removed_absent(order, p);
            order.remove_ensures(p);
            let no = self.order@;
            let slots = self.slots@;
            let os = old(self).slots@;
            assert(forall|x: int|
                0 <= x < os.len() && x != prev && x != next ==> slots[x] == os[x]);
            assert(p > 0 ==> slots[prev as int] == with_next(os[prev as int], next));
            assert(p + 1 < n ==> slots[next as int] == with_prev(os[next as int], prev));
            assert forall|j: int| 0 <= j < no.len() implies {
                &&& (#[trigger] no[j]) < slots.len()
                &&& slots[no[j] as int] matches Slot::Occupied { prev, next, .. }
                &&& prev == prev_in(no, j)
                &&& next == next_in(no, j)
            } by {
                let oj = if j < p { j } else { j + 1 };
                assert(no[j] == order[oj]);
                if j < p - 1 {
                    assert(order[oj] != order[p - 1]);
                    assert(order[oj] != order[p + 1] || p + 1 >= n);
                } else if j == p - 1 {
                    assert(p + 1 >= n || order[oj] != order[p + 1]);
                } else if j == p {
                } else {
                    assert(order[oj] != order[p - 1] || p == 0);
                    assert(order[oj] != order[p + 1]);
                }
            }
            assert forall|x: int|
                0 <= x < slots.len() && !order.contains(x as usize) implies #[trigger] slots[x]
                == old(self).slots@[x] by {
                if p > 0 {
                    assert(order.contains(order[p - 1]));
                }
                if p + 1 < n {
                    assert(order.contains(order[p + 1]));
                }
            }
            assert forall|a: int, b: int|
                0 <= a < no.len() && 0 <= b < no.len() && a != b implies no[a] != no[b] by {
                let oa = if a < p { a } else { a + 1 };
                let ob = if b < p { b } else { b + 1 };
                assert(no[a] == order[oa]);
                assert(no[b] == order[ob]);
            }
            if no.len() > 0 {
                assert(no.last() == order.last() || p == n - 1);
            }
            let fl = self.free_list@;
            assert forall|j: int| 0 <= j < fl.len() implies !order.contains(#[trigger] fl[j]) by {
                if order.contains(fl[j]) {
                    let q = choose|q: int| 0 <= q < n && order[q] == fl[j];
                    assert(os[fl[j] as int] is Occupied);
                }
            }
        }
    }

    /// Splices the unlinked live slot `i` in at the newest end.
    fn attach_back(&mut self, i: usize)
        requires
            old(self).list_ok(),
            old(self).slots@.len() < GUARD,
            i < old(self).slots@.len(),
            old(self).slots@[i as int] is Occupied,
            !old(self).order@.contains(i),
            old(self).free_ok(),
            !old(self).free_list@.contains(i),
        ensures
            final(self).free_ok(),
            final(self).order@ == old(self).order@.push(i),
            final(self).list_ok(),
            final(self).slots@.len() == old(self).slots@.len(),
            forall|x: int|
                0 <= x < old(self).slots@.len() ==> payload(#[trigger] final(self).slots@[x])
                    == payload(old(self).slots@[x]),
            forall|x: int|
                0 <= x < old(self).slots@.len() && x != i && !old(self).order@.contains(x as usize)
                    ==> #[trigger] final(self).slots@[x] == old(self).slots@[x],
            final(self).index == old(self).index,
            final(self).free == old(self).free,
            final(self).free_list == old(self).free_list,
    {
        proof {
            reveal(LinkedHashMap::list_ok);
            reveal(LinkedHashMap::free_ok);
            reveal(LinkedHashMap::index_ok);
        }
        let ghost order = self.order@;
        let ghost n = order.len();
        let t = self.tail;
        set_prev(&mut self.slots, i, t);
        set_next(&mut self.slots, i, GUARD);
        if t == GUARD {
            self.head = i;
        } else {
            set_next(&mut self.slots, t, i);
        }
        self.tail = i;
        self.order = Ghost(order.push(i));
        proof {
            let no = self.order@;
            let slots = self.slots@;
            assert forall|j: int| 0 <= j < no.len() implies {
                &&& (#[trigger] no[j]) < slots.len()
                &&& slots[no[j] as int] matches Slot::Occupied { prev, next, .. }
                &&& prev == prev_in(no, j)
                &&& next == next_in(no, j)
            } by {
                if j < n {
                    assert(no[j] == order[j]);
                    assert(order[j] != i) by {
                        assert(order.contains(order[j]));
                    }
                    if j < n - 1 {
                        assert(order[j] != order[n - 1]);
                    }
                }
            }
            assert forall|x: int|
                0 <= x < slots.len() && x != i && !order.contains(x as usize) implies #[trigger] slots[x]
                == old(self).slots@[x] by {
                if n > 0 {
                    assert(order.contains(order[n - 1]));
                }
            }
            let fl = self.free_list@;
            assert forall|j: int| 0 <= j < fl.len() implies !order.contains(#[trigger] fl[j]) && fl[j] != i by {
                if order.contains(fl[j]) {
                    let q = choose|q: int| 0 <= q < n && order[q] == fl[j];
                    assert(old(self).slots@[fl[j] as int] is Occupied);
                }
            }
            assert forall|a: int, b: int|
                0 <= a < no.len() && 0 <= b < no.len() && a != b implies no[a] != no[b] by {
                if a < n {
                    assert(order.contains(order[a]));
                }
                if b < n {
                    assert(order.contains(order[b]));
                }
            }
        }
    }

    /// Splices the unlinked live slot `i` in at the oldest end.
    fn attach_front(&mut self, i: usize)
        requires
            old(self).list_ok(),
            old(self).slots@.len() < GUARD,
            i < old(self).slots@.len(),
            old(self).slots@[i as int] is Occupied,
            !old(self).order@.contains(i),
            old(self).free_ok(),
            !old(self).free_list@.contains(i),
        ensures
            final(self).free_ok(),
            final(self).order@ == seq![i] + old(self).order@,
            final(self).list_ok(),
            final(self).slots@.len() == old(self).slots@.len(),
            forall|x: int|
                0 <= x < old(self).slots@.len() ==> payload(#[trigger] final(self).slots@[x])
                    == payload(old(self).slots@[x]),
            forall|x: int|
                0 <= x < old(self).slots@.len() && x != i && !old(self).order@.contains(x as usize)
                    ==> #[trigger] final(self).slots@[x] == old(self).slots@[x],
            final(self).index == old(self).index,
            final(self).free == old(self).free,
            final(self).free_list == old(self).free_list,
    {
        proof {
            reveal(LinkedHashMap::list_ok);
            reveal(LinkedHashMap::free_ok);
            reveal(LinkedHashMap::index_ok);
        }
        let ghost order = self.order@;
        let ghost n = order.len();
        let h = self.head;
        set_prev(&mut self.slots, i, GUARD);
        set_next(&mut self.slots, i, h);
        if h == GUARD {
            self.tail = i;
        } else {
            set_prev(&mut self.slots, h, i);
        }
        self.head = i;
        self.order = Ghost(seq![i] + order);
        proof {
            let no = self.order@;
            let slots = self.slots@;
            assert forall|j: int| 0 <= j < no.len() implies {
                &&& (#[trigger] no[j]) < slots.len()
                &&& slots[no[j] as int] matches Slot::Occupied { prev, next, .. }
                &&& prev == prev_in(no, j)
                &&& next == next_in(no, j)
            } by {
                if j > 0 {
                    assert(no[j] == order[j - 1]);
                    assert(order[j - 1] != i) by {
                        assert(order.contains(order[j - 1]));
                    }
                    if j > 1 {
                        assert(order[j - 1] != order[0]);
                    }
                }
            }
            assert forall|x: int|
                0 <= x < slots.len() && x != i && !order.contains(x as usize) implies #[trigger] slots[x]
                == old(self).slots@[x] by {
                if n > 0 {
                    assert(order.contains(order[0]));
                }
            }
            let fl = self.free_list@;
            assert forall|j: int| 0 <= j < fl.len() implies !order.contains(#[trigger] fl[j]) && fl[j] != i by {
                if order.contains(fl[j]) {
                    let q = choose|q: int| 0 <= q < n && order[q] == fl[j];
                    assert(old(self).slots@[fl[j] as int] is Occupied);
                }
            }
            assert forall|a: int, b: int|
                0 <= a < no.len() && 0 <= b < no.len() && a != b implies no[a] != no[b] by {
                if a > 0 {
                    assert(order.contains(order[a - 1]));
                }
                if b > 0 {
                    assert(order.contains(order[b - 1]));
                }
            }
            if n > 0 {
                assert(no.last() == order.last());
            }
        }
    }
}

impl<K, V, S> LinkedHashMap<K, V, S> {
    /// Stores `(key, value)` in an unlinked slot: the first free slot when there is
    /// one, else a new slot at the end of the arena.
    fn allocate(&mut self, key: K, value: V) -> (i: usize)
        requires
            old(self).list_ok(),
            old(self).free_ok(),
            old(self).slots@.len() < GUARD,
            old(self).free_list@.len() == 0 ==> old(self).slots@.len() + 1 < GUARD,
        ensures
            i < final(self).slots@.len(),
            !final(self).free_list@.contains(i),
            !final(self).order@.contains(i),
            payload(final(self).slots@[i as int]) == Some((key, value)),
            final(self).slots@[i as int] is Occupied,
            old(self).free_list@.len() == 0 ==> {
                &&& i == old(self).slots@.len()
                &&& final(self).slots@.len() == old(self).slots@.len() + 1
                &&& final(self).free_list@ == old(self).free_list@
            },
            old(self).free_list@.len() > 0 ==> {
                &&& i == old(self).free_list@[0]
                &&& final(self).slots@.len() == old(self).slots@.len()
                &&& final(self).free_list@ == old(self).free_list@.drop_first()
            },
            forall|x: int|
                0 <= x < old(self).slots@.len() && x != i ==> #[trigger] final(self).slots@[x]
                    == old(self).slots@[x],
            final(self).list_ok(),
            final(self).free_ok(),
            final(self).order == old(self).order,
            final(self).index == old(self).index,
    {
        proof {
            reveal(LinkedHashMap::list_ok);
            reveal(LinkedHashMap::free_ok);
            reveal(LinkedHashMap::index_ok);
        }
        let ghost order = self.order@;
        let ghost fl = self.free_list@;
        if self.free == GUARD {
            let i = self.slots.len();
            self.slots.push(Slot::Occupied { key, value, prev: GUARD, next: GUARD });
            proof {
                assert forall|j: int| 0 <= j < order.len() implies order[j] != i by {}
                assert(!order.contains(i));
            }
            i
        } else {
            let i = self.free;
            let nx = match &self.slots[i] {
                Slot::Free { next } => *next,
                Slot::Occupied { .. } => GUARD,
            };
            proof {
                assert(fl.len() > 0);
                assert(fl[0] == i);
            }
            self.slots.set(i, Slot::Occupied { key, value, prev: GUARD, next: GUARD });
            self.free = nx;
            self.free_list = Ghost(fl.drop_first());
            proof {
                assert forall|j: int| 0 <= j < order.len() implies order[j] != i by {
                    assert(old(self).slots@[order[j] as int] is Occupied);
                }
                assert(!order.contains(i));
                let nf = self.free_list@;
                assert forall|j: int| 0 <= j < nf.len() implies (#[trigger] nf[j]) != i by {
                    assert(nf[j] == fl[j + 1]);
                }
            }
            i
        }
    }

    /// Takes the pair out of the unlinked live slot `i` and pushes the slot onto
    /// the free list.
    fn release(&mut self, i: usize) -> (r: (K, V))
        requires
            old(self).list_ok(),
            old(self).free_ok(),
            i < old(self).slots@.len(),
            old(self).slots@[i as int] is Occupied,
            !old(self).order@.contains(i),
        ensures
            Some(r) == payload(old(self).slots@[i as int]),
            final(self).slots@ == old(self).slots@.update(
                i as int,
                Slot::Free { next: old(self).free },
            ),
            final(self).free_list@ == seq![i] + old(self).free_list@,
            final(self).list_ok(),
            final(self).free_ok(),
            final(self).order == old(self).order,
            final(self).index == old(self).index,
    {
        proof {
            reveal(LinkedHashMap::list_ok);
            reveal(LinkedHashMap::free_ok);
            reveal(LinkedHashMap::index_ok);
        }
        let ghost order = self.order@;
        let ghost fl = self.free_list@;
        let mut taken = Slot::Free { next: self.free };
        std::mem::swap(&mut self.slots[i], &mut taken);
        self.free = i;
        self.free_list = Ghost(seq![i] + fl);
        proof {
            assert forall|j: int| 0 <= j < order.len() implies (#[trigger] order[j]) != i by {
                assert(order.contains(order[j]));
            }
            assert forall|j: int| 0 <= j < fl.len() implies (#[trigger] fl[j]) != i by {}
            let nf = self.free_list@;
            assert forall|j: int| 0 <= j < nf.len() && j > 0 implies nf[j] == fl[j - 1] by {}
        }
        match taken {
            Slot::Occupied { key, value, .. } => (key, value),
            Slot::Free { .. } => vstd::pervasive::unreached(),
        }
    }
}

impl<K, V, S> LinkedHashMap<K, V, S> {
    /// The arena holds the live slots and the free ones, nothing else: removing
    /// entries never shrinks it, and an insertion reuses a free slot before it
    /// grows the arena.
    pub proof fn lemma_storage(&self)
        requires
            self.wf(),
        ensures
            self.storage() == self@.len() + self.free_slots().len(),
    {
    }

    /// A key is in the map exactly when the hash index holds it.
    proof fn lemma_has_key_indexed(&self, k: K)
        requires
            self.wf(),
        ensures
            has_key(self@, k) <==> self.index@.contains_key(k),
    {
        self.lemma_index_keys();
        if has_key(self@, k) {
            let j = choose|j: int| 0 <= j < self@.len() && (#[trigger] self@[j]).0 == k;
            assert(keys_of(self@)[j] == k);
            assert(keys_of(self@).to_set().contains(k));
        }
        if self.index@.contains_key(k) {
            assert(keys_of(self@).to_set().contains(k));
            let j = choose|j: int| 0 <= j < keys_of(self@).len() && keys_of(self@)[j] == k;
            assert(self@[j].0 == k);
        }
    }

    /// Where the two ends of the order list point.
    proof fn lemma_ends(&self)
        requires
            self.wf(),
        ensures
            self.order@.len() == self@.len(),
            self@.len() == 0 ==> self.head == GUARD && self.tail == GUARD,
            self@.len() > 0 ==> {
                &&& self.head == self.order@[0]
                &&& self.tail == self.order@.last()
                &&& self.head < self.slots@.len()
                &&& self.tail < self.slots@.len()
                &&& self.slots@[self.head as int] is Occupied
                &&& self.slots@[self.tail as int] is Occupied
            },
    {
        reveal(LinkedHashMap::list_ok);
        if self@.len() > 0 {
            assert(self.order@[0] < self.slots@.len());
            assert(self.order@[self.order@.len() - 1] < self.slots@.len());
        }
    }

    /// The slot at position `j` of the order list: live, holding `self@[j]`, and
    /// linked to its neighbours.
    proof fn lemma_link_at(&self, j: int)
        requires
            self.wf(),
            0 <= j < self@.len(),
        ensures
            self.order@.len() == self@.len(),
            self.order@[j] < self.slots@.len(),
            self.slots@[self.order@[j] as int] matches Slot::Occupied { key, value, prev, next } && prev
                == prev_in(self.order@, j) && next == next_in(self.order@, j) && (key, value)
                == self@[j],
            j + 1 < self@.len() ==> self.order@[j + 1] < self.slots@.len(),
            j > 0 ==> self.order@[j - 1] < self.slots@.len(),
    {
        reveal(LinkedHashMap::list_ok);
        if j + 1 < self@.len() {
            assert(self.order@[j + 1] < self.slots@.len());
        }
        if j > 0 {
            assert(self.order@[j - 1] < self.slots@.len());
        }
    }

    /// The position in the order list of the slot that the index maps `k` to.
    proof fn lemma_slot_pos(&self, k: K) -> (p: int)
        requires
            self.wf(),
            self.index@.contains_key(k),
        ensures
            0 <= p < self.order@.len(),
            self.order@[p] == self.index@[k],
            self@[p] == pair_at(self.slots@, self.index@[k]),
            self@[p].0 == k,
            key_pos(self@, k) == p,
            has_key(self@, k),
            self.index@[k] < self.slots@.len(),
            self.slots@[self.index@[k] as int] is Occupied,
    {
        reveal(LinkedHashMap::index_ok);
        reveal(LinkedHashMap::list_ok);
        self.lemma_index_keys();
        let i = self.index@[k];
        let p = choose|p: int| 0 <= p < self.order@.len() && self.order@[p] == i;
        assert(self@[p].0 == k);
        let q = key_pos(self@, k);
        p
    }

    /// Moves the entry at position `p` of the order list to the newest end.
    fn relink_back(&mut self, i: usize, Ghost(p): Ghost<int>)
        requires
            old(self).wf(),
            0 <= p < old(self).order@.len(),
            old(self).order@[p] == i,
        ensures
            final(self).wf(),
            final(self)@ == old(self)@.remove(p).push(old(self)@[p]),
            final(self).order@ == old(self).order@.remove(p).push(i),
            final(self).storage() == old(self).storage(),
            final(self).free_slots() == old(self).free_slots(),
            final(self).indexed_keys() == old(self).indexed_keys(),
    {
        let ghost order = self.order@;
        self.detach(i, Ghost(p));
        self.attach_back(i);
        proof {
            let no = order.remove(p).push(i);
            lemma_moved_back(order, p);
            self.lemma_relinked(old(self), no);
            let nv = self@;
            let ov = old(self)@;
            order.remove_ensures(p);
            assert(nv =~= ov.remove(p).push(ov[p]));
        }
    }

    /// Moves the entry at position `p` of the order list to the oldest end.
    fn relink_front(&mut self, i: usize, Ghost(p): Ghost<int>)
        requires
            old(self).wf(),
            0 <= p < old(self).order@.len(),
            old(self).order@[p] == i,
        ensures
            final(self).wf(),
            final(self)@ == seq![old(self)@[p]] + old(self)@.remove(p),
            final(self).order@ == seq![i] + old(self).order@.remove(p),
            final(self).storage() == old(self).storage(),
            final(self).free_slots() == old(self).free_slots(),
            final(self).indexed_keys() == old(self).indexed_keys(),
    {
        let ghost order = self.order@;
        self.detach(i, Ghost(p));
        self.attach_front(i);
        proof {
            let no = seq![i] + order.remove(p);
            lemma_moved_front(order, p);
            self.lemma_relinked(old(self), no);
            let nv = self@;
            let ov = old(self)@;
            order.remove_ensures(p);
            assert(nv =~= seq![ov[p]] + ov.remove(p));
        }
    }

    /// After the order list was permuted and no pair changed, the map is still
    /// well formed, and each position shows the pair of its slot.
    proof fn lemma_relinked(&self, before: &Self, order: Seq<usize>)
        requires
            before.wf(),
            self.list_ok(),
            self.order@ == order,
            order.len() == before.order@.len(),
            forall|x: usize| order.contains(x) <==> before.order@.contains(x),
            self.slots@.len() == before.slots@.len(),
            forall|x: int|
                0 <= x < before.slots@.len() ==> payload(#[trigger] self.slots@[x])
                    == payload(before.slots@[x]),
            forall|x: int|
                0 <= x < before.slots@.len() && !before.order@.contains(x as usize)
                    ==> #[trigger] self.slots@[x] == before.slots@[x],
            self.index == before.index,
            self.free == before.free,
            self.free_list == before.free_list,
        ensures
            self.wf(),
            forall|j: int|
                0 <= j < order.len() ==> #[trigger] self@[j] == pair_at(before.slots@, order[j]),
    {
        reveal(LinkedHashMap::list_ok);
        reveal(LinkedHashMap::free_ok);
        reveal(LinkedHashMap::index_ok);
        let fl = self.free_list@;
        assert forall|j: int| 0 <= j < fl.len() implies self.slots@[#[trigger] fl[j] as int]
            == before.slots@[fl[j] as int] by {
            if before.order@.contains(fl[j]) {
                let q = choose|q: int| 0 <= q < before.order@.len() && before.order@[q] == fl[j];
                assert(before.slots@[fl[j] as int] is Occupied);
            }
        }
        assert(self.free_ok());
        assert forall|x: usize| 0 <= x < before.slots@.len() implies pair_at(self.slots@, x)
            == pair_at(before.slots@, x) by {
            assert(payload(self.slots@[x as int]) == payload(before.slots@[x as int]));
        }
        assert forall|j: int| 0 <= j < order.len() implies {
            let k = (#[trigger] pair_at(self.slots@, order[j])).0;
            self.index@.contains_key(k) && self.index@[k] == order[j]
        } by {
            assert(order.contains(order[j]));
            let q = choose|q: int| 0 <= q < before.order@.len() && before.order@[q] == order[j];
            assert(pair_at(before.slots@, before.order@[q]) == pair_at(self.slots@, order[j]));
        }
        assert forall|k: K| #[trigger] self.index@.contains_key(k) implies order.contains(
            self.index@[k],
        ) && pair_at(self.slots@, self.index@[k]).0 == k by {
            let q = choose|q: int|
                0 <= q < before.order@.len() && before.order@[q] == before.index@[k];
        }
        assert(self.index_ok());
    }
}

impl<K, V, S> LinkedHashMap<K, V, S> {
    /// Stores `v` in the live slot at position `p` and hands back the value it held.
    fn replace_value(&mut self, i: usize, v: V, Ghost(p): Ghost<int>) -> (r: V)
        requires
            old(self).wf(),
            0 <= p < old(self).order@.len(),
            old(self).order@[p] == i,
        ensures
            final(self).wf(),
            final(self)@ == old(self)@.update(p, (old(self)@[p].0, v)),
            final(self).order == old(self).order,
            r == old(self)@[p].1,
            final(self).storage() == old(self).storage(),
            final(self).free_slots() == old(self).free_slots(),
            final(self).indexed_keys() == old(self).indexed_keys(),
    {
        proof {
            reveal(LinkedHashMap::list_ok);
        }
        let ghost order = self.order@;
        let ghost os = self.slots@;
        assert(i < self.slots.len());
        let ghost v0 = v;
        let mut v = v;
        match &mut self.slots[i] {
            Slot::Occupied { value, .. } => {
                std::mem::swap(value, &mut v);
            },
            Slot::Free { .. } => {},
        }
        proof {
            let ns = self.slots@;
            assert(forall|x: int| 0 <= x < os.len() && x != i ==> ns[x] == os[x]);
            assert(pair_at(ns, i) == (pair_at(os, i).0, v0)) by {
                assert(os[i as int] is Occupied);
            }
            self.lemma_value_changed(old(self), i, p);
        }
        v
    }

    /// Any state that differs from `self` only in the value of the live slot at
    /// position `p` is well formed and shows that value at `p`.
    proof fn lemma_value_changed_any(&self, i: usize, p: int)
        requires
            self.wf(),
            0 <= p < self.order@.len(),
            self.order@[p] == i,
        ensures
            forall|m: Self|
                #![trigger m.wf()]
                m.slots@.len() == self.slots@.len() && m.slots@[i as int] is Occupied && pair_at(
                    m.slots@,
                    i,
                ).0 == pair_at(self.slots@, i).0 && (forall|x: int|
                    0 <= x < self.slots@.len() && x != i ==> m.slots@[x] == self.slots@[x]) && match (
                    m.slots@[i as int],
                    self.slots@[i as int],
                ) {
                    (
                        Slot::Occupied { prev: p1, next: n1, .. },
                        Slot::Occupied { prev: p2, next: n2, .. },
                    ) => p1 == p2 && n1 == n2,
                    _ => false,
                } && m.index == self.index && m.head == self.head && m.tail == self.tail && m.free
                    == self.free && m.free_list == self.free_list && m.order == self.order ==> m.wf()
                    && m@ == self@.update(p, (self@[p].0, pair_at(m.slots@, i).1)),
    {
        reveal(LinkedHashMap::list_ok);
        assert(self.slots@[i as int] is Occupied);
        assert(i < self.slots@.len());
        assert forall|m: Self|
            #![trigger m.wf()]
            m.slots@.len() == self.slots@.len() && m.slots@[i as int] is Occupied && pair_at(
                m.slots@,
                i,
            ).0 == pair_at(self.slots@, i).0 && (forall|x: int|
                0 <= x < self.slots@.len() && x != i ==> m.slots@[x] == self.slots@[x]) && match (
                m.slots@[i as int],
                self.slots@[i as int],
            ) {
                (
                    Slot::Occupied { prev: p1, next: n1, .. },
                    Slot::Occupied { prev: p2, next: n2, .. },
                ) => p1 == p2 && n1 == n2,
                _ => false,
            } && m.index == self.index && m.head == self.head && m.tail == self.tail && m.free
                == self.free && m.free_list == self.free_list && m.order == self.order implies m.wf()
                && m@ == self@.update(p, (self@[p].0, pair_at(m.slots@, i).1)) by {
            m.lemma_value_changed(self, i, p);
        }
    }

    proof fn lemma_value_changed(&self, before: &Self, i: usize, p: int)
        requires
            before.wf(),
            0 <= p < before.order@.len(),
            before.order@[p] == i,
            i < before.slots@.len(),
            self.order == before.order,
            self.slots@.len() == before.slots@.len(),
            self.slots@[i as int] is Occupied,
            before.slots@[i as int] is Occupied,
            pair_at(self.slots@, i).0 == pair_at(before.slots@, i).0,
            forall|x: int| 0 <= x < before.slots@.len() && x != i ==> self.slots@[x] == before.slots@[x],
            match (self.slots@[i as int], before.slots@[i as int]) {
                (Slot::Occupied { prev: p1, next: n1, .. }, Slot::Occupied { prev: p2, next: n2, .. }) => p1 == p2 && n1 == n2,
                _ => false,
            },
            self.index == before.index,
            self.head == before.head,
            self.tail == before.tail,
            self.free == before.free,
            self.free_list == before.free_list,
        ensures
            self.wf(),
            self@ == before@.update(p, (before@[p].0, pair_at(self.slots@, i).1)),
    {
        reveal(LinkedHashMap::list_ok);
        reveal(LinkedHashMap::free_ok);
        reveal(LinkedHashMap::index_ok);
        let order = self.order@;
        assert forall|j: int| 0 <= j < order.len() && j != p implies order[j] != i by {}
        assert forall|j: int| 0 <= j < self.free_list@.len() implies self.free_list@[j] != i by {
            assert(before.slots@[self.free_list@[j] as int] is Free);
        }
        assert(self.list_ok());
        assert(self.free_ok());
        assert forall|x: usize| 0 <= x < self.slots@.len() implies pair_at(self.slots@, x).0 == pair_at(before.slots@, x).0 by {}
        assert(self.index_ok());
        assert(self@ =~= before@.update(p, (before@[p].0, pair_at(self.slots@, i).1)));
    }
}

impl<K: Eq + Hash, V, S: BuildHasher> LinkedHashMap<K, V, S> {
    /// Unlinks the entry at position `p`, recycles its slot, drops its index
    /// record, and hands back its pair.
    fn unlink(&mut self, i: usize, Ghost(p): Ghost<int>) -> (r: (K, V))
        requires
            old(self).wf(),
            0 <= p < old(self).order@.len(),
            old(self).order@[p] == i,
        ensures
            final(self).wf(),
            final(self)@ == old(self)@.remove(p),
            r == old(self)@[p],
            final(self).storage() == old(self).storage(),
            final(self).free_slots() == seq![i] + old(self).free_slots(),
            final(self).indexed_keys() == old(self).indexed_keys().remove(r.0),
    {
        let ghost order = self.order@;
        let ghost before = *self;
        self.detach(i, Ghost(p));
        let ghost mid = *self;
        let r = self.release(i);
        proof {
            assert(payload(mid.slots@[i as int]) == payload(before.slots@[i as int]));
            assert(r == pair_at(before.slots@, i));
        }
        let ghost rel = *self;
        let _ = self.index.remove(&r.0);
        proof {
            self.lemma_same_links(&rel);
            assert(self.index@ == before.index@.remove(pair_at(before.slots@, i).0));
            assert(self.free_list@ == seq![i] + mid.free_list@);
            assert(self.slots@ == mid.slots@.update(i as int, Slot::Free { next: mid.free }));
            self.lemma_unlinked(&before, &mid, i, p);
        }
        r
    }

    proof fn lemma_same_links(&self, other: &Self)
        requires
            other.list_ok(),
            other.free_ok(),
            self.slots@ == other.slots@,
            self.order == other.order,
            self.free_list == other.free_list,
            self.head == other.head,
            self.tail == other.tail,
            self.free == other.free,
        ensures
            self.list_ok(),
            self.free_ok(),
    {
        reveal(LinkedHashMap::list_ok);
        reveal(LinkedHashMap::free_ok);
    }

    proof fn lemma_unlinked(&self, before: &Self, mid: &Self, i: usize, p: int)
        requires
            before.wf(),
            0 <= p < before.order@.len(),
            before.order@[p] == i,
            mid.order@ == before.order@.remove(p),
            !mid.order@.contains(i),
            mid.slots@[i as int] is Occupied,
            i < mid.slots@.len(),
            mid.list_ok(),
            mid.slots@.len() == before.slots@.len(),
            forall|x: int|
                0 <= x < before.slots@.len() ==> payload(#[trigger] mid.slots@[x])
                    == payload(before.slots@[x]),
            forall|x: int|
                0 <= x < before.slots@.len() && !before.order@.contains(x as usize)
                    ==> #[trigger] mid.slots@[x] == before.slots@[x],
            mid.index == before.index,
            mid.free == before.free,
            mid.free_list == before.free_list,
            self.slots@ == mid.slots@.update(i as int, Slot::Free { next: mid.free }),
            self.free_list@ == seq![i] + mid.free_list@,
            self.list_ok(),
            self.free_ok(),
            self.order == mid.order,
            self.index@ == before.index@.remove(pair_at(before.slots@, i).0),
        ensures
            self.wf(),
            self@ == before@.remove(p),
            pair_at(before.slots@, i) == before@[p],
            self.storage() == before.storage(),
            self.free_slots() == seq![i] + before.free_slots(),
            self.indexed_keys() == before.indexed_keys().remove(pair_at(before.slots@, i).0),
    {
        reveal(LinkedHashMap::index_ok);
        reveal(LinkedHashMap::list_ok);
        before.lemma_index_keys();
        let order = self.order@;
        let bo = before.order@;
        let k = pair_at(before.slots@, i).0;
        bo.remove_ensures(p);
        assert forall|x: usize| x < self.slots@.len() && x != i implies pair_at(self.slots@, x)
            == pair_at(before.slots@, x) by {
            assert(payload(mid.slots@[x as int]) == payload(before.slots@[x as int]));
        }
        assert forall|j: int| 0 <= j < order.len() implies {
            let kj = (#[trigger] pair_at(self.slots@, order[j])).0;
            self.index@.contains_key(kj) && self.index@[kj] == order[j]
        } by {
            let oj = if j < p { j } else { j + 1 };
            assert(order[j] == bo[oj]);
            assert(bo[oj] != i);
            assert(before@[oj].0 != before@[p].0);
        }
        assert forall|kk: K| #[trigger] self.index@.contains_key(kk) implies order.contains(
            self.index@[kk],
        ) && pair_at(self.slots@, self.index@[kk]).0 == kk by {
            let x = before.index@[kk];
            let q = choose|q: int| 0 <= q < bo.len() && bo[q] == x;
            assert(q != p);
            if q < p {
                assert(order[q] == x);
            } else {
                assert(order[q - 1] == x);
            }
        }
        assert(self.index_ok());
        assert(self@ =~= before@.remove(p));
        assert(self.indexed_keys() =~= before.indexed_keys().remove(k));
    }
}

/// Relies on `Clone::clone` of the key type. For a key type that obeys vstd's
/// hash-table key model, the clone is identical to the original.
#[verifier::external_body]
fn clone_key<K: Clone>(k: &K) -> (r: K)
    ensures
        obeys_key_model::<K>() ==> r == *k,
{
    k.clone()
}

impl<K: Eq + Hash + Clone, V, S: BuildHasher> LinkedHashMap<K, V, S> {
    /// Appends a pair whose key the map does not hold, reusing a free slot first.
    fn push_new(&mut self, k: K, v: V) -> (i: usize)
        requires
            old(self).wf(),
            !has_key(old(self)@, k),
            old(self)@.len() + 1 < GUARD,
        ensures
            final(self).wf(),
            final(self).order@ == old(self).order@.push(i),
            final(self)@ == old(self)@.push((k, v)),
            old(self).free_slots().len() == 0 ==> final(self).storage() == old(self).storage() + 1
                && final(self).free_slots() == old(self).free_slots(),
            old(self).free_slots().len() > 0 ==> final(self).storage() == old(self).storage()
                && final(self).free_slots() == old(self).free_slots().drop_first(),
            final(self).indexed_keys() == old(self).indexed_keys().insert(k),
    {
        let ghost before = *self;
        proof {
            self.lemma_index_keys();
            if self.index@.contains_key(k) {
                assert(keys_of(self@).to_set().contains(k));
                let j = choose|j: int| 0 <= j < keys_of(self@).len() && keys_of(self@)[j] == k;
                assert(self@[j].0 == k);
            }
        }
        let kc = clone_key(&k);
        let i = self.allocate(kc, v);
        let ghost mid = *self;
        self.attach_back(i);
        let ghost rel = *self;
        self.index.insert(k, i);
        proof {
            self.lemma_same_links(&rel);
            self.lemma_pushed(&before, &mid, i, k, v);
        }
        i
    }

    proof fn lemma_pushed(&self, before: &Self, mid: &Self, i: usize, k: K, v: V)
        requires
            before.wf(),
            !before.index@.contains_key(k),
            i < mid.slots@.len(),
            payload(mid.slots@[i as int]) == Some((k, v)),
            mid.order == before.order,
            mid.slots@.len() == before.slots@.len() || (mid.slots@.len() == before.slots@.len() + 1
                && i == before.slots@.len()),
            forall|x: int|
                0 <= x < before.slots@.len() && x != i ==> #[trigger] mid.slots@[x]
                    == before.slots@[x],
            mid.index == before.index,
            mid.slots@.len() < GUARD,
            mid.order@.len() + mid.free_list@.len() + 1 == mid.slots@.len(),
            self.order@ == mid.order@.push(i),
            !mid.order@.contains(i),
            self.slots@.len() == mid.slots@.len(),
            forall|x: int|
                0 <= x < mid.slots@.len() ==> payload(#[trigger] self.slots@[x])
                    == payload(mid.slots@[x]),
            self.free_list == mid.free_list,
            self.list_ok(),
            self.free_ok(),
            self.index@ == before.index@.insert(k, i),
        ensures
            self.wf(),
            self@ == before@.push((k, v)),
            self.indexed_keys() == before.indexed_keys().insert(k),
    {
        reveal(LinkedHashMap::index_ok);
        reveal(LinkedHashMap::list_ok);
        let order = self.order@;
        let bo = before.order@;
        assert forall|x: usize| x < self.slots@.len() && x != i implies pair_at(self.slots@, x)
            == pair_at(before.slots@, x) by {
            assert(payload(self.slots@[x as int]) == payload(mid.slots@[x as int]));
        }
        assert(pair_at(self.slots@, i) == (k, v)) by {
            assert(payload(self.slots@[i as int]) == payload(mid.slots@[i as int]));
        }
        assert forall|j: int| 0 <= j < bo.len() implies bo[j] != i by {
            assert(mid.order@.contains(bo[j]));
        }
        assert forall|j: int| 0 <= j < order.len() implies {
            let kj = (#[trigger] pair_at(self.slots@, order[j])).0;
            self.index@.contains_key(kj) && self.index@[kj] == order[j]
        } by {
            if j < bo.len() {
                assert(order[j] == bo[j]);
                assert(before.index@.contains_key(pair_at(before.slots@, bo[j]).0));
            }
        }
        assert forall|kk: K| #[trigger] self.index@.contains_key(kk) implies order.contains(
            self.index@[kk],
        ) && pair_at(self.slots@, self.index@[kk]).0 == kk by {
            if kk == k {
                assert(order[order.len() - 1] == i);
            } else {
                let x = before.index@[kk];
                let q = choose|q: int| 0 <= q < bo.len() && bo[q] == x;
                assert(order[q] == x);
            }
        }
        assert(self.index_ok());
        assert(self@ =~= before@.push((k, v)));
        assert(self.indexed_keys() =~= before.indexed_keys().insert(k));
    }

    /// Inserts `(k, v)`. A key that is already present gets the new value and
    /// moves to the newest end, and its previous value is returned; a new key is
    /// appended at the newest end.
    pub fn insert(&mut self, k: K, v: V) -> (r: Option<V>)
        requires
            old(self).wf(),
            old(self)@.len() + 1 < GUARD,
        ensures
            final(self).wf(),
            final(self)@ == model_insert(old(self)@, k, v),
            r == (if has_key(old(self)@, k) {
                Some(value_of(old(self)@, k))
            } else {
                None
            }),
            final(self).storage() == (if old(self).storage() < final(self)@.len() {
                final(self)@.len() as nat
            } else {
                old(self).storage()
            }),
    {
        let found = match self.index.get(&k) {
            Some(i) => Some(*i),
            None => None,
        };
        proof {
            self.lemma_index_keys();
            self.lemma_storage();
        }
        match found {
            Some(i) => {
                assert(self.index@.contains_key(k) && self.index@[k] == i);
                let ghost p = self.lemma_slot_pos(k);
                self.relink_back(i, Ghost(p));
                let old_v = self.replace_value(i, v, Ghost(self.order@.len() - 1));
                Some(old_v)
            },
            None => {
                proof {
                    if has_key(self@, k) {
                        let j = choose|j: int| 0 <= j < self@.len() && (#[trigger] self@[j]).0 == k;
                        assert(keys_of(self@)[j] == k);
                        assert(keys_of(self@).to_set().contains(k));
                    }
                }
                let _ = self.push_new(k, v);
                proof {
                    self.lemma_storage();
                }
                None
            },
        }
    }
}

impl<K: Eq + Hash, V, S: BuildHasher> LinkedHashMap<K, V, S> {
    /// The value stored under `k`, without changing the order.
    pub fn get(&self, k: &K) -> (r: Option<&V>)
        requires
            self.wf(),
        ensures
            match r {
                Some(v) => has_key(self@, *k) && *v == value_of(self@, *k),
                None => !has_key(self@, *k),
            },
    {
        proof {
            self.lemma_has_key_indexed(*k);
        }
        match self.index.get(k) {
            Some(i) => {
                let i = *i;
                proof {
                    let p = self.lemma_slot_pos(*k);
                }
                match &self.slots[i] {
                    Slot::Occupied { value, .. } => Some(value),
                    Slot::Free { .. } => None,
                }
            },
            None => None,
        }
    }

    /// Whether the map holds `k`.
    pub fn contains_key(&self, k: &K) -> (r: bool)
        requires
            self.wf(),
        ensures
            r == has_key(self@, *k),
    {
        proof {
            self.lemma_has_key_indexed(*k);
        }
        self.index.contains_key(k)
    }

    /// Removes the entry of `k` and returns its key and value.
    pub fn remove_entry(&mut self, k: &K) -> (r: Option<(K, V)>)
        requires
            old(self).wf(),
        ensures
            final(self).wf(),
            final(self)@ == model_remove(old(self)@, *k),
            r == (if has_key(old(self)@, *k) {
                Some(old(self)@[key_pos(old(self)@, *k)])
            } else {
                None
            }),
            final(self).storage() == old(self).storage(),
    {
        proof {
            self.lemma_has_key_indexed(*k);
        }
        let found = match self.index.get(k) {
            Some(i) => Some(*i),
            None => None,
        };
        match found {
            Some(i) => {
                let ghost p = self.lemma_slot_pos(*k);
                Some(self.unlink(i, Ghost(p)))
            },
            None => None,
        }
    }

    /// Removes the entry of `k` and returns its value.
    pub fn remove(&mut self, k: &K) -> (r: Option<V>)
        requires
            old(self).wf(),
        ensures
            final(self).wf(),
            final(self)@ == model_remove(old(self)@, *k),
            r == (if has_key(old(self)@, *k) {
                Some(value_of(old(self)@, *k))
            } else {
                None
            }),
            final(self).storage() == old(self).storage(),
    {
        match self.remove_entry(k) {
            Some(e) => Some(e.1),
            None => None,
        }
    }

    /// Removes the oldest entry and returns it.
    pub fn pop_front(&mut self) -> (r: Option<(K, V)>)
        requires
            old(self).wf(),
        ensures
            final(self).wf(),
            old(self)@.len() == 0 ==> r is None && final(self)@ == old(self)@,
            old(self)@.len() > 0 ==> r == Some(old(self)@[0]) && final(self)@
                == old(self)@.drop_first(),
            final(self).storage() == old(self).storage(),
    {
        proof {
            self.lemma_ends();
        }
        if self.head == GUARD {
            None
        } else {
            let h = self.head;
            let r = self.unlink(h, Ghost(0));
            proof {
                assert(old(self)@.remove(0) =~= old(self)@.drop_first());
            }
            Some(r)
        }
    }

    /// Removes the newest entry and returns it.
    pub fn pop_back(&mut self) -> (r: Option<(K, V)>)
        requires
            old(self).wf(),
        ensures
            final(self).wf(),
            old(self)@.len() == 0 ==> r is None && final(self)@ == old(self)@,
            old(self)@.len() > 0 ==> r == Some(old(self)@.last()) && final(self)@
                == old(self)@.drop_last(),
            final(self).storage() == old(self).storage(),
    {
        proof {
            self.lemma_ends();
        }
        if self.tail == GUARD {
            None
        } else {
            let t = self.tail;
            let ghost last = self.order@.len() - 1;
            let r = self.unlink(t, Ghost(last));
            proof {
                assert(old(self)@.remove(last) =~= old(self)@.drop_last());
            }
            Some(r)
        }
    }

    /// Moves the entry of `k`, if any, to the newest end; tells whether there was one.
    pub fn to_back(&mut self, k: &K) -> (r: bool)
        requires
            old(self).wf(),
        ensures
            final(self).wf(),
            r == has_key(old(self)@, *k),
            final(self)@ == model_to_back(old(self)@, *k),
            final(self).storage() == old(self).storage(),
    {
        proof {
            self.lemma_has_key_indexed(*k);
        }
        let found = match self.index.get(k) {
            Some(i) => Some(*i),
            None => None,
        };
        match found {
            Some(i) => {
                let ghost p = self.lemma_slot_pos(*k);
                self.relink_back(i, Ghost(p));
                true
            },
            None => false,
        }
    }

    /// Moves the entry of `k`, if any, to the oldest end; tells whether there was one.
    pub fn to_front(&mut self, k: &K) -> (r: bool)
        requires
            old(self).wf(),
        ensures
            final(self).wf(),
            r == has_key(old(self)@, *k),
            final(self)@ == model_to_front(old(self)@, *k),
            final(self).storage() == old(self).storage(),
    {
        proof {
            self.lemma_has_key_indexed(*k);
        }
        let found = match self.index.get(k) {
            Some(i) => Some(*i),
            None => None,
        };
        match found {
            Some(i) => {
                let ghost p = self.lemma_slot_pos(*k);
                self.relink_front(i, Ghost(p));
                true
            },
            None => false,
        }
    }

    /// A mutable reference to the value stored under `k`, without changing the order.
    pub fn get_mut(&mut self, k: &K) -> (r: Option<&mut V>)
        requires
            old(self).wf(),
        ensures
            r is Some == has_key(old(self)@, *k),
            r matches Some(v) ==> *v == value_of(old(self)@, *k),
            r matches Some(v) ==> final(self).wf(),
            r matches Some(v) ==> final(self)@ == old(self)@.update(key_pos(old(self)@, *k), (*k, *final(v))),
            final(self).storage() == old(self).storage(),
            r is None ==> *final(self) == *old(self),
    {
        proof {
            self.lemma_has_key_indexed(*k);
        }
        let found = match self.index.get(k) {
            Some(i) => Some(*i),
            None => None,
        };
        match found {
            Some(i) => {
                let ghost p = self.lemma_slot_pos(*k);
                proof {
                    self.lemma_value_changed_any(i, p);
                }
                Some(value_mut(&mut self.slots, i))
            },
            None => None,
        }
    }

    /// The entries, oldest first.
    pub fn iter(&self) -> (r: Vec<(&K, &V)>)
        requires
            self.wf(),
        ensures
            r@.len() == self@.len(),
            forall|j: int| 0 <= j < self@.len() ==> (*r@[j].0, *r@[j].1) == #[trigger] self@[j],
    {
        proof {
            self.lemma_ends();
        }
        let mut out: Vec<(&K, &V)> = Vec::new();
        let mut cur = self.head;
        let ghost mut j: int = 0;
        while cur != GUARD
            invariant
                self.wf(),
                0 <= j <= self@.len(),
                self.order@.len() == self@.len(),
                cur == (if j < self@.len() {
                    self.order@[j]
                } else {
                    GUARD
                }),
                out@.len() == j,
                forall|t: int| 0 <= t < j ==> (*out@[t].0, *out@[t].1) == #[trigger] self@[t],
            decreases self@.len() - j,
        {
            proof {
                self.lemma_link_at(j);
            }
            match &self.slots[cur] {
                Slot::Occupied { key, value, next, .. } => {
                    out.push((key, value));
                    cur = *next;
                },
                Slot::Free { .. } => {},
            }
            proof {
                j = j + 1;
            }
        }
        proof {
            if j < self@.len() {
                self.lemma_link_at(j);
            }
        }
        out
    }

    /// The entries, newest first.
    pub fn iter_rev(&self) -> (r: Vec<(&K, &V)>)
        requires
            self.wf(),
        ensures
            r@.len() == self@.len(),
            forall|j: int|
                0 <= j < self@.len() ==> (*r@[j].0, *r@[j].1) == #[trigger] self@[self@.len() - 1 - j],
    {
        proof {
            self.lemma_ends();
        }
        let mut out: Vec<(&K, &V)> = Vec::new();
        let mut cur = self.tail;
        let ghost mut j: int = 0;
        let ghost n = self@.len();
        while cur != GUARD
            invariant
                self.wf(),
                n == self@.len(),
                0 <= j <= n,
                self.order@.len() == n,
                cur == (if j < n {
                    self.order@[n - 1 - j]
                } else {
                    GUARD
                }),
                out@.len() == j,
                forall|t: int| 0 <= t < j ==> (*out@[t].0, *out@[t].1) == #[trigger] self@[n - 1 - t],
            decreases n - j,
        {
            proof {
                self.lemma_link_at(n - 1 - j);
            }
            match &self.slots[cur] {
                Slot::Occupied { key, value, prev, .. } => {
                    out.push((key, value));
                    cur = *prev;
                },
                Slot::Free { .. } => {},
            }
            proof {
                j = j + 1;
            }
        }
        proof {
            if j < n {
                self.lemma_link_at(n - 1 - j);
            }
        }
        out
    }

    /// Takes every entry out, oldest first, and leaves the map empty.
    pub fn drain(&mut self) -> (r: Vec<(K, V)>)
        requires
            old(self).wf(),
        ensures
            final(self).wf(),
            r@ == old(self)@,
            final(self)@.len() == 0,
            final(self).storage() == old(self).storage(),
    {
        let mut out: Vec<(K, V)> = Vec::new();
        while self.len() > 0
            invariant
                self.wf(),
                out@ + self@ == old(self)@,
                self.storage() == old(self).storage(),
            decreases self@.len(),
        {
            let ghost before = self@;
            match self.pop_front() {
                Some(e) => {
                    out.push(e);
                    proof {
                        assert(out@ + self@ =~= old(self)@) by {
                            assert(before =~= seq![e] + self@);
                        }
                    }
                },
                None => {},
            }
        }
        proof {
            assert(out@ =~= old(self)@);
        }
        out
    }

    /// Takes the map apart into its entries, oldest first.
    pub fn into_pairs(self) -> (r: Vec<(K, V)>)
        requires
            self.wf(),
        ensures
            r@ == self@,
    {
        let mut m = self;
        m.drain()
    }

    /// The number of slots the arena has allocated, live or free.
    pub fn allocated_slots(&self) -> (r: usize)
        ensures
            r == self.storage(),
    {
        self.slots.len()
    }

    /// Makes room for at least `additional` more entries without reallocating.
    pub fn reserve(&mut self, additional: usize)
        requires
            old(self).wf(),
        ensures
            final(self).wf(),
            final(self)@ == old(self)@,
            final(self).storage() == old(self).storage(),
    {
        let ghost before = *self;
        self.slots.reserve(additional);
        self.index.reserve(additional);
        proof {
            self.lemma_same_links(&before);
            reveal(LinkedHashMap::index_ok);
            assert(self.index_ok());
        }
    }

    /// Whether the map is empty.
    pub fn is_empty(&self) -> (r: bool)
        requires
            self.wf(),
        ensures
            r == (self@.len() == 0),
    {
        self.len() == 0
    }

    /// Removes every entry and releases the arena.
    pub fn clear(&mut self)
        requires
            old(self).wf(),
        ensures
            final(self).wf(),
            final(self)@.len() == 0,
            final(self).storage() == 0,
    {
        self.slots.clear();
        self.index.clear();
        self.head = GUARD;
        self.tail = GUARD;
        self.free = GUARD;
        self.order = Ghost(Seq::empty());
        self.free_list = Ghost(Seq::empty());
        proof {
            reveal(LinkedHashMap::list_ok);
            reveal(LinkedHashMap::free_ok);
            reveal(LinkedHashMap::index_ok);
        }
    }

    /// The oldest entry.
    pub fn front(&self) -> (r: Option<(&K, &V)>)
        requires
            self.wf(),
        ensures
            self@.len() == 0 ==> r is None,
            self@.len() > 0 ==> (r matches Some(e) && (*e.0, *e.1) == self@[0]),
    {
        proof {
            self.lemma_ends();
        }
        if self.head == GUARD {
            None
        } else {
            match &self.slots[self.head] {
                Slot::Occupied { key, value, .. } => Some((key, value)),
                Slot::Free { .. } => None,
            }
        }
    }

    /// The newest entry.
    pub fn back(&self) -> (r: Option<(&K, &V)>)
        requires
            self.wf(),
        ensures
            self@.len() == 0 ==> r is None,
            self@.len() > 0 ==> (r matches Some(e) && (*e.0, *e.1) == self@.last()),
    {
        proof {
            self.lemma_ends();
        }
        if self.tail == GUARD {
            None
        } else {
            match &self.slots[self.tail] {
                Slot::Occupied { key, value, .. } => Some((key, value)),
                Slot::Free { .. } => None,
            }
        }
    }
}

/// Relies on `HashMap::with_hasher`: the map it builds is empty.
#[verifier::external_body]
fn empty_index<K, S>(hash_builder: S) -> (r: HashMap<K, usize, S>)
    ensures
        r@.is_empty(),
{
    HashMap::with_hasher(hash_builder)
}

impl<K: Eq + Hash + Clone, V, S: BuildHasher> LinkedHashMap<K, V, S> {
    /// An empty map that hashes with `hash_builder`.
    pub fn with_hasher(hash_builder: S) -> (r: Self)
        requires
            obeys_key_model::<K>(),
            builds_valid_hashers::<S>(),
        ensures
            r.wf(),
            r@ == Seq::<(K, V)>::empty(),
            r.storage() == 0,
    {
        proof {
            reveal(LinkedHashMap::list_ok);
            reveal(LinkedHashMap::free_ok);
            reveal(LinkedHashMap::index_ok);
        }
        LinkedHashMap {
            slots: Vec::new(),
            index: empty_index(hash_builder),
            head: GUARD,
            tail: GUARD,
            free: GUARD,
            order: Ghost(Seq::empty()),
            free_list: Ghost(Seq::empty()),
        }
    }
}

impl<K: Eq + Hash + Clone, V> LinkedHashMap<K, V> {
    /// An empty map with the default hasher and room for `capacity` entries.
    pub fn with_capacity(capacity: usize) -> (r: Self)
        requires
            obeys_key_model::<K>(),
        ensures
            r.wf(),
            r@ == Seq::<(K, V)>::empty(),
            r.storage() == 0,
    {
        proof {
            reveal(LinkedHashMap::list_ok);
            reveal(LinkedHashMap::free_ok);
            reveal(LinkedHashMap::index_ok);
        }
        LinkedHashMap {
            slots: Vec::with_capacity(capacity),
            index: HashMap::with_capacity(capacity),
            head: GUARD,
            tail: GUARD,
            free: GUARD,
            order: Ghost(Seq::empty()),
            free_list: Ghost(Seq::empty()),
        }
    }

    /// A map built by inserting `pairs` in order; a later pair with a key seen
    /// before replaces it and takes the newest place.
    pub fn from_pairs(pairs: Vec<(K, V)>) -> (r: Self)
        requires
            obeys_key_model::<K>(),
            pairs@.len() < GUARD,
        ensures
            r.wf(),
            r@ == model_from_pairs(pairs@),
    {
        let ghost ps = pairs@;
        let mut m = LinkedHashMap::new();
        for e in it: pairs.into_iter()
            invariant
                m.wf(),
                it.seq() == ps,
                ps.len() < GUARD,
                m@ == model_from_pairs(ps.subrange(0, it.index() as int)),
                m@.len() <= it.index(),
        {
            proof {
                assert(ps.subrange(0, it.index() + 1).drop_last() =~= ps.subrange(0, it.index() as int));
            }
            m.insert(e.0, e.1);
        }
        proof {
            assert(ps.subrange(0, ps.len() as int) =~= ps);
        }
        m
    }

    /// An empty map with the default hasher.
    pub fn new() -> (r: Self)
        requires
            obeys_key_model::<K>(),
        ensures
            r.wf(),
            r@ == Seq::<(K, V)>::empty(),
            r.storage() == 0,
    {
        proof {
            reveal(LinkedHashMap::list_ok);
            reveal(LinkedHashMap::free_ok);
            reveal(LinkedHashMap::index_ok);
        }
        broadcast use vstd::std_specs::hash::group_hash_axioms;
        LinkedHashMap {
            slots: Vec::new(),
            index: HashMap::new(),
            head: GUARD,
            tail: GUARD,
            free: GUARD,
            order: Ghost(Seq::empty()),
            free_list: Ghost(Seq::empty()),
        }
    }
}

impl<K: Eq + Hash, V, S: BuildHasher> LinkedHashMap<K, V, S> {
    /// The number of entries.
    pub fn len(&self) -> (r: usize)
        requires
            self.wf(),
        ensures
            r == self@.len(),
    {
        proof {
            self.lemma_len_is_index_len();
        }
        self.index.len()
    }

    proof fn lemma_len_is_index_len(&self)
        requires
            self.wf(),
        ensures
            self.index@.len() == self.order@.len(),
    {
        self.lemma_index_keys();
        keys_of(self@).unique_seq_to_set();
    }
}

/// A view into one entry of a map, found by [`LinkedHashMap::entry`]: occupied
/// when the key is present, vacant when it is not.
#[verifier::reject_recursive_types(K)]
#[verifier::reject_recursive_types(S)]
pub enum Entry<'a, K, V, S> {
    Occupied(OccupiedEntry<'a, K, V, S>),
    Vacant(VacantEntry<'a, K, V, S>),
}

/// A live entry of `map`, held by its slot, so that reading, replacing, moving
/// and removing it need no second lookup.
#[verifier::reject_recursive_types(K)]
#[verifier::reject_recursive_types(S)]
pub struct OccupiedEntry<'a, K, V, S> {
    pub map: &'a mut LinkedHashMap<K, V, S>,
    pub slot: usize,
}

/// The place for a key that `map` does not hold.
#[verifier::reject_recursive_types(K)]
#[verifier::reject_recursive_types(S)]
pub struct VacantEntry<'a, K, V, S> {
    pub map: &'a mut LinkedHashMap<K, V, S>,
    pub key: K,
}

impl<K, V, S> LinkedHashMap<K, V, S> {
    /// The position of a live slot is the one place of the order that holds it.
    proof fn lemma_slot_pos_unique(&self, i: usize, p: int)
        requires
            self.wf(),
            0 <= p < self.order@.len(),
            self.order@[p] == i,
        ensures
            self.holds_slot(i),
            self.slot_pos(i) == p,
    {
        reveal(LinkedHashMap::list_ok);
        assert(self.order@.contains(i));
        let q = self.slot_pos(i);
    }
}

impl<'a, K, V, S> OccupiedEntry<'a, K, V, S> {
    /// The entry's map is well formed and still holds its slot.
    pub open spec fn valid(&self) -> bool {
        self.map.wf() && self.map.holds_slot(self.slot)
    }

    /// The entry's position in the map's order.
    pub open spec fn pos(&self) -> int {
        self.map.slot_pos(self.slot)
    }

    /// The entries of the entry's map, oldest first.
    pub open spec fn entries(&self) -> Seq<(K, V)> {
        self.map@
    }

    closed spec fn order(&self) -> Seq<usize> {
        self.map.order@
    }
}

impl<'a, K, V, S> VacantEntry<'a, K, V, S> {
    /// The entries of the entry's map, oldest first.
    pub open spec fn entries(&self) -> Seq<(K, V)> {
        self.map@
    }

    /// The entry's map is well formed, lacks the key, and has room for one more.
    pub open spec fn valid(&self) -> bool {
        self.map.wf() && !has_key(self.map@, self.key) && self.map@.len() + 1 < GUARD
    }
}

impl<K: Eq + Hash, V, S: BuildHasher> LinkedHashMap<K, V, S> {
    /// Looks `key` up once and returns the entry for it.
    pub fn entry(&mut self, key: K) -> (r: Entry<'_, K, V, S>)
        requires
            old(self).wf(),
            old(self)@.len() + 1 < GUARD,
        ensures
            match r {
                Entry::Occupied(o) => {
                    &&& has_key(old(self)@, key)
                    &&& o.valid()
                    &&& *o.map == *old(self)
                    &&& o.pos() == key_pos(old(self)@, key)
                    &&& *final(o.map) == *final(self)
                },
                Entry::Vacant(e) => {
                    &&& !has_key(old(self)@, key)
                    &&& e.valid()
                    &&& *e.map == *old(self)
                    &&& e.key == key
                    &&& *final(e.map) == *final(self)
                },
            },
    {
        proof {
            self.lemma_has_key_indexed(key);
        }
        let found = match self.index.get(&key) {
            Some(i) => Some(*i),
            None => None,
        };
        match found {
            Some(i) => {
                proof {
                    let p = self.lemma_slot_pos(key);
                    self.lemma_slot_pos_unique(i, p);
                }
                Entry::Occupied(OccupiedEntry { map: self, slot: i })
            },
            None => Entry::Vacant(VacantEntry { map: self, key }),
        }
    }
}

impl<'a, K: Eq + Hash, V, S: BuildHasher> OccupiedEntry<'a, K, V, S> {
    proof fn lemma_pos(&self) -> (p: int)
        requires
            self.valid(),
        ensures
            p == self.pos(),
            0 <= p < self.order().len(),
            self.order()[p] == self.slot,
            self.order().len() == self.entries().len(),
    {
        reveal(LinkedHashMap::list_ok);
        let p = choose|p: int|
            0 <= p < self.map.order@.len() && self.map.order@[p] == self.slot;
        self.map.lemma_slot_pos_unique(self.slot, p);
        p
    }

    /// The entry's key.
    pub fn key(&self) -> (r: &K)
        requires
            self.valid(),
        ensures
            *r == self.entries()[self.pos()].0,
    {
        let ghost p = self.lemma_pos();
        proof {
            self.map.lemma_link_at(p);
        }
        match &self.map.slots[self.slot] {
            Slot::Occupied { key, .. } => key,
            Slot::Free { .. } => vstd::pervasive::unreached(),
        }
    }

    /// The entry's value.
    pub fn get(&self) -> (r: &V)
        requires
            self.valid(),
        ensures
            *r == self.entries()[self.pos()].1,
    {
        let ghost p = self.lemma_pos();
        proof {
            self.map.lemma_link_at(p);
        }
        match &self.map.slots[self.slot] {
            Slot::Occupied { value, .. } => value,
            Slot::Free { .. } => vstd::pervasive::unreached(),
        }
    }

    /// Turns the entry into a mutable reference to its value, which lives as long
    /// as the map's borrow.
    pub fn into_mut(self) -> (r: &'a mut V)
        requires
            self.valid(),
        ensures
            *r == self.entries()[self.pos()].1,
            final(self.map).wf(),
            final(self.map)@ == self.entries().update(self.pos(), (self.entries()[self.pos()].0, *final(r))),
    {
        let ghost p = self.lemma_pos();
        proof {
            self.map.lemma_link_at(p);
            self.map.lemma_value_changed_any(self.slot, p);
        }
        let map = self.map;
        value_mut(&mut map.slots, self.slot)
    }

    /// Stores `v` as the entry's value and returns the value it held.
    pub fn insert(&mut self, v: V) -> (r: V)
        requires
            old(self).valid(),
        ensures
            final(self).valid(),
            final(self).slot == old(self).slot,
            final(self).pos() == old(self).pos(),
            final(self).map@ == old(self).map@.update(old(self).pos(), (old(self).map@[old(self).pos()].0, v)),
            r == old(self).map@[old(self).pos()].1,
            *final(final(self).map) == *final(old(self).map),
    {
        let ghost p = self.lemma_pos();
        let r = self.map.replace_value(self.slot, v, Ghost(p));
        proof {
            self.map.lemma_slot_pos_unique(self.slot, p);
        }
        r
    }

    /// Moves the entry to the newest end.
    pub fn to_back(&mut self)
        requires
            old(self).valid(),
        ensures
            final(self).valid(),
            final(self).slot == old(self).slot,
            final(self).map@ == old(self).map@.remove(old(self).pos()).push(
                old(self).map@[old(self).pos()],
            ),
            final(self).pos() == old(self).map@.len() - 1,
            *final(final(self).map) == *final(old(self).map),
    {
        let ghost p = self.lemma_pos();
        self.map.relink_back(self.slot, Ghost(p));
        proof {
            self.map.lemma_slot_pos_unique(self.slot, self.map.order@.len() - 1);
        }
    }

    /// Moves the entry to the oldest end.
    pub fn to_front(&mut self)
        requires
            old(self).valid(),
        ensures
            final(self).valid(),
            final(self).slot == old(self).slot,
            final(self).map@ == seq![old(self).map@[old(self).pos()]] + old(self).map@.remove(
                old(self).pos(),
            ),
            final(self).pos() == 0,
            *final(final(self).map) == *final(old(self).map),
    {
        let ghost p = self.lemma_pos();
        self.map.relink_front(self.slot, Ghost(p));
        proof {
            self.map.lemma_slot_pos_unique(self.slot, 0);
        }
    }

    /// Removes the entry and returns its key and value.
    pub fn remove_entry(self) -> (r: (K, V))
        requires
            self.valid(),
        ensures
            r == self.entries()[self.pos()],
            final(self.map).wf(),
            final(self.map)@ == self.entries().remove(self.pos()),
    {
        let ghost p = self.lemma_pos();
        let map = self.map;
        map.unlink(self.slot, Ghost(p))
    }

    /// Removes the entry and returns its value.
    pub fn remove(self) -> (r: V)
        requires
            self.valid(),
        ensures
            r == self.entries()[self.pos()].1,
            final(self.map).wf(),
            final(self.map)@ == self.entries().remove(self.pos()),
    {
        self.remove_entry().1
    }
}

impl<'a, K: Eq + Hash + Clone, V, S: BuildHasher> VacantEntry<'a, K, V, S> {
    /// The key the entry was looked up with.
    pub fn key(&self) -> (r: &K)
        ensures
            *r == self.key,
    {
        &self.key
    }

    /// Inserts the key with `v` at the newest end and returns a mutable reference
    /// to the value, which lives as long as the map's borrow.
    pub fn insert(self, v: V) -> (r: &'a mut V)
        requires
            self.valid(),
        ensures
            *r == v,
            final(self.map).wf(),
            final(self.map)@ == self.entries().push((self.key, *final(r))),
    {
        let map = self.map;
        let i = map.push_new(self.key, v);
        let ghost last = map.order@.len() - 1;
        proof {
            map.lemma_link_at(last);
            map.lemma_value_changed_any(i, last);
        }
        value_mut(&mut map.slots, i)
    }
}

impl<'a, K: Eq + Hash + Clone, V, S: BuildHasher> Entry<'a, K, V, S> {
    /// The entry's key.
    pub fn key(&self) -> (r: &K)
        requires
            match self {
                Entry::Occupied(o) => o.valid(),
                Entry::Vacant(_) => true,
            },
        ensures
            match self {
                Entry::Occupied(o) => *r == o.entries()[o.pos()].0,
                Entry::Vacant(e) => *r == e.key,
            },
    {
        match self {
            Entry::Occupied(o) => o.key(),
            Entry::Vacant(e) => e.key(),
        }
    }

    /// The value of the entry, after inserting `default` into a vacant one.
    pub fn or_insert(self, default: V) -> (r: &'a mut V)
        requires
            match self {
                Entry::Occupied(o) => o.valid(),
                Entry::Vacant(e) => e.valid(),
            },
        ensures
            match self {
                Entry::Occupied(o) => {
                    &&& *r == o.entries()[o.pos()].1
                    &&& final(o.map).wf()
                    &&& final(o.map)@ == o.entries().update(o.pos(), (o.entries()[o.pos()].0, *final(r)))
                },
                Entry::Vacant(e) => {
                    &&& *r == default
                    &&& final(e.map).wf()
                    &&& final(e.map)@ == e.entries().push((e.key, *final(r)))
                },
            },
    {
        match self {
            Entry::Occupied(o) => o.into_mut(),
            Entry::Vacant(e) => e.insert(default),
        }
    }
}

/// A lookup into a map by a borrowed key, for reading.
#[verifier::reject_recursive_types(K)]
#[verifier::reject_recursive_types(S)]
pub struct RawEntryBuilder<'a, K, V, S> {
    pub map: &'a LinkedHashMap<K, V, S>,
}

/// A lookup into a map by a borrowed key, for changing it.
#[verifier::reject_recursive_types(K)]
#[verifier::reject_recursive_types(S)]
pub struct RawEntryBuilderMut<'a, K, V, S> {
    pub map: &'a mut LinkedHashMap<K, V, S>,
}

/// The result of a lookup by a borrowed key: the live entry, or the place for a
/// pair whose key the map does not hold.
#[verifier::reject_recursive_types(K)]
#[verifier::reject_recursive_types(S)]
pub enum RawEntryMut<'a, K, V, S> {
    Occupied(OccupiedEntry<'a, K, V, S>),
    Vacant(RawVacantEntryMut<'a, K, V, S>),
}

/// The place for a pair whose key a map does not hold, found by a borrowed key.
#[verifier::reject_recursive_types(K)]
#[verifier::reject_recursive_types(S)]
pub struct RawVacantEntryMut<'a, K, V, S> {
    pub map: &'a mut LinkedHashMap<K, V, S>,
}

impl<'a, K, V, S> RawVacantEntryMut<'a, K, V, S> {
    /// The entries of the entry's map, oldest first.
    pub open spec fn entries(&self) -> Seq<(K, V)> {
        self.map@
    }
}

impl<K: Eq + Hash, V, S: BuildHasher> LinkedHashMap<K, V, S> {
    /// Starts a read-only lookup by a borrowed key.
    pub fn raw_entry(&self) -> (r: RawEntryBuilder<'_, K, V, S>)
        ensures
            *r.map == *self,
    {
        RawEntryBuilder { map: self }
    }

    /// Starts a lookup by a borrowed key that may change the map.
    pub fn raw_entry_mut(&mut self) -> (r: RawEntryBuilderMut<'_, K, V, S>)
        ensures
            *r.map == *old(self),
            *final(r.map) == *final(self),
    {
        RawEntryBuilderMut { map: self }
    }
}

impl<'a, K: Eq + Hash, V, S: BuildHasher> RawEntryBuilder<'a, K, V, S> {
    /// The stored key and value of `k`.
    pub fn from_key(self, k: &K) -> (r: Option<(&'a K, &'a V)>)
        requires
            self.map.wf(),
        ensures
            match r {
                Some(e) => has_key(self.map@, *k) && (*e.0, *e.1) == self.map@[key_pos(self.map@, *k)],
                None => !has_key(self.map@, *k),
            },
    {
        let map = self.map;
        proof {
            map.lemma_has_key_indexed(*k);
        }
        match map.index.get(k) {
            Some(i) => {
                let i = *i;
                proof {
                    let p = map.lemma_slot_pos(*k);
                }
                match &map.slots[i] {
                    Slot::Occupied { key, value, .. } => Some((key, value)),
                    Slot::Free { .. } => None,
                }
            },
            None => None,
        }
    }
}

impl<'a, K: Eq + Hash, V, S: BuildHasher> RawEntryBuilderMut<'a, K, V, S> {
    /// Looks up `k` once and returns its live entry, or the place for it.
    pub fn from_key(self, k: &K) -> (r: RawEntryMut<'a, K, V, S>)
        requires
            self.map.wf(),
        ensures
            match r {
                RawEntryMut::Occupied(o) => {
                    &&& has_key(old(self.map)@, *k)
                    &&& o.valid()
                    &&& *o.map == *old(self.map)
                    &&& o.pos() == key_pos(old(self.map)@, *k)
                    &&& *final(o.map) == *final(self.map)
                },
                RawEntryMut::Vacant(e) => {
                    &&& !has_key(old(self.map)@, *k)
                    &&& e.map.wf()
                    &&& *e.map == *old(self.map)
                    &&& *final(e.map) == *final(self.map)
                },
            },
    {
        let map = self.map;
        proof {
            map.lemma_has_key_indexed(*k);
        }
        let found = match map.index.get(k) {
            Some(i) => Some(*i),
            None => None,
        };
        match found {
            Some(i) => {
                proof {
                    let p = map.lemma_slot_pos(*k);
                    map.lemma_slot_pos_unique(i, p);
                }
                RawEntryMut::Occupied(OccupiedEntry { map, slot: i })
            },
            None => RawEntryMut::Vacant(RawVacantEntryMut { map }),
        }
    }
}

impl<'a, K: Eq + Hash + Clone, V, S: BuildHasher> RawVacantEntryMut<'a, K, V, S> {
    /// Inserts `(k, v)` at the newest end and returns a mutable reference to the
    /// value, which lives as long as the map's borrow. `k` must be a key the map
    /// does not hold.
    pub fn insert(self, k: K, v: V) -> (r: &'a mut V)
        requires
            self.map.wf(),
            !has_key(self.entries(), k),
            self.entries().len() + 1 < GUARD,
        ensures
            *r == v,
            final(self.map).wf(),
            final(self.map)@ == self.entries().push((k, *final(r))),
    {
        VacantEntry { map: self.map, key: k }.insert(v)
    }
}

/// The slot that position `t` of a compacted arena of `n` live entries holds.
spec fn compact_slot<K, V>(pair: (K, V), t: int, n: int) -> Slot<K, V> {
    Slot::Occupied {
        key: pair.0,
        value: pair.1,
        prev: if t == 0 {
            GUARD
        } else {
            (t - 1) as usize
        },
        next: if t + 1 == n {
            GUARD
        } else {
            (t + 1) as usize
        },
    }
}

impl<K: Eq + Hash + Clone, V, S: BuildHasher> LinkedHashMap<K, V, S> {
    proof fn lemma_entries_indexed(&self)
        requires
            self.wf(),
        ensures
            self.order@.len() == self@.len(),
            forall|t: int| 0 <= t < self@.len() ==> #[trigger] self.order@[t] < self.slots@.len(),
            forall|t: int|
                0 <= t < self@.len() ==> self.index@.contains_key(#[trigger] self@[t].0)
                    && self.index@[self@[t].0] == self.order@[t],
    {
        reveal(LinkedHashMap::list_ok);
        reveal(LinkedHashMap::index_ok);
        assert forall|t: int| 0 <= t < self@.len() implies self.order@[t] < self.slots@.len()
            && self.index@.contains_key(#[trigger] self@[t].0) && self.index@[self@[t].0]
            == self.order@[t] by {
            assert(pair_at(self.slots@, self.order@[t]) == self@[t]);
        }
    }

    /// Releases every free slot: the live entries move, in order, to the front of
    /// a new arena that holds nothing else.
    pub fn shrink_to_fit(&mut self)
        requires
            old(self).wf(),
        ensures
            final(self).wf(),
            final(self)@ == old(self)@,
            final(self).storage() == old(self)@.len(),
    {
        let ghost before = *self;
        proof {
            before.lemma_ends();
            before.lemma_index_keys();
            before.lemma_storage();
            before.lemma_entries_indexed();
        }
        let n = self.len();
        let mut old_slots: Vec<Slot<K, V>> = Vec::new();
        std::mem::swap(&mut self.slots, &mut old_slots);
        let mut fresh: Vec<Slot<K, V>> = Vec::with_capacity(n);
        let mut cur = self.head;
        let mut j: usize = 0;
        while cur != GUARD
            invariant
                before.wf(),
                n == before@.len(),
                n <= before.slots@.len(),
                before.order@.len() == n,
                keys_unique(before@),
                forall|t: int| 0 <= t < n ==> #[trigger] before.order@[t] < before.slots@.len(),
                forall|t: int|
                    0 <= t < n ==> before.index@.contains_key(#[trigger] before@[t].0)
                        && before.index@[before@[t].0] == before.order@[t],
                0 <= j <= n,
                cur == (if j < n {
                    before.order@[j as int]
                } else {
                    GUARD
                }),
                old_slots@.len() == before.slots@.len(),
                forall|t: int|
                    j <= t < n ==> #[trigger] old_slots@[before.order@[t] as int]
                        == before.slots@[before.order@[t] as int],
                fresh@.len() == j,
                forall|t: int|
                    0 <= t < j ==> #[trigger] fresh@[t] == compact_slot(before@[t], t, n as int),
                self.index@.dom() == before.index@.dom(),
                forall|t: int| 0 <= t < j ==> self.index@[#[trigger] before@[t].0] == t,
                forall|t: int|
                    j <= t < n ==> self.index@[#[trigger] before@[t].0] == before.order@[t],
            decreases n - j,
        {
            proof {
                before.lemma_link_at(j as int);
            }
            let mut taken = Slot::Free { next: GUARD };
            std::mem::swap(&mut old_slots[cur], &mut taken);
            let ghost old_index = self.index@;
            match taken {
                Slot::Occupied { key, value, next, .. } => {
                    let k2 = clone_key(&key);
                    let prev = if j == 0 {
                        GUARD
                    } else {
                        j - 1
                    };
                    let nx = if j + 1 == n {
                        GUARD
                    } else {
                        j + 1
                    };
                    fresh.push(Slot::Occupied { key, value, prev, next: nx });
                    self.index.insert(k2, j);
                    cur = next;
                },
                Slot::Free { .. } => {},
            }
            proof {
                let kj = before@[j as int].0;
                assert(self.index@ == old_index.insert(kj, j));
                assert forall|t: int| 0 <= t < n && t != j implies before@[t].0 != kj by {}
                assert forall|t: int|
                    j + 1 <= t < n implies #[trigger] old_slots@[before.order@[t] as int]
                    == before.slots@[before.order@[t] as int] by {
                    before.lemma_link_at(t);
                    reveal(LinkedHashMap::list_ok);
                    assert(before.order@[t] != before.order@[j as int]);
                }
                assert(self.index@.dom() =~= before.index@.dom());
            }
            j = j + 1;
        }
        proof {
            if j < n {
                before.lemma_link_at(j as int);
            }
        }
        self.slots = fresh;
        self.head = if n == 0 {
            GUARD
        } else {
            0
        };
        self.tail = if n == 0 {
            GUARD
        } else {
            n - 1
        };
        self.free = GUARD;
        self.order = Ghost(Seq::new(n as nat, |t: int| t as usize));
        self.free_list = Ghost(Seq::empty());
        proof {
            self.lemma_compacted(&before);
        }
    }

    proof fn lemma_compacted(&self, before: &Self)
        requires
            before.wf(),
            keys_unique(before@),
            self.order@ == Seq::new(before@.len(), |t: int| t as usize),
            self.free_list@ == Seq::<usize>::empty(),
            self.free == GUARD,
            self.head == (if before@.len() == 0 {
                GUARD
            } else {
                0
            }),
            self.tail == (if before@.len() == 0 {
                GUARD
            } else {
                (before@.len() - 1) as usize
            }),
            self.slots@.len() == before@.len(),
            before@.len() <= before.slots@.len(),
            forall|t: int|
                0 <= t < before@.len() ==> #[trigger] self.slots@[t] == compact_slot(
                    before@[t],
                    t,
                    before@.len() as int,
                ),
            self.index@.dom() == before.index@.dom(),
            forall|t: int| 0 <= t < before@.len() ==> self.index@[#[trigger] before@[t].0] == t,
        ensures
            self.wf(),
            self@ == before@,
    {
        reveal(LinkedHashMap::list_ok);
        reveal(LinkedHashMap::free_ok);
        reveal(LinkedHashMap::index_ok);
        let n = before@.len();
        let order = self.order@;
        before.lemma_index_keys();
        assert forall|t: int| 0 <= t < n implies pair_at(self.slots@, #[trigger] order[t]) == before@[t] by {
            assert(order[t] == t as usize);
        }
        assert(self.list_ok()) by {
            assert forall|a: int, b: int|
                0 <= a < order.len() && 0 <= b < order.len() && a != b implies order[a] != order[b] by {}
            if n > 0 {
                assert(order.last() == (n - 1) as usize);
            }
        }
        assert(self.index_ok()) by {
            assert forall|k: K| #[trigger] self.index@.contains_key(k) implies order.contains(
                self.index@[k],
            ) && pair_at(self.slots@, self.index@[k]).0 == k by {
                assert(keys_of(before@).to_set().contains(k));
                let t = choose|t: int| 0 <= t < keys_of(before@).len() && keys_of(before@)[t] == k;
                assert(before@[t].0 == k);
                assert(order[t] == t as usize);
            }
            assert forall|t: int| 0 <= t < order.len() implies {
                let k = (#[trigger] pair_at(self.slots@, order[t])).0;
                self.index@.contains_key(k) && self.index@[k] == order[t]
            } by {
                assert(pair_at(self.slots@, order[t]) == before@[t]);
                assert(keys_of(before@)[t] == before@[t].0);
                assert(keys_of(before@).to_set().contains(before@[t].0));
            }
        }
        assert(self@ =~= before@);
    }
}

} // verus!
