//! The arena cell of the ordered map, and the link bookkeeping of the order list
//! threaded through the cells.
use vstd::prelude::*;

verus! {

/// The link value that stands for the guard: both ends of the order list, and the
/// end of the free list, point to it.
pub const GUARD: usize = usize::MAX;

/// One storage cell of the arena.
#[derive(Clone)]
pub enum Slot<K, V> {
    /// An unused cell on the free list; `next` is the following free cell.
    Free { next: usize },
    /// A live entry, linked into the order list.
    Occupied { key: K, value: V, prev: usize, next: usize },
}

/// What a slot holds: its pair when it is live.
pub open spec fn payload<K, V>(s: Slot<K, V>) -> Option<(K, V)> {
    match s {
        Slot::Occupied { key, value, .. } => Some((key, value)),
        Slot::Free { .. } => None,
    }
}

/// The pair stored in slot `i` of `slots`.
pub open spec fn pair_at<K, V>(slots: Seq<Slot<K, V>>, i: usize) -> (K, V) {
    payload(slots[i as int])->0
}

/// `s` with its link towards the newer end set to `n`.
pub open spec fn with_next<K, V>(s: Slot<K, V>, n: usize) -> Slot<K, V> {
    match s {
        Slot::Occupied { key, value, prev, .. } => Slot::Occupied { key, value, prev, next: n },
        Slot::Free { .. } => Slot::Free { next: n },
    }
}

/// `s` with its link towards the older end set to `n`.
pub open spec fn with_prev<K, V>(s: Slot<K, V>, n: usize) -> Slot<K, V> {
    match s {
        Slot::Occupied { key, value, next, .. } => Slot::Occupied { key, value, prev: n, next },
        Slot::Free { next } => Slot::Free { next },
    }
}

pub(crate) fn set_next<K, V>(slots: &mut Vec<Slot<K, V>>, x: usize, n: usize)
    requires
        x < old(slots)@.len(),
    ensures
        final(slots)@ == old(slots)@.update(x as int, with_next(old(slots)@[x as int], n)),
{
    match &mut slots[x] {
        Slot::Occupied { next, .. } => {
            *next = n;
        },
        Slot::Free { next } => {
            *next = n;
        },
    }
}

pub(crate) fn set_prev<K, V>(slots: &mut Vec<Slot<K, V>>, x: usize, n: usize)
    requires
        x < old(slots)@.len(),
    ensures
        final(slots)@ == old(slots)@.update(x as int, with_prev(old(slots)@[x as int], n)),
{
    match &mut slots[x] {
        Slot::Occupied { prev, .. } => {
            *prev = n;
        },
        Slot::Free { .. } => {},
    }
}

/// `s` holding the value `v`.
pub open spec fn with_value<K, V>(s: Slot<K, V>, v: V) -> Slot<K, V> {
    match s {
        Slot::Occupied { key, prev, next, .. } => Slot::Occupied { key, value: v, prev, next },
        Slot::Free { next } => Slot::Free { next },
    }
}

pub(crate) fn value_mut<K, V>(slots: &mut Vec<Slot<K, V>>, i: usize) -> (r: &mut V)
    requires
        i < old(slots)@.len(),
        old(slots)@[i as int] is Occupied,
    ensures
        *r == pair_at(old(slots)@, i).1,
        final(slots)@ == old(slots)@.update(i as int, with_value(old(slots)@[i as int], *final(r))),
{
    match &mut slots[i] {
        Slot::Occupied { value, .. } => value,
        Slot::Free { .. } => vstd::pervasive::unreached(),
    }
}

/// The link a slot at position `j` of `order` must carry towards the older end.
pub open spec fn prev_in(order: Seq<usize>, j: int) -> usize {
    if j == 0 {
        GUARD
    } else {
        order[j - 1]
    }
}

/// The link a slot at position `j` of `order` must carry towards the newer end.
pub open spec fn next_in(order: Seq<usize>, j: int) -> usize {
    if j + 1 == order.len() {
        GUARD
    } else {
        order[j + 1]
    }
}

pub open spec fn distinct(s: Seq<usize>) -> bool {
    forall|a: int, b: int| 0 <= a < s.len() && 0 <= b < s.len() && a != b ==> s[a] != s[b]
}

/// Removing the element at `p` of a sequence without duplicates leaves no copy of it.
pub(crate) proof fn lemma_removed_absent(order: Seq<usize>, p: int)
    requires
        distinct(order),
        0 <= p < order.len(),
    ensures
        !order.remove(p).contains(order[p]),
{
    order.remove_ensures(p);
    let r = order.remove(p);
    assert forall|j: int| 0 <= j < r.len() implies r[j] != order[p] by {
        if j >= p {
            assert(r[j] == order[j + 1]);
        }
    }
}

/// Moving an element to the end keeps the length and the elements.
pub(crate) proof fn lemma_moved_back(order: Seq<usize>, p: int)
    requires
        0 <= p < order.len(),
    ensures
        order.remove(p).push(order[p]).len() == order.len(),
        forall|x: usize| order.remove(p).push(order[p]).contains(x) <==> order.contains(x),
{
    order.remove_ensures(p);
    let no = order.remove(p).push(order[p]);
    assert forall|x: usize| no.contains(x) <==> order.contains(x) by {
        if order.contains(x) {
            let q = choose|q: int| 0 <= q < order.len() && order[q] == x;
            if q < p {
                assert(no[q] == x);
            } else if q > p {
                assert(no[q - 1] == x);
            } else {
                assert(no[no.len() - 1] == x);
            }
        }
        if no.contains(x) {
            let q = choose|q: int| 0 <= q < no.len() && no[q] == x;
            if q < p {
                assert(order[q] == x);
            } else if q < no.len() - 1 {
                assert(order[q + 1] == x);
            }
        }
    }
}

/// Moving an element to the front keeps the length and the elements.
pub(crate) proof fn lemma_moved_front(order: Seq<usize>, p: int)
    requires
        0 <= p < order.len(),
    ensures
        (seq![order[p]] + order.remove(p)).len() == order.len(),
        forall|x: usize| (seq![order[p]] + order.remove(p)).contains(x) <==> order.contains(x),
{
    order.remove_ensures(p);
    let no = seq![order[p]] + order.remove(p);
    assert forall|x: usize| no.contains(x) <==> order.contains(x) by {
        if order.contains(x) {
            let q = choose|q: int| 0 <= q < order.len() && order[q] == x;
            if q < p {
                assert(no[q + 1] == x);
            } else if q > p {
                assert(no[q] == x);
            } else {
                assert(no[0] == x);
            }
        }
        if no.contains(x) {
            let q = choose|q: int| 0 <= q < no.len() && no[q] == x;
            if q == 0 {
            } else if q <= p {
                assert(order[q - 1] == x);
            } else {
                assert(order[q] == x);
            }
        }
    }
}

} // verus!
