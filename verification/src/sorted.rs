//! Stable sorting, and a map whose entries are kept in the order of their keys.
//!
//! Lockfiles, layouts and resolutions are written out in key order, and two
//! keys count as one where their ranks are equal: a key that is already there
//! stays as it is when its value is replaced.

use vstd::prelude::*;
use crate::order::{Order, Rank, Ranked};
use crate::order;

verus! {

// ---------------------------------------------------------------------------
// Sorting.

/// How many leading values do not come after `value`.
pub open spec fn place<T: Rank>(list: Seq<T>, value: T) -> nat
    decreases list.len(),
{
    if list.len() == 0 || order::precedes(value.rank(), list[0].rank()) {
        0
    } else {
        1 + place(list.skip(1), value)
    }
}

/// A sorted list with one more value, behind its equals.
pub open spec fn placed<T: Rank>(list: Seq<T>, value: T) -> Seq<T> {
    list.insert(place(list, value) as int, value)
}

/// The list in order; equals keep the order that they had.
pub open spec fn stable_sorted<T: Rank>(list: Seq<T>) -> Seq<T>
    decreases list.len(),
{
    if list.len() == 0 {
        Seq::empty()
    } else {
        placed(stable_sorted(list.drop_last()), list.last())
    }
}

/// No value comes before an earlier one.
pub open spec fn in_order<T: Rank>(list: Seq<T>) -> bool {
    forall|i: int, j: int|
        0 <= i < j < list.len() ==> !order::precedes(
            (#[trigger] list[j]).rank(),
            (#[trigger] list[i]).rank(),
        )
}

/// What `place` means.
pub proof fn lemma_place<T: Rank>(list: Seq<T>, value: T)
    ensures
        place(list, value) <= list.len(),
        forall|i: int|
            0 <= i < place(list, value) ==> !order::precedes(
                value.rank(),
                (#[trigger] list[i]).rank(),
            ),
        place(list, value) < list.len() ==> order::precedes(
            value.rank(),
            list[place(list, value) as int].rank(),
        ),
    decreases list.len(),
{
    if list.len() != 0 && !order::precedes(value.rank(), list[0].rank()) {
        lemma_place(list.skip(1), value);
        assert forall|i: int| 0 <= i < place(list, value) implies !order::precedes(
            value.rank(),
            (#[trigger] list[i]).rank(),
        ) by {
            if i > 0 {
                assert(list[i] == list.skip(1)[i - 1]);
            }
        }
    }
}

/// The position with the properties of `lemma_place` is the one.
pub proof fn lemma_place_is<T: Rank>(list: Seq<T>, value: T, at: int)
    requires
        0 <= at <= list.len(),
        forall|i: int|
            0 <= i < at ==> !order::precedes(value.rank(), (#[trigger] list[i]).rank()),
        at < list.len() ==> order::precedes(value.rank(), list[at].rank()),
    ensures
        place(list, value) == at,
{
    lemma_place(list, value);
    let found = place(list, value) as int;
    if found < at {
        assert(!order::precedes(value.rank(), list[found].rank()));
    } else if at < found {
        assert(!order::precedes(value.rank(), list[at].rank()));
    }
}

/// Placing keeps the order.
pub proof fn lemma_placed_in_order<T: Rank>(list: Seq<T>, value: T)
    requires
        in_order(list),
    ensures
        in_order(placed(list, value)),
{
    lemma_place(list, value);
    let at = place(list, value) as int;
    let next = placed(list, value);
    assert forall|i: int, j: int| 0 <= i < j < next.len() implies !order::precedes(
        (#[trigger] next[j]).rank(),
        (#[trigger] next[i]).rank(),
    ) by {
        if j == at {
            assert(next[i] == list[i]);
        } else if i == at {
            assert(next[j] == list[j - 1]);
            let (v, a, b) = (value.rank(), list[at].rank(), list[j - 1].rank());
            if order::precedes(b, v) {
                order::lemma_transitive(b, v, a);
                if j - 1 == at {
                    order::lemma_irreflexive(a);
                }
            }
        } else {
            let i0 = if i < at {
                i
            } else {
                i - 1
            };
            let j0 = if j < at {
                j
            } else {
                j - 1
            };
            assert(next[i] == list[i0]);
            assert(next[j] == list[j0]);
        }
    }
}

/// A sorted list is in order and has the same values, as often.
pub proof fn sorting_orders_and_keeps<T: Rank>(list: Seq<T>)
    ensures
        in_order(stable_sorted(list)),
        stable_sorted(list).len() == list.len(),
        stable_sorted(list).to_multiset() == list.to_multiset(),
    decreases list.len(),
{
    if list.len() > 0 {
        let front = list.drop_last();
        sorting_orders_and_keeps(front);
        let done = stable_sorted(front);
        lemma_placed_in_order(done, list.last());
        lemma_place(done, list.last());
        broadcast use vstd::seq_lib::group_to_multiset_ensures;

        assert(list =~= front.push(list.last()));
        assert(placed(done, list.last()).to_multiset() =~= done.to_multiset().insert(list.last()));
        assert(front.push(list.last()).to_multiset() =~= front.to_multiset().insert(list.last()));
    } else {
        assert(list =~= Seq::empty());
    }
}

/// A list that is in order stays as it is.
pub proof fn lemma_sorted_same<T: Rank>(list: Seq<T>)
    requires
        in_order(list),
    ensures
        stable_sorted(list) == list,
    decreases list.len(),
{
    if list.len() > 0 {
        let front = list.drop_last();
        assert forall|i: int, j: int| 0 <= i < j < front.len() implies !order::precedes(
            (#[trigger] front[j]).rank(),
            (#[trigger] front[i]).rank(),
        ) by {
            assert(front[i] == list[i] && front[j] == list[j]);
        }
        lemma_sorted_same(front);
        assert forall|i: int| 0 <= i < front.len() implies !order::precedes(
            list.last().rank(),
            (#[trigger] front[i]).rank(),
        ) by {
            assert(front[i] == list[i]);
        }
        lemma_place_is(front, list.last(), front.len() as int);
        assert(placed(front, list.last()) =~= list);
    } else {
        assert(list =~= Seq::empty());
    }
}

/// The mathematical content of a list.
pub open spec fn list_views<T: View>(list: Seq<T>) -> Seq<<T as View>::V> {
    list.map_values(|v: T| v@)
}

/// Puts a value into a list, behind those that do not come after it.
pub fn place_into<T: Ranked>(list: &mut Vec<T>, value: T) where <T as View>::V: Rank
    ensures
        list_views(final(list)@) == placed(list_views(old(list)@), value@),
{
    let ghost before = list_views(list@);
    let ghost v = value@;
    let mut at: usize = 0;
    while at < list.len() && value.compare(&list[at]) != Order::Less
        invariant
            at <= list@.len(),
            before == list_views(list@),
            v == value@,
            forall|i: int|
                0 <= i < at ==> !order::precedes(v.rank(), (#[trigger] before[i]).rank()),
        decreases list@.len() - at,
    {
        proof {
            assert(before[at as int] == list@[at as int]@);
            order::lemma_order_unique(v.rank(), before[at as int].rank());
        }
        at += 1;
    }
    proof {
        if at < list@.len() {
            assert(before[at as int] == list@[at as int]@);
            order::lemma_order_unique(v.rank(), before[at as int].rank());
        }
        assert(before.len() == list@.len());
        lemma_place_is(before, v, at as int);
    }
    list.insert(at, value);
    assert(list_views(list@) =~= before.insert(at as int, v));
}

/// Sorts a list; equals keep their order.
pub fn sort<T: Ranked>(list: Vec<T>) -> (out: Vec<T>) where <T as View>::V: Rank
    ensures
        list_views(out@) == stable_sorted(list_views(list@)),
{
    let ghost all = list_views(list@);
    let mut rest = list;
    let mut out: Vec<T> = Vec::new();
    assert(list_views(out@) =~= stable_sorted(all.take(0)));
    assert(all.skip(0) =~= all);
    let ghost mut done: int = 0;
    while rest.len() > 0
        invariant
            0 <= done <= all.len(),
            list_views(rest@) == all.skip(done),
            list_views(out@) == stable_sorted(all.take(done)),
        decreases rest@.len(),
    {
        let ghost before = rest@;
        let value = rest.remove(0);
        proof {
            assert(list_views(before).len() == before.len());
            assert(list_views(before)[0] == value@);
            assert(all.skip(done)[0] == all[done]);
            assert(all.take(done + 1).drop_last() =~= all.take(done));
            assert(list_views(rest@) =~= list_views(before).skip(1));
            assert(all.skip(done).skip(1) =~= all.skip(done + 1));
            done = done + 1;
        }
        place_into(&mut out, value);
    }
    proof {
        assert(list_views(rest@).len() == 0);
        assert(all.take(done) =~= all);
    }
    out
}

/// A list without repeats of a neighbour.
pub open spec fn deduped<T>(list: Seq<T>) -> Seq<T>
    decreases list.len(),
{
    if list.len() == 0 {
        Seq::empty()
    } else {
        let front = deduped(list.drop_last());
        if front.len() > 0 && front.last() == list.last() {
            front
        } else {
            front.push(list.last())
        }
    }
}

/// Without repeats of a neighbour, a list in order ascends strictly, and holds
/// what it held.
pub proof fn lemma_deduped_ascends<T: Rank>(list: Seq<T>)
    requires
        in_order(list),
        forall|i: int, j: int|
            0 <= i < list.len() && 0 <= j < list.len() && (#[trigger] list[i]).rank() == (
            #[trigger] list[j]).rank() ==> list[i] == list[j],
    ensures
        forall|i: int, j: int|
            0 <= i < j < deduped(list).len() ==> order::precedes(
                (#[trigger] deduped(list)[i]).rank(),
                (#[trigger] deduped(list)[j]).rank(),
            ),
        forall|x: T| #[trigger] deduped(list).contains(x) <==> list.contains(x),
        list.len() > 0 ==> deduped(list).len() > 0 && deduped(list).last()
            == list.last(),
    decreases list.len(),
{
    if list.len() > 0 {
        let rest = list.drop_last();
        let front = deduped(rest);
        let out = deduped(list);
        let last = list.last();
        assert forall|i: int, j: int| 0 <= i < j < rest.len() implies !order::precedes(
            (#[trigger] rest[j]).rank(),
            (#[trigger] rest[i]).rank(),
        ) by {
            assert(rest[i] == list[i] && rest[j] == list[j]);
        }
        assert forall|i: int, j: int|
            0 <= i < rest.len() && 0 <= j < rest.len() && (#[trigger] rest[i]).rank() == (
            #[trigger] rest[j]).rank() implies rest[i] == rest[j] by {
            assert(rest[i] == list[i] && rest[j] == list[j]);
        }
        lemma_deduped_ascends(rest);
        assert forall|x: T| #[trigger] out.contains(x) <==> list.contains(x) by {
            if out.contains(x) {
                let k = choose|k: int| 0 <= k < out.len() && out[k] == x;
                if k < front.len() {
                    assert(front[k] == x);
                    assert(front.contains(x));
                    assert(rest.contains(x));
                    let m = choose|m: int| 0 <= m < rest.len() && rest[m] == x;
                    assert(list[m] == x);
                } else {
                    assert(list[list.len() - 1] == x);
                }
            }
            if list.contains(x) {
                let k = choose|k: int| 0 <= k < list.len() && list[k] == x;
                if k < rest.len() {
                    assert(rest[k] == x);
                    assert(rest.contains(x));
                    assert(front.contains(x));
                    let m = choose|m: int| 0 <= m < front.len() && front[m] == x;
                    assert(out[m] == x);
                } else {
                    assert(out[out.len() - 1] == x);
                }
            }
        }
        if !(front.len() > 0 && front.last() == last) && front.len() > 0 {
            let near = front.last();
            assert(near == rest.last());
            assert(near == list[list.len() - 2]);
            assert(!order::precedes(list[list.len() - 1].rank(), list[list.len() - 2].rank()));
            order::lemma_order_unique(near.rank(), last.rank());
            assert(order::precedes(near.rank(), last.rank()));
            assert forall|i: int, j: int| 0 <= i < j < out.len() implies order::precedes(
                (#[trigger] out[i]).rank(),
                (#[trigger] out[j]).rank(),
            ) by {
                if j < front.len() {
                    assert(out[i] == front[i] && out[j] == front[j]);
                } else if i < front.len() - 1 {
                    assert(out[i] == front[i]);
                    assert(order::precedes(front[i].rank(), front[front.len() - 1].rank()));
                    order::lemma_transitive(front[i].rank(), near.rank(), last.rank());
                }
            }
        }
    }
}

// ---------------------------------------------------------------------------
// Maps.

/// Every key comes strictly before every later one.
pub open spec fn ascending<K: Rank, V>(entries: Seq<(K, V)>) -> bool {
    forall|i: int, j: int|
        0 <= i < j < entries.len() ==> order::precedes(
            (#[trigger] entries[i]).0.rank(),
            (#[trigger] entries[j]).0.rank(),
        )
}

/// How many leading entries come before `key`.
pub open spec fn slot<K: Rank, V>(entries: Seq<(K, V)>, key: K) -> nat
    decreases entries.len(),
{
    if entries.len() == 0 || !order::precedes(entries[0].0.rank(), key.rank()) {
        0
    } else {
        1 + slot(entries.skip(1), key)
    }
}

/// Whether an entry stands for `key`.
pub open spec fn holds<K: Rank, V>(entries: Seq<(K, V)>, key: K) -> bool {
    let at = slot(entries, key) as int;
    at < entries.len() && entries[at].0.rank() == key.rank()
}

/// The value kept for `key`.
pub open spec fn lookup<K: Rank, V>(entries: Seq<(K, V)>, key: K) -> Option<V> {
    if holds(entries, key) {
        Some(entries[slot(entries, key) as int].1)
    } else {
        None
    }
}

/// The entries after `value` was stored for `key`. A key that is there stays,
/// and only its value is replaced.
pub open spec fn put<K: Rank, V>(entries: Seq<(K, V)>, key: K, value: V) -> Seq<(K, V)> {
    let at = slot(entries, key) as int;
    if holds(entries, key) {
        entries.update(at, (entries[at].0, value))
    } else {
        entries.insert(at, (key, value))
    }
}

/// The entries after the one for `key` was taken out.
pub open spec fn without<K: Rank, V>(entries: Seq<(K, V)>, key: K) -> Seq<(K, V)> {
    if holds(entries, key) {
        entries.remove(slot(entries, key) as int)
    } else {
        entries
    }
}

/// What `slot` means.
pub proof fn lemma_slot<K: Rank, V>(entries: Seq<(K, V)>, key: K)
    ensures
        slot(entries, key) <= entries.len(),
        forall|i: int|
            0 <= i < slot(entries, key) ==> order::precedes(
                (#[trigger] entries[i]).0.rank(),
                key.rank(),
            ),
        slot(entries, key) < entries.len() ==> !order::precedes(
            entries[slot(entries, key) as int].0.rank(),
            key.rank(),
        ),
    decreases entries.len(),
{
    if entries.len() != 0 && order::precedes(entries[0].0.rank(), key.rank()) {
        lemma_slot(entries.skip(1), key);
        assert forall|i: int| 0 <= i < slot(entries, key) implies order::precedes(
            (#[trigger] entries[i]).0.rank(),
            key.rank(),
        ) by {
            if i > 0 {
                assert(entries[i] == entries.skip(1)[i - 1]);
            }
        }
    }
}

/// The position with the properties of `lemma_slot` is the one.
pub proof fn lemma_slot_is<K: Rank, V>(entries: Seq<(K, V)>, key: K, at: int)
    requires
        0 <= at <= entries.len(),
        forall|i: int|
            0 <= i < at ==> order::precedes((#[trigger] entries[i]).0.rank(), key.rank()),
        at < entries.len() ==> !order::precedes(entries[at].0.rank(), key.rank()),
    ensures
        slot(entries, key) == at,
{
    lemma_slot(entries, key);
    let found = slot(entries, key) as int;
    if found < at {
        assert(order::precedes(entries[found].0.rank(), key.rank()));
    } else if at < found {
        assert(order::precedes(entries[at].0.rank(), key.rank()));
    }
}

/// In an ascending map an entry is found exactly where some key has the
/// same rank.
pub proof fn lemma_holds_at<K: Rank, V>(entries: Seq<(K, V)>, key: K, at: int)
    requires
        ascending(entries),
        0 <= at < entries.len(),
        entries[at].0.rank() == key.rank(),
    ensures
        holds(entries, key),
        slot(entries, key) == at,
{
    order::lemma_irreflexive(key.rank());
    lemma_slot_is(entries, key, at);
}

/// Storing keeps the order.
pub proof fn lemma_put_ascending<K: Rank, V>(entries: Seq<(K, V)>, key: K, value: V)
    requires
        ascending(entries),
    ensures
        ascending(put(entries, key, value)),
{
    lemma_slot(entries, key);
    let at = slot(entries, key) as int;
    let next = put(entries, key, value);
    if !holds(entries, key) {
        assert forall|i: int, j: int| 0 <= i < j < next.len() implies order::precedes(
            (#[trigger] next[i]).0.rank(),
            (#[trigger] next[j]).0.rank(),
        ) by {
            if j == at {
                assert(next[i] == entries[i]);
            } else if i == at {
                assert(next[j] == entries[j - 1]);
                order::lemma_order_unique(entries[at].0.rank(), key.rank());
                if j - 1 > at {
                    order::lemma_transitive(
                        key.rank(),
                        entries[at].0.rank(),
                        entries[j - 1].0.rank(),
                    );
                }
            } else {
                let i0 = if i < at {
                    i
                } else {
                    i - 1
                };
                let j0 = if j < at {
                    j
                } else {
                    j - 1
                };
                assert(next[i] == entries[i0]);
                assert(next[j] == entries[j0]);
            }
        }
    } else {
        assert forall|i: int, j: int| 0 <= i < j < next.len() implies order::precedes(
            (#[trigger] next[i]).0.rank(),
            (#[trigger] next[j]).0.rank(),
        ) by {
            assert(next[i].0 == entries[i].0);
            assert(next[j].0 == entries[j].0);
        }
    }
}

/// A key greater than all others goes to the end.
pub proof fn lemma_put_last<K: Rank, V>(entries: Seq<(K, V)>, key: K, value: V)
    requires
        forall|i: int|
            0 <= i < entries.len() ==> order::precedes(
                (#[trigger] entries[i]).0.rank(),
                key.rank(),
            ),
    ensures
        put(entries, key, value) == entries.push((key, value)),
{
    lemma_slot_is(entries, key, entries.len() as int);
    assert(entries.insert(entries.len() as int, (key, value)) =~= entries.push((key, value)));
}

/// What was stored is found, and nothing else changed.
pub proof fn lemma_put_lookup<K: Rank, V>(entries: Seq<(K, V)>, key: K, value: V, other: K)
    requires
        ascending(entries),
    ensures
        lookup(put(entries, key, value), other) == if other.rank() == key.rank() {
            Some(value)
        } else {
            lookup(entries, other)
        },
{
    lemma_slot(entries, key);
    lemma_slot(entries, other);
    lemma_put_ascending(entries, key, value);
    let next = put(entries, key, value);
    let at = slot(entries, key) as int;
    if other.rank() == key.rank() {
        lemma_holds_at(next, other, at);
    } else if holds(entries, other) {
        let k = slot(entries, other) as int;
        let k1 = if holds(entries, key) || k < at {
            k
        } else {
            k + 1
        };
        assert(next[k1].0 == entries[k].0);
        lemma_holds_at(next, other, k1);
    } else if holds(next, other) {
        lemma_slot(next, other);
        let k1 = slot(next, other) as int;
        let k = if holds(entries, key) || k1 < at {
            k1
        } else {
            k1 - 1
        };
        if holds(entries, key) || k1 != at {
            assert(next[k1].0 == entries[k].0);
            lemma_holds_at(entries, other, k);
        }
    }
}

/// Map whose entries are kept in key order.
#[derive(PartialEq, Eq, Debug)]
pub struct SortedMap<K: Ranked, V: View> where <K as View>::V: Rank {
    entries: Vec<(K, V)>,
}

impl<K: Ranked, V: View> View for SortedMap<K, V> where <K as View>::V: Rank {
    type V = Seq<(<K as View>::V, <V as View>::V)>;

    closed spec fn view(&self) -> Seq<(<K as View>::V, <V as View>::V)> {
        entry_views(self.entries@)
    }
}

/// The mathematical content of a list of entries.
pub open spec fn entry_views<K: View, V: View>(entries: Seq<(K, V)>) -> Seq<
    (<K as View>::V, <V as View>::V),
> {
    Seq::new(entries.len(), |i: int| (entries[i].0@, entries[i].1@))
}

impl<K: Ranked, V: View> SortedMap<K, V> where <K as View>::V: Rank {
    #[verifier::type_invariant]
    spec fn sorted(self) -> bool {
        ascending(entry_views(self.entries@))
    }

    /// An empty map.
    pub fn new() -> (map: Self)
        ensures
            map@ == Seq::<(<K as View>::V, <V as View>::V)>::empty(),
    {
        let map = SortedMap { entries: Vec::new() };
        assert(map@ =~= Seq::empty());
        map
    }

    /// Number of entries.
    pub fn len(&self) -> (n: usize)
        ensures
            n == self@.len(),
            ascending(self@),
    {
        proof {
            use_type_invariant(self);
        }
        self.entries.len()
    }

    /// Whether there are no entries.
    pub fn is_empty(&self) -> (r: bool)
        ensures
            r == (self@.len() == 0),
    {
        self.entries.len() == 0
    }

    /// The key at a position.
    pub fn key_at(&self, at: usize) -> (key: &K)
        requires
            at < self@.len(),
        ensures
            key@ == self@[at as int].0,
    {
        &self.entries[at].0
    }

    /// The value at a position.
    pub fn value_at(&self, at: usize) -> (value: &V)
        requires
            at < self@.len(),
        ensures
            value@ == self@[at as int].1,
    {
        &self.entries[at].1
    }

    /// How many entries come before `key`, found by halving.
    fn find(&self, key: &K) -> (at: usize)
        ensures
            at == slot(self@, key@),
            at <= self@.len(),
    {
        proof {
            use_type_invariant(self);
        }
        let mut low: usize = 0;
        let mut high: usize = self.entries.len();
        while low < high
            invariant
                low <= high <= self.entries@.len(),
                ascending(self@),
                forall|i: int|
                    0 <= i < low ==> order::precedes((#[trigger] self@[i]).0.rank(), key@.rank()),
                forall|i: int|
                    high <= i < self@.len() ==> !order::precedes(
                        (#[trigger] self@[i]).0.rank(),
                        key@.rank(),
                    ),
            decreases high - low,
        {
            let middle: usize = low + (high - low) / 2;
            let found = self.entries[middle].0.compare(key);
            let ghost here = self@[middle as int].0.rank();
            proof {
                order::lemma_order_unique(here, key@.rank());
            }
            if found == Order::Less {
                proof {
                    assert forall|i: int| 0 <= i < middle + 1 implies order::precedes(
                        (#[trigger] self@[i]).0.rank(),
                        key@.rank(),
                    ) by {
                        if i < middle {
                            let (a, b) = (self@[i], self@[middle as int]);
                            order::lemma_transitive(a.0.rank(), here, key@.rank());
                        }
                    }
                }
                low = middle + 1;
            } else {
                proof {
                    assert forall|i: int| middle <= i < self@.len() implies !order::precedes(
                        (#[trigger] self@[i]).0.rank(),
                        key@.rank(),
                    ) by {
                        if i > middle && order::precedes(self@[i].0.rank(), key@.rank()) {
                            let (a, b) = (self@[middle as int], self@[i]);
                            order::lemma_transitive(here, self@[i].0.rank(), key@.rank());
                        }
                    }
                }
                high = middle;
            }
        }
        proof {
            lemma_slot_is(self@, key@, low as int);
        }
        low
    }

    /// Position of the entry for `key`.
    pub fn position(&self, key: &K) -> (r: Option<usize>)
        ensures
            r is Some <==> holds(self@, key@),
            r matches Some(at) ==> at == slot(self@, key@) && at < self@.len(),
    {
        let at: usize = self.find(key);
        if at < self.entries.len() {
            let found = self.entries[at].0.compare(key);
            proof {
                order::lemma_order_unique(self@[at as int].0.rank(), key@.rank());
            }
            if found == Order::Equal {
                return Some(at);
            }
        }
        None
    }

    /// The value for `key`.
    pub fn get(&self, key: &K) -> (r: Option<&V>)
        ensures
            r is Some <==> holds(self@, key@),
            r matches Some(value) ==> lookup(self@, key@) == Some(value@),
    {
        match self.position(key) {
            Some(at) => Some(&self.entries[at].1),
            None => None,
        }
    }

    /// Whether there is an entry for `key`.
    pub fn contains_key(&self, key: &K) -> (r: bool)
        ensures
            r == holds(self@, key@),
    {
        self.position(key).is_some()
    }

    /// Stores `value` for `key`.
    pub fn insert(&mut self, key: K, value: V)
        ensures
            final(self)@ == put(old(self)@, key@, value@),
    {
        proof {
            use_type_invariant(&*self);
            lemma_put_ascending(self@, key@, value@);
            lemma_slot(self@, key@);
        }
        let found = self.position(&key);
        let at: usize = self.find(&key);
        let ghost before = entry_views(self.entries@);
        let ghost (k, v) = (key@, value@);
        let mut entries: Vec<(K, V)> = Vec::new();
        std::mem::swap(&mut self.entries, &mut entries);
        match found {
            Some(_) => {
                let (kept, _) = entries.remove(at);
                entries.insert(at, (kept, value));
                assert(entry_views(entries@) =~= before.update(at as int, (before[at as int].0, v)));
            },
            None => {
                entries.insert(at, (key, value));
                assert(entry_views(entries@) =~= before.insert(at as int, (k, v)));
            },
        }
        assert(entry_views(entries@) =~= put(before, k, v));
        self.entries = entries;
    }

    /// Takes the entry for `key` out.
    pub fn remove(&mut self, key: &K) -> (r: Option<V>)
        ensures
            final(self)@ == without(old(self)@, key@),
            r is Some <==> holds(old(self)@, key@),
            r matches Some(value) ==> lookup(old(self)@, key@) == Some(value@),
    {
        proof {
            use_type_invariant(&*self);
        }
        match self.position(key) {
            Some(at) => {
                let ghost before = entry_views(self.entries@);
                let mut entries: Vec<(K, V)> = Vec::new();
                std::mem::swap(&mut self.entries, &mut entries);
                let (_, value) = entries.remove(at);
                proof {
                    let after = before.remove(at as int);
                    assert(entry_views(entries@) =~= after);
                    assert forall|i: int, j: int| 0 <= i < j < after.len() implies order::precedes(
                        (#[trigger] after[i]).0.rank(),
                        (#[trigger] after[j]).0.rank(),
                    ) by {
                        let i0 = if i < at {
                            i
                        } else {
                            i + 1
                        };
                        let j0 = if j < at {
                            j
                        } else {
                            j + 1
                        };
                        assert(after[i] == before[i0]);
                        assert(after[j] == before[j0]);
                    }
                }
                self.entries = entries;
                Some(value)
            },
            None => None,
        }
    }
}

impl SortedMap<String, String> {
    /// A copy of a map from text to text.
    pub fn copy_texts(&self) -> (r: Self)
        ensures
            r@ == self@,
    {
        let mut r: SortedMap<String, String> = SortedMap::new();
        let n: usize = self.len();
        let mut i: usize = 0;
        assert(r@ =~= self@.take(0));
        while i < n
            invariant
                i <= n,
                n == self@.len(),
                ascending(self@),
                r@ == self@.take(i as int),
            decreases n - i,
        {
            let (key, value) = (self.key_at(i).clone(), self.value_at(i).clone());
            proof {
                lemma_put_last(r@, key@, value@);
                assert(self@.take(i + 1) =~= self@.take(i as int).push((key@, value@)));
            }
            r.insert(key, value);
            i += 1;
        }
        assert(self@.take(i as int) =~= self@);
        r
    }
}

impl<V: View> SortedMap<String, V> {
    /// The value for a name.
    pub fn get_str(&self, key: &str) -> (r: Option<&V>)
        ensures
            r is Some <==> holds(self@, key@),
            r matches Some(value) ==> lookup(self@, key@) == Some(value@),
    {
        self.get(&key.to_string())
    }
}

} // verus!
