//! What holds of the priority map over whole histories of use.
//!
//! Each operation of the map is pinned to a function on the sequence of
//! entries, so a history of operations is a fold of those functions from the
//! empty sequence. The laws below are stated and proved over such folds.

use crate::bag::bag;
use crate::bag::lemma_bag_counts;
use crate::bag::lemma_bag_member;
use crate::bag::lemma_bag_removed_at;
use crate::bag::lemma_bag_reprioritized_at;
use crate::bag::priorities;
use crate::layout::contents;
use crate::layout::has_key;
use crate::layout::heap_ordered;
use crate::layout::indexed_by;
use crate::layout::inserted;
use crate::layout::keys_distinct;
use crate::layout::popped;
use crate::layout::position_of;
use crate::layout::removed;
use crate::layout::removed_at;
use crate::layout::reprioritized;
use crate::layout::settled;
use crate::layout::Entry;
use crate::order::less;
use crate::order::totally_ordered;
use crate::order::weakly_ordered;
use crate::prioritymap::PriorityMap;
use crate::repair::lemma_has_key;
use crate::repair::lemma_inserted;
use crate::repair::lemma_position_of;
use crate::repair::lemma_removed_at;
use crate::repair::lemma_reprioritized_at;
use crate::repair::lemma_root_maximal;
use std::hash::Hash;
use vstd::prelude::*;

verus! {

/// One call of a mutating operation, with its arguments.
pub enum Operation<P, K, V> {
    Insert { priority: P, key: K, value: V },
    Pop,
    Remove { key: K },
    Reprioritize { key: K, priority: P },
}

/// The entries after `op` is applied to `s`.
pub open spec fn applied<P: PartialOrd, K, V>(
    s: Seq<Entry<P, K, V>>,
    op: Operation<P, K, V>,
) -> Seq<Entry<P, K, V>> {
    match op {
        Operation::Insert { priority, key, value } => inserted(s, priority, key, value),
        Operation::Pop => popped(s),
        Operation::Remove { key } => removed(s, key),
        Operation::Reprioritize { key, priority } => reprioritized(s, key, priority),
    }
}

/// The entries of a map that started empty and went through `ops` in order.
pub open spec fn replayed<P: PartialOrd, K, V>(ops: Seq<Operation<P, K, V>>) -> Seq<Entry<P, K, V>>
    decreases ops.len(),
{
    if ops.len() == 0 {
        Seq::empty()
    } else {
        applied(replayed(ops.drop_last()), ops.last())
    }
}

/// What `op` does to the number of entries of `s`: an insert of a new key adds
/// one, a pop or a remove that finds its entry takes one, everything else
/// leaves it.
pub open spec fn growth<P, K, V>(s: Seq<Entry<P, K, V>>, op: Operation<P, K, V>) -> int {
    match op {
        Operation::Insert { priority, key, value } => if has_key(s, key) {
            0
        } else {
            1
        },
        Operation::Pop => if s.len() > 0 {
            -1
        } else {
            0
        },
        Operation::Remove { key } => if has_key(s, key) {
            -1
        } else {
            0
        },
        Operation::Reprioritize { key, priority } => 0,
    }
}

/// The inserts of `ops` that added an entry, less the pops and removes that
/// took one out.
pub open spec fn balance<P: PartialOrd, K, V>(ops: Seq<Operation<P, K, V>>) -> int
    decreases ops.len(),
{
    if ops.len() == 0 {
        0
    } else {
        balance(ops.drop_last()) + growth(replayed(ops.drop_last()), ops.last())
    }
}

/// One operation keeps the keys distinct, changes the number of entries by its
/// `growth`, and keeps a heap in order.
pub proof fn lemma_applied<P: PartialOrd, K, V>(s: Seq<Entry<P, K, V>>, op: Operation<P, K, V>)
    requires
        keys_distinct(s),
    ensures
        keys_distinct(applied(s, op)),
        applied(s, op).len() == s.len() + growth(s, op),
        weakly_ordered::<P>() && heap_ordered(s) ==> heap_ordered(applied(s, op)),
{
    match op {
        Operation::Insert { priority, key, value } => {
            lemma_inserted(s, priority, key, value);
        },
        Operation::Pop => {
            if s.len() > 0 {
                lemma_removed_at(s, 0);
            }
        },
        Operation::Remove { key } => {
            if has_key(s, key) {
                lemma_removed_at(s, position_of(s, key));
            }
        },
        Operation::Reprioritize { key, priority } => {
            if has_key(s, key) {
                lemma_reprioritized_at(s, position_of(s, key), priority);
            }
        },
    }
}

/// In every state that a history reaches, no key occurs twice, so an index can
/// mirror the entries; the number of entries is the balance of the history;
/// and, where priorities are weakly ordered, the heap is in order.
pub proof fn lemma_reachable<P: PartialOrd, K, V>(ops: Seq<Operation<P, K, V>>)
    ensures
        keys_distinct(replayed(ops)),
        replayed(ops).len() == balance(ops),
        weakly_ordered::<P>() ==> heap_ordered(replayed(ops)),
    decreases ops.len(),
{
    if ops.len() > 0 {
        lemma_reachable(ops.drop_last());
        lemma_applied(replayed(ops.drop_last()), ops.last());
    } else {
        assert forall|i: int| #[trigger] settled(replayed(ops), i) by {}
    }
}

/// Where the index mirrors the entries, the position recorded for a key holds
/// an entry with exactly that key, and the recorded keys are the keys of the
/// map.
pub proof fn lemma_index_addresses_key<P, K, V>(
    s: Seq<Entry<P, K, V>>,
    index: Map<K, usize>,
    key: K,
)
    requires
        indexed_by(s, index),
    ensures
        index.contains_key(key) <==> contents(s).contains_key(key),
        index.contains_key(key) ==> index[key] < s.len() && s[index[key] as int].key == key
            && contents(s)[key] == (s[index[key] as int].priority, s[index[key] as int].value),
{
    crate::repair::lemma_indexed(s, index);
    if index.contains_key(key) {
        lemma_position_of(s, index[key] as int);
    }
}

/// In a heap in order, no child is strictly above its parent: the parent is at
/// least as high as each child that is there, wherever the two compare.
pub proof fn lemma_parent_covers_children<P: PartialOrd, K, V>(s: Seq<Entry<P, K, V>>, i: int)
    requires
        heap_ordered(s),
        0 <= i,
    ensures
        2 * i + 1 < s.len() ==> !less(s[i].priority, s[2 * i + 1].priority),
        2 * i + 2 < s.len() ==> !less(s[i].priority, s[2 * i + 2].priority),
{
    assert(settled(s, 2 * i + 1));
    assert(settled(s, 2 * i + 2));
}

/// The entries in the order in which repeated pops take them out.
pub open spec fn drained<P: PartialOrd, K, V>(s: Seq<Entry<P, K, V>>) -> Seq<Entry<P, K, V>>
    decreases s.len(),
    via drained_terminates::<P, K, V>
{
    if s.len() == 0 {
        Seq::empty()
    } else {
        seq![s[0]] + drained(removed_at(s, 0))
    }
}

#[via_fn]
proof fn drained_terminates<P: PartialOrd, K, V>(s: Seq<Entry<P, K, V>>) {
    if s.len() > 1 {
        crate::repair::lemma_sift_len(
            s.update(0, s.last()).drop_last(),
            0,
            crate::layout::Direction::Down,
        );
    }
}

/// Popping until the map is empty takes out every entry once: what comes out
/// holds no key twice and says, as a map, what the entries said.
pub proof fn lemma_drained_entries<P: PartialOrd, K, V>(s: Seq<Entry<P, K, V>>)
    requires
        keys_distinct(s),
    ensures
        drained(s).len() == s.len(),
        keys_distinct(drained(s)),
        contents(drained(s)) == contents(s),
    decreases s.len(),
{
    lemma_drained_len(s);
    if s.len() == 0 {
        assert(contents(drained(s)) =~= contents(s));
    } else {
        let rest = removed_at(s, 0);
        let d = drained(rest);
        let all = drained(s);
        lemma_removed_at(s, 0);
        lemma_drained_entries(rest);
        lemma_position_of(s, 0);
        assert forall|a: int, b: int| 0 <= a < b < all.len() implies all[a].key != all[b].key by {
            assert(all[b] == d[b - 1]);
            lemma_position_of(d, b - 1);
            if a > 0 {
                assert(all[a] == d[a - 1]);
            }
        }
        assert forall|k: K| has_key(all, k) implies k == s[0].key || has_key(d, k) by {
            let j = position_of(all, k);
            if j > 0 {
                assert(d[j - 1].key == k);
            }
        }
        assert forall|k: K| has_key(d, k) implies has_key(all, k) && all[position_of(all, k)]
            == d[position_of(d, k)] by {
            let j = position_of(d, k);
            assert(all[j + 1] == d[j]);
            lemma_position_of(all, j + 1);
        }
        lemma_position_of(all, 0);
        assert(contents(all) =~= contents(d).insert(s[0].key, (s[0].priority, s[0].value)));
        assert(contents(all) =~= contents(s));
    }
}

/// Popping until the map is empty takes as many pops as there are entries.
pub proof fn lemma_drained_len<P: PartialOrd, K, V>(s: Seq<Entry<P, K, V>>)
    requires
        keys_distinct(s),
    ensures
        drained(s).len() == s.len(),
    decreases s.len(),
{
    if s.len() > 0 {
        lemma_removed_at(s, 0);
        lemma_drained_len(removed_at(s, 0));
    }
}

/// Repeated pops from a heap in order yield priorities that never rise: no
/// entry popped later is strictly above one popped earlier. Entries that tie
/// may come in either order.
pub proof fn lemma_pops_never_rise<P: PartialOrd, K, V>(s: Seq<Entry<P, K, V>>, i: int, j: int)
    requires
        weakly_ordered::<P>(),
        keys_distinct(s),
        heap_ordered(s),
        0 <= i <= j < s.len(),
    ensures
        drained(s).len() == s.len(),
        !less(drained(s)[i].priority, drained(s)[j].priority),
    decreases s.len(),
{
    lemma_drained_len(s);
    lemma_removed_at(s, 0);
    if i == 0 {
        lemma_drained_entries(s);
        lemma_position_of(drained(s), j);
        let k = drained(s)[j].key;
        lemma_has_key(s, k);
        lemma_root_maximal(s, position_of(s, k));
    } else {
        lemma_pops_never_rise(removed_at(s, 0), i - 1, j - 1);
    }
}

/// Giving a key another priority and then its former one back leaves the map
/// as it was: every key has the priority and the value it had. The first call
/// hands back the former priority, the second the one in between.
pub proof fn lemma_reprioritize_round_trip<P: PartialOrd, K, V>(
    s: Seq<Entry<P, K, V>>,
    key: K,
    priority: P,
)
    requires
        keys_distinct(s),
        has_key(s, key),
    ensures
        ({
            let original = contents(s)[key].0;
            let there = reprioritized(s, key, priority);
            let back = reprioritized(there, key, original);
            &&& contents(there)[key].0 == priority
            &&& contents(back) == contents(s)
            &&& keys_distinct(back)
            &&& back.len() == s.len()
            &&& weakly_ordered::<P>() && heap_ordered(s) ==> heap_ordered(back)
        }),
{
    let i = position_of(s, key);
    let original = s[i].priority;
    let there = reprioritized(s, key, priority);
    lemma_reprioritized_at(s, i, priority);
    assert(contents(there).contains_key(key));
    let j = position_of(there, key);
    lemma_position_of(there, j);
    lemma_reprioritized_at(there, j, original);
    let back = reprioritized(there, key, original);
    assert(contents(back) =~= contents(s));
}

/// Inserting a key twice leaves exactly one entry for it, with the priority and
/// the value of the second insert; the second insert adds no entry and touches
/// no other key.
pub proof fn lemma_upsert<P: PartialOrd, K, V>(
    s: Seq<Entry<P, K, V>>,
    key: K,
    first: (P, V),
    second: (P, V),
)
    requires
        keys_distinct(s),
    ensures
        ({
            let once = inserted(s, first.0, key, first.1);
            let twice = inserted(once, second.0, key, second.1);
            &&& keys_distinct(twice)
            &&& twice.len() == once.len()
            &&& contents(twice) == contents(s).insert(key, second)
            &&& contents(twice)[key] == second
        }),
{
    let once = inserted(s, first.0, key, first.1);
    lemma_inserted(s, first.0, key, first.1);
    assert(contents(once).contains_key(key));
    lemma_inserted(once, second.0, key, second.1);
    assert(contents(s).insert(key, first).insert(key, second) =~= contents(s).insert(key, second));
}

/// Under a total order the priorities alone decide what repeated pops yield:
/// two heaps in order that hold the same priorities, each as often as the
/// other, yield the same priorities in the same order.
pub proof fn lemma_pops_depend_on_priorities<P: PartialOrd, K, V>(
    a: Seq<Entry<P, K, V>>,
    b: Seq<Entry<P, K, V>>,
)
    requires
        totally_ordered::<P>(),
        keys_distinct(a),
        keys_distinct(b),
        heap_ordered(a),
        heap_ordered(b),
        bag(a) == bag(b),
    ensures
        priorities(drained(a)) == priorities(drained(b)),
    decreases a.len(),
{
    vstd::seq_lib::to_multiset_len(priorities(a));
    vstd::seq_lib::to_multiset_len(priorities(b));
    assert(a.len() == b.len());
    lemma_drained_len(a);
    lemma_drained_len(b);
    if a.len() > 0 {
        lemma_bag_counts(a, 0);
        lemma_bag_counts(b, 0);
        lemma_bag_member(b, a[0].priority);
        let j = choose|j: int| 0 <= j < b.len() && #[trigger] b[j].priority == a[0].priority;
        lemma_root_maximal(b, j);
        lemma_bag_member(a, b[0].priority);
        let i = choose|i: int| 0 <= i < a.len() && #[trigger] a[i].priority == b[0].priority;
        lemma_root_maximal(a, i);
        assert(!less(a[0].priority, b[0].priority) && !less(b[0].priority, a[0].priority));
        assert(a[0].priority == b[0].priority);
        lemma_removed_at(a, 0);
        lemma_removed_at(b, 0);
        lemma_bag_removed_at(a, 0);
        lemma_bag_removed_at(b, 0);
        let a1 = removed_at(a, 0);
        let b1 = removed_at(b, 0);
        lemma_pops_depend_on_priorities(a1, b1);
        lemma_drained_len(a1);
        lemma_drained_len(b1);
        assert forall|n: int| 0 <= n < a.len() implies priorities(drained(a))[n] == priorities(
            drained(b),
        )[n] by {
            if n > 0 {
                assert(drained(a)[n] == drained(a1)[n - 1]);
                assert(drained(b)[n] == drained(b1)[n - 1]);
                assert(priorities(drained(a1))[n - 1] == priorities(drained(b1))[n - 1]);
            }
        }
    }
    assert(priorities(drained(a)) =~= priorities(drained(b)));
}

/// Under a total order, giving a key another priority and then its former one
/// back restores the order of pops: from then on repeated pops yield the same
/// entries as they would have yielded before, and their priorities in the same
/// order. Entries of equal priority may have changed places among themselves.
pub proof fn lemma_round_trip_restores_pop_order<P: PartialOrd, K, V>(
    s: Seq<Entry<P, K, V>>,
    key: K,
    priority: P,
)
    requires
        totally_ordered::<P>(),
        keys_distinct(s),
        heap_ordered(s),
        has_key(s, key),
    ensures
        ({
            let original = contents(s)[key].0;
            let back = reprioritized(reprioritized(s, key, priority), key, original);
            &&& priorities(drained(back)) == priorities(drained(s))
            &&& contents(drained(back)) == contents(drained(s))
        }),
{
    broadcast use vstd::multiset::group_multiset_axioms;

    let i = position_of(s, key);
    let original = s[i].priority;
    let there = reprioritized(s, key, priority);
    lemma_reprioritized_at(s, i, priority);
    lemma_bag_reprioritized_at(s, i, priority);
    assert(contents(there).contains_key(key));
    let j = position_of(there, key);
    lemma_position_of(there, j);
    assert(there[j].priority == priority);
    let back = reprioritized(there, key, original);
    lemma_reprioritized_at(there, j, original);
    lemma_bag_reprioritized_at(there, j, original);
    lemma_bag_counts(s, i);
    assert(bag(back) =~= bag(s));
    lemma_pops_depend_on_priorities(back, s);
    assert(contents(back) =~= contents(s));
    lemma_drained_entries(back);
    lemma_drained_entries(s);
}

/// From any well-formed map, repeated pops yield every entry once, and
/// priorities that never rise: no entry popped later is strictly above one
/// popped earlier.
pub proof fn lemma_map_pops_never_rise<P, K, V>(m: PriorityMap<P, K, V>, i: int, j: int) where
    P: PartialOrd + Clone,
    K: Eq + Hash + Clone,
    V: Ord,

    requires
        m.wf(),
        weakly_ordered::<P>(),
        0 <= i <= j < m.entries().len(),
    ensures
        drained(m.entries()).len() == m.entries().len(),
        contents(drained(m.entries())) == m@,
        !less(drained(m.entries())[i].priority, drained(m.entries())[j].priority),
{
    m.lemma_index_addresses_entry(m.entries()[0].key);
    lemma_drained_entries(m.entries());
    lemma_pops_never_rise(m.entries(), i, j);
}

/// From any well-formed map under a total order, giving a key another priority
/// and then its former one back restores the map and the order of pops.
pub proof fn lemma_map_round_trip<P, K, V>(m: PriorityMap<P, K, V>, key: K, priority: P) where
    P: PartialOrd + Clone,
    K: Eq + Hash + Clone,
    V: Ord,

    requires
        m.wf(),
        totally_ordered::<P>(),
        m@.contains_key(key),
    ensures
        ({
            let back = reprioritized(reprioritized(m.entries(), key, priority), key, m@[key].0);
            &&& contents(back) == m@
            &&& heap_ordered(back)
            &&& priorities(drained(back)) == priorities(drained(m.entries()))
        }),
{
    m.lemma_index_addresses_entry(key);
    lemma_reprioritize_round_trip(m.entries(), key, priority);
    lemma_round_trip_restores_pop_order(m.entries(), key, priority);
}

} // verus!
