//! The priorities of the entries, counted without regard to place.

use crate::layout::removed_at;
use crate::layout::reprioritized_at;
use crate::layout::sift;
use crate::layout::step;
use crate::layout::swapped;
use crate::layout::Direction;
use crate::layout::Entry;
use crate::order::greater;
use crate::repair::lemma_step_in_range;
use vstd::multiset::Multiset;
use vstd::prelude::*;

verus! {

/// The priorities of the entries, by position.
pub open spec fn priorities<P, K, V>(s: Seq<Entry<P, K, V>>) -> Seq<P> {
    Seq::new(s.len(), |i: int| s[i].priority)
}

/// The priorities of the entries as a multiset: how often each occurs.
pub open spec fn bag<P, K, V>(s: Seq<Entry<P, K, V>>) -> Multiset<P> {
    priorities(s).to_multiset()
}

/// A priority that the multiset counts is the priority of some entry.
pub proof fn lemma_bag_member<P, K, V>(s: Seq<Entry<P, K, V>>, p: P)
    requires
        bag(s).count(p) > 0,
    ensures
        exists|i: int| 0 <= i < s.len() && #[trigger] s[i].priority == p,
{
    vstd::seq_lib::to_multiset_contains(priorities(s), p);
    let i = choose|i: int| 0 <= i < priorities(s).len() && priorities(s)[i] == p;
    assert(s[i].priority == p);
}

/// The priority of every entry is counted.
pub proof fn lemma_bag_counts<P, K, V>(s: Seq<Entry<P, K, V>>, i: int)
    requires
        0 <= i < s.len(),
    ensures
        bag(s).count(s[i].priority) > 0,
        bag(s).len() == s.len(),
{
    vstd::seq_lib::to_multiset_contains(priorities(s), s[i].priority);
    vstd::seq_lib::to_multiset_len(priorities(s));
    assert(priorities(s)[i] == s[i].priority);
}

/// Replacing an entry counts its priority in and the former one out.
pub proof fn lemma_bag_updated<P, K, V>(s: Seq<Entry<P, K, V>>, i: int, e: Entry<P, K, V>)
    requires
        0 <= i < s.len(),
    ensures
        bag(s.update(i, e)) == bag(s).insert(e.priority).remove(s[i].priority),
{
    assert(priorities(s.update(i, e)) =~= priorities(s).update(i, e.priority));
    vstd::seq_lib::to_multiset_update(priorities(s), i, e.priority);
}

/// Dropping the last entry counts its priority out.
pub proof fn lemma_bag_dropped<P, K, V>(s: Seq<Entry<P, K, V>>)
    requires
        s.len() > 0,
    ensures
        bag(s.drop_last()) == bag(s).remove(s.last().priority),
{
    let n = s.len() - 1;
    assert(priorities(s.drop_last()) =~= priorities(s).remove(n));
    vstd::seq_lib::to_multiset_remove(priorities(s), n);
}

/// Exchanging two entries changes no count.
pub proof fn lemma_bag_swapped<P, K, V>(s: Seq<Entry<P, K, V>>, i: int, j: int)
    requires
        0 <= i < s.len(),
        0 <= j < s.len(),
    ensures
        bag(swapped(s, i, j)) == bag(s),
{
    broadcast use vstd::multiset::group_multiset_axioms;

    let t = s.update(i, s[j]);
    lemma_bag_updated(s, i, s[j]);
    lemma_bag_updated(t, j, s[i]);
    lemma_bag_counts(s, i);
    lemma_bag_counts(s, j);
    assert(bag(swapped(s, i, j)) =~= bag(s));
}

/// The repair changes no count.
pub proof fn lemma_bag_sift<P: PartialOrd, K, V>(s: Seq<Entry<P, K, V>>, pos: int, dir: Direction)
    requires
        0 <= pos < s.len(),
    ensures
        bag(sift(s, pos, dir).0) == bag(s),
    decreases crate::layout::reach(s, pos, dir),
{
    lemma_step_in_range(s, pos, dir);
    match step(s, pos, dir) {
        Some(other) => {
            lemma_bag_swapped(s, pos, other);
            lemma_bag_sift(swapped(s, pos, other), other, dir);
        },
        None => {},
    }
}

/// Taking out the entry at `i` counts its priority out and changes no other
/// count.
pub proof fn lemma_bag_removed_at<P: PartialOrd, K, V>(s: Seq<Entry<P, K, V>>, i: int)
    requires
        0 <= i < s.len(),
    ensures
        bag(removed_at(s, i)) == bag(s).remove(s[i].priority),
{
    broadcast use vstd::multiset::group_multiset_axioms;

    let u = s.update(i, s.last());
    let t = u.drop_last();
    lemma_bag_updated(s, i, s.last());
    lemma_bag_dropped(u);
    lemma_bag_counts(s, i);
    lemma_bag_counts(s, s.len() - 1);
    assert(u.last().priority == s.last().priority);
    assert(bag(t) =~= bag(s).remove(s[i].priority));
    if i < t.len() {
        lemma_bag_sift(t, i, Direction::Up);
        lemma_bag_sift(t, i, Direction::Down);
    }
}

/// Giving the entry at `i` a new priority counts that one in and the former one
/// out.
pub proof fn lemma_bag_reprioritized_at<P: PartialOrd, K, V>(
    s: Seq<Entry<P, K, V>>,
    i: int,
    priority: P,
)
    requires
        0 <= i < s.len(),
    ensures
        bag(reprioritized_at(s, i, priority)) == bag(s).insert(priority).remove(s[i].priority),
{
    let e = Entry { priority, key: s[i].key, value: s[i].value };
    let t = s.update(i, e);
    lemma_bag_updated(s, i, e);
    if greater(priority, s[i].priority) {
        lemma_bag_sift(t, i, Direction::Up);
    } else {
        lemma_bag_sift(t, i, Direction::Down);
    }
}

} // verus!
