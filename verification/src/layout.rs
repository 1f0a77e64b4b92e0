//! The heap as a mathematical sequence of entries.
//!
//! Position 0 is the root; the entry at position `i > 0` hangs under the entry
//! at position `(i - 1) / 2`, and the entries at `2 * i + 1` and `2 * i + 2`
//! hang under the entry at `i`. Everything the map does to its storage is a
//! function on such a sequence, defined here. What those functions keep and
//! what they restore is proved in `repair`.

use crate::order::greater;
use crate::order::less;
use vstd::prelude::*;

verus! {

/// One stored triple.
#[derive(Debug)]
pub struct Entry<P, K, V> {
    pub priority: P,
    pub key: K,
    pub value: V,
}

/// The way an entry travels while the heap is repaired: towards the root or
/// towards the leaves.
#[derive(Clone, Copy, Debug)]
pub enum Direction {
    Up,
    Down,
}

/// The position above `i`.
pub open spec fn parent(i: int) -> int {
    (i - 1) / 2
}

/// `s` with the entries at `i` and `j` exchanged.
pub open spec fn swapped<P, K, V>(s: Seq<Entry<P, K, V>>, i: int, j: int) -> Seq<Entry<P, K, V>> {
    s.update(i, s[j]).update(j, s[i])
}

/// No two positions hold the same key.
pub open spec fn keys_distinct<P, K, V>(s: Seq<Entry<P, K, V>>) -> bool {
    forall|i: int, j: int| 0 <= i < j < s.len() ==> s[i].key != s[j].key
}

/// Some position holds `key`.
pub open spec fn has_key<P, K, V>(s: Seq<Entry<P, K, V>>, key: K) -> bool {
    exists|i: int| 0 <= i < s.len() && #[trigger] s[i].key == key
}

/// A position that holds `key`; the only one when the keys are distinct.
pub open spec fn position_of<P, K, V>(s: Seq<Entry<P, K, V>>, key: K) -> int {
    choose|i: int| 0 <= i < s.len() && #[trigger] s[i].key == key
}

/// What the entries say as a map: each key with its priority and value.
pub open spec fn contents<P, K, V>(s: Seq<Entry<P, K, V>>) -> Map<K, (P, V)> {
    Map::new(
        |k: K| has_key(s, k),
        |k: K| (s[position_of(s, k)].priority, s[position_of(s, k)].value),
    )
}

/// The index `index` mirrors the entries: every entry's key is recorded with the
/// entry's position, and every recorded position holds the key it is recorded
/// for.
pub open spec fn indexed_by<P, K, V>(s: Seq<Entry<P, K, V>>, index: Map<K, usize>) -> bool {
    &&& forall|i: int|
        0 <= i < s.len() ==> index.contains_key(#[trigger] s[i].key) && index[s[i].key] == i
    &&& forall|k: K| #[trigger]
        index.contains_key(k) ==> index[k] < s.len() && s[index[k] as int].key == k
}

/// The entry at `i` is not above its parent: the parent's priority is not
/// strictly less. Position 0 and positions outside `s` have nothing to meet.
pub open spec fn settled<P: PartialOrd, K, V>(s: Seq<Entry<P, K, V>>, i: int) -> bool {
    0 < i < s.len() ==> !less(s[parent(i)].priority, s[i].priority)
}

/// The max-heap property: no entry has a priority strictly above its parent's.
pub open spec fn heap_ordered<P: PartialOrd, K, V>(s: Seq<Entry<P, K, V>>) -> bool {
    forall|i: int| #[trigger] settled(s, i)
}

/// Where the entry at `pos` rises to: its parent, if the parent's priority is
/// strictly less. Ties do not move.
pub open spec fn lesser_parent<P: PartialOrd, K, V>(s: Seq<Entry<P, K, V>>, pos: int) -> Option<
    int,
> {
    if 0 < pos < s.len() && less(s[parent(pos)].priority, s[pos].priority) {
        Some(parent(pos))
    } else {
        None
    }
}

/// The child of `pos` to compare with: the right one only if it is strictly
/// above the left one, else the left one; none if `pos` has no child.
pub open spec fn max_child<P: PartialOrd, K, V>(s: Seq<Entry<P, K, V>>, pos: int) -> Option<int> {
    if 0 <= pos && 2 * pos + 1 < s.len() {
        if 2 * pos + 2 < s.len() && less(s[2 * pos + 1].priority, s[2 * pos + 2].priority) {
            Some(2 * pos + 2)
        } else {
            Some(2 * pos + 1)
        }
    } else {
        None
    }
}

/// Where the entry at `pos` falls to: the child that `max_child` picks, if its
/// priority is strictly greater.
pub open spec fn greater_child<P: PartialOrd, K, V>(s: Seq<Entry<P, K, V>>, pos: int) -> Option<
    int,
> {
    match max_child(s, pos) {
        Some(child) => if greater(s[child].priority, s[pos].priority) {
            Some(child)
        } else {
            None
        },
        None => None,
    }
}

/// One step of the repair in direction `dir`: the position to exchange `pos`
/// with, if any.
pub open spec fn step<P: PartialOrd, K, V>(
    s: Seq<Entry<P, K, V>>,
    pos: int,
    dir: Direction,
) -> Option<int> {
    match dir {
        Direction::Up => lesser_parent(s, pos),
        Direction::Down => greater_child(s, pos),
    }
}

/// How far the entry at `pos` can still travel in direction `dir`.
pub open spec fn reach<P, K, V>(s: Seq<Entry<P, K, V>>, pos: int, dir: Direction) -> int {
    match dir {
        Direction::Up => pos,
        Direction::Down => s.len() - pos,
    }
}

/// The repair: exchange the entry at `pos` with the position that `step` names,
/// follow it there, and repeat until `step` names none. The result is the new
/// sequence and the position where the entry came to rest.
pub open spec fn sift<P: PartialOrd, K, V>(s: Seq<Entry<P, K, V>>, pos: int, dir: Direction) -> (
    Seq<Entry<P, K, V>>,
    int,
)
    decreases reach(s, pos, dir),
{
    match step(s, pos, dir) {
        Some(other) => sift(swapped(s, pos, other), other, dir),
        None => (s, pos),
    }
}

/// The entries after `(priority, key, value)` is inserted. A new key is
/// appended and rises; a key already present keeps its entry, which takes the
/// new value and then the new priority.
pub open spec fn inserted<P: PartialOrd, K, V>(
    s: Seq<Entry<P, K, V>>,
    priority: P,
    key: K,
    value: V,
) -> Seq<Entry<P, K, V>> {
    if has_key(s, key) {
        let i = position_of(s, key);
        reprioritized_at(
            s.update(i, Entry { priority: s[i].priority, key: s[i].key, value }),
            i,
            priority,
        )
    } else {
        sift(s.push(Entry { priority, key, value }), s.len() as int, Direction::Up).0
    }
}

/// The entries after the entry at `i` takes the priority `priority`: it rises if
/// the new priority is strictly greater than the one it had, and falls
/// otherwise.
pub open spec fn reprioritized_at<P: PartialOrd, K, V>(
    s: Seq<Entry<P, K, V>>,
    i: int,
    priority: P,
) -> Seq<Entry<P, K, V>> {
    let t = s.update(i, Entry { priority, key: s[i].key, value: s[i].value });
    if greater(priority, s[i].priority) {
        sift(t, i, Direction::Up).0
    } else {
        sift(t, i, Direction::Down).0
    }
}

/// The entries after the entry of `key` takes the priority `priority`; unchanged
/// if `key` is absent.
pub open spec fn reprioritized<P: PartialOrd, K, V>(
    s: Seq<Entry<P, K, V>>,
    key: K,
    priority: P,
) -> Seq<Entry<P, K, V>> {
    if has_key(s, key) {
        reprioritized_at(s, position_of(s, key), priority)
    } else {
        s
    }
}

/// The entries after the entry at `i` is taken out: the last entry moves into
/// its place, rises from there if its new parent is strictly below it, and
/// falls from there otherwise.
pub open spec fn removed_at<P: PartialOrd, K, V>(s: Seq<Entry<P, K, V>>, i: int) -> Seq<
    Entry<P, K, V>,
> {
    let t = s.update(i, s.last()).drop_last();
    if i < t.len() {
        if lesser_parent(t, i) is Some {
            sift(t, i, Direction::Up).0
        } else {
            sift(t, i, Direction::Down).0
        }
    } else {
        t
    }
}

/// The entries after the entry of `key` is taken out; unchanged if `key` is
/// absent.
pub open spec fn removed<P: PartialOrd, K, V>(s: Seq<Entry<P, K, V>>, key: K) -> Seq<
    Entry<P, K, V>,
> {
    if has_key(s, key) {
        removed_at(s, position_of(s, key))
    } else {
        s
    }
}

/// The entries after the root is taken out; unchanged if there is none.
pub open spec fn popped<P: PartialOrd, K, V>(s: Seq<Entry<P, K, V>>) -> Seq<Entry<P, K, V>> {
    if s.len() > 0 {
        removed_at(s, 0)
    } else {
        s
    }
}

} // verus!
