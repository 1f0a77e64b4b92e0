//! The priority map itself: the entries in a `Vec`, laid out as a max-heap, and
//! a `HashMap` from each key to the position of its entry.

use crate::keys::copy_key;
use crate::keys::faithful_keys;
use crate::layout::contents;
use crate::layout::heap_ordered;
use crate::layout::indexed_by;
use crate::layout::keys_distinct;
use crate::layout::position_of;
use crate::layout::Direction;
use crate::layout::Entry;
use crate::layout;
use crate::order::comparable;
use crate::order::less;
use crate::order::weakly_ordered;
use crate::repair::lemma_contents_len;
use crate::repair::lemma_indexed;
use crate::repair::lemma_position_of;
use crate::repair::lemma_root_maximal;
use std::collections::hash_map;
use std::collections::HashMap;
use std::hash::Hash;
use vstd::prelude::*;
use vstd::std_specs::hash::group_hash_axioms;

verus! {

/// A map from keys to values in which every key carries a priority. The entry
/// of the highest priority can be read and taken out; any entry can be taken
/// out or given a new priority by its key.
pub struct PriorityMap<P, K, V> where K: Hash {
    heap: Vec<Entry<P, K, V>>,
    map: HashMap<K, usize>,
}

/// All but one place of the index is right: it mirrors the entries, except that
/// the position recorded for the key at `hole` may be stale.
pub open spec fn indexed_except<P, K, V>(
    s: Seq<Entry<P, K, V>>,
    index: Map<K, usize>,
    hole: int,
) -> bool {
    &&& keys_distinct(s)
    &&& forall|i: int|
        0 <= i < s.len() ==> index.contains_key(#[trigger] s[i].key) && (i != hole ==> index[s[i].key]
            == i)
    &&& forall|k: K| #[trigger]
        index.contains_key(k) ==> k == s[hole].key || (index[k] < s.len() && s[index[k] as int].key
            == k)
}

/// Exchanges two elements of a vector: afterwards each of the two places holds
/// what the other held, and every other place is as it was.
fn swap_entries<T>(v: &mut Vec<T>, a: usize, b: usize)
    requires
        a < old(v)@.len(),
        b < old(v)@.len(),
    ensures
        final(v)@ == old(v)@.update(a as int, old(v)@[b as int]).update(b as int, old(v)@[a as int]),
{
    if a == b {
        return ;
    }
    let low = if a < b {
        a
    } else {
        b
    };
    let high = if a < b {
        b
    } else {
        a
    };
    let (head, tail) = v.as_mut_slice().split_at_mut(high);
    core::mem::swap(&mut head[low], &mut tail[0]);
}

/// The priority and key types behave as values: comparisons are functions of
/// their operands, and keys hash, compare and clone faithfully.
pub open spec fn sound_types<P: PartialOrd, K: Clone>() -> bool {
    comparable::<P>() && faithful_keys::<K>()
}

impl<P, K, V> View for PriorityMap<P, K, V> where
    P: PartialOrd + Clone,
    K: Eq + Hash + Clone,
    V: Ord,
 {
    type V = Map<K, (P, V)>;

    /// The map from each key to its priority and value.
    open spec fn view(&self) -> Map<K, (P, V)> {
        contents(self.entries())
    }
}

impl<P, K, V> PriorityMap<P, K, V> where P: PartialOrd + Clone, K: Eq + Hash + Clone, V: Ord {
    /// The storage array: the entries by position.
    pub closed spec fn entries(&self) -> Seq<Entry<P, K, V>> {
        self.heap@
    }

    /// The index map: the position recorded for each key.
    pub closed spec fn positions(&self) -> Map<K, usize> {
        self.map@
    }

    /// The map is well formed: its types are sound, the index map mirrors the
    /// storage array, and, where priorities are weakly ordered, the storage
    /// array is a heap in order. Every operation keeps this.
    pub open spec fn wf(&self) -> bool {
        &&& sound_types::<P, K>()
        &&& indexed_by(self.entries(), self.positions())
        &&& weakly_ordered::<P>() ==> heap_ordered(self.entries())
    }

    /// The number of entries.
    pub open spec fn spec_len(&self) -> usize {
        self.entries().len() as usize
    }

    /// An empty map.
    pub fn new() -> (m: Self)
        requires
            sound_types::<P, K>(),
        ensures
            m.wf(),
            m.entries() == Seq::<Entry<P, K, V>>::empty(),
            m@ == Map::<K, (P, V)>::empty(),
            heap_ordered(m.entries()),
    {
        let m = Self { heap: Vec::new(), map: HashMap::new() };
        assert(m@ =~= Map::<K, (P, V)>::empty());
        assert forall|i: int| #[trigger] layout::settled(m.heap@, i) by {}
        m
    }

    /// The number of entries: the size of the storage array, of the index map
    /// and of the map that they stand for.
    #[verifier::when_used_as_spec(spec_len)]
    pub fn len(&self) -> (n: usize)
        requires
            self.wf(),
        ensures
            n == self.spec_len(),
            n == self.entries().len(),
            n == self.positions().dom().len(),
            n == self@.dom().len(),
    {
        broadcast use group_hash_axioms;

        proof {
            lemma_indexed(self.heap@, self.map@);
            lemma_contents_len(self.heap@);
        }
        self.map.len()
    }

    /// The value at the root, if there is one. The root's entry is an entry of
    /// the map, and where priorities are weakly ordered no priority is strictly
    /// above the root's.
    pub fn peek(&self) -> (top: Option<&V>)
        requires
            self.wf(),
        ensures
            top == (if self.entries().len() > 0 {
                Some(&self.entries()[0].value)
            } else {
                None
            }),
            self.entries().len() > 0 ==> self@.contains_key(self.entries()[0].key)
                && self@[self.entries()[0].key] == (
                self.entries()[0].priority,
                self.entries()[0].value,
            ),
            weakly_ordered::<P>() ==> forall|k: K| #[trigger]
                self@.contains_key(k) ==> !less(self.entries()[0].priority, self@[k].0),
    {
        proof {
            lemma_indexed(self.heap@, self.map@);
            if self.heap@.len() > 0 {
                lemma_position_of(self.heap@, 0);
            }
            if weakly_ordered::<P>() {
                assert forall|k: K| #[trigger] self@.contains_key(k) implies !less(
                    self.heap@[0].priority,
                    self@[k].0,
                ) by {
                    lemma_root_maximal(self.heap@, position_of(self.heap@, k));
                }
            }
        }
        if self.heap.len() == 0 {
            return None;
        }
        Some(&self.heap[0].value)
    }

    /// The parent of `position`, if its priority is strictly less.
    fn lesser_parent(&self, position: usize) -> (found: Option<usize>)
        requires
            comparable::<P>(),
            position < self.heap@.len(),
        ensures
            match found {
                Some(p) => layout::lesser_parent(self.heap@, position as int) == Some(p as int),
                None => layout::lesser_parent(self.heap@, position as int) is None,
            },
    {
        if position == 0 {
            return None;
        }
        let parent = (position - 1) / 2;
        if self.heap[parent].priority < self.heap[position].priority {
            Some(parent)
        } else {
            None
        }
    }

    /// The child that `max_child` picks, if its priority is strictly greater.
    fn greater_child(&self, position: usize) -> (found: Option<usize>)
        requires
            comparable::<P>(),
            position < self.heap@.len(),
        ensures
            match found {
                Some(c) => layout::greater_child(self.heap@, position as int) == Some(c as int),
                None => layout::greater_child(self.heap@, position as int) is None,
            },
    {
        match self.max_child(position) {
            Some(child) => {
                if self.heap[child].priority > self.heap[position].priority {
                    Some(child)
                } else {
                    None
                }
            },
            None => None,
        }
    }

    /// The right child if it is strictly above the left one, else the left
    /// child; none if there is no child.
    fn max_child(&self, position: usize) -> (found: Option<usize>)
        requires
            comparable::<P>(),
            position < self.heap@.len(),
        ensures
            match found {
                Some(c) => layout::max_child(self.heap@, position as int) == Some(c as int),
                None => layout::max_child(self.heap@, position as int) is None,
            },
    {
        if position < self.heap.len() / 2 {
            let left = 2 * position + 1;
            let right = 2 * position + 2;
            if right < self.heap.len() {
                if self.heap[left].priority < self.heap[right].priority {
                    return Some(right);
                }
            }
            return Some(left);
        }
        None
    }
}

impl<P, K, V> PriorityMap<P, K, V> where P: PartialOrd + Clone, K: Eq + Hash + Clone, V: Ord {
    /// Lets the entry at `position` rise while its parent is strictly below it.
    fn swim_up(&mut self, position: usize) -> (end: usize)
        requires
            sound_types::<P, K>(),
            position < old(self).heap@.len(),
            indexed_except(old(self).heap@, old(self).map@, position as int),
        ensures
            final(self).heap@ == layout::sift(old(self).heap@, position as int, Direction::Up).0,
            end == layout::sift(old(self).heap@, position as int, Direction::Up).1,
            indexed_by(final(self).heap@, final(self).map@),
    {
        self.sift(position, Direction::Up)
    }

    /// Lets the entry at `position` fall while a child is strictly above it.
    fn sink_down(&mut self, position: usize) -> (end: usize)
        requires
            sound_types::<P, K>(),
            position < old(self).heap@.len(),
            indexed_except(old(self).heap@, old(self).map@, position as int),
        ensures
            final(self).heap@ == layout::sift(old(self).heap@, position as int, Direction::Down).0,
            end == layout::sift(old(self).heap@, position as int, Direction::Down).1,
            indexed_by(final(self).heap@, final(self).map@),
    {
        self.sift(position, Direction::Down)
    }

    /// Moves the entry at `position` in direction `dir` until it rests. Each
    /// exchange records the new position of the entry that gave way; the
    /// travelling entry is recorded once, where it comes to rest.
    fn sift(&mut self, position: usize, dir: Direction) -> (end: usize)
        requires
            sound_types::<P, K>(),
            position < old(self).heap@.len(),
            indexed_except(old(self).heap@, old(self).map@, position as int),
        ensures
            final(self).heap@ == layout::sift(old(self).heap@, position as int, dir).0,
            end == layout::sift(old(self).heap@, position as int, dir).1,
            indexed_by(final(self).heap@, final(self).map@),
    {
        broadcast use group_hash_axioms;

        let original_key = copy_key(&self.heap[position].key);
        let ghost start = position as int;
        let mut position = position;
        loop
            invariant
                sound_types::<P, K>(),
                position < self.heap@.len(),
                indexed_except(self.heap@, self.map@, position as int),
                original_key == self.heap@[position as int].key,
                layout::sift(self.heap@, position as int, dir) == layout::sift(
                    old(self).heap@,
                    start,
                    dir,
                ),
            ensures
                position < self.heap@.len(),
                indexed_except(self.heap@, self.map@, position as int),
                original_key == self.heap@[position as int].key,
                (self.heap@, position as int) == layout::sift(
                    old(self).heap@,
                    start,
                    dir,
                ),
            decreases layout::reach(self.heap@, position as int, dir),
        {
            let next = match dir {
                Direction::Up => self.lesser_parent(position),
                Direction::Down => self.greater_child(position),
            };
            match next {
                Some(other) => {
                    let ghost before = self.heap@;
                    let ghost index = self.map@;
                    let other_key = copy_key(&self.heap[other].key);
                    swap_entries(&mut self.heap, other, position);
                    self.map.insert(other_key, position);
                    proof {
                        let pos = position as int;
                        let oth = other as int;
                        assert(self.heap@ == layout::swapped(before, pos, oth));
                        crate::repair::lemma_swapped(before, pos, oth);
                        assert(before[pos].key != before[oth].key) by {
                            if pos < oth {
                                assert(before[pos].key != before[oth].key);
                            } else {
                                assert(before[oth].key != before[pos].key);
                            }
                        }
                        assert forall|i: int| 0 <= i < self.heap@.len() implies self.map@.contains_key(
                            #[trigger] self.heap@[i].key,
                        ) && (i != oth ==> self.map@[self.heap@[i].key] == i) by {
                            if i == pos {
                            } else if i == oth {
                                assert(index.contains_key(before[pos].key));
                            } else {
                                assert(index.contains_key(before[i].key));
                                assert(before[i].key != before[oth].key) by {
                                    if i < oth {
                                        assert(before[i].key != before[oth].key);
                                    } else {
                                        assert(before[oth].key != before[i].key);
                                    }
                                }
                            }
                        }
                        assert forall|k: K| #[trigger]
                            self.map@.contains_key(k) implies k == self.heap@[oth].key || (
                        self.map@[k] < self.heap@.len() && self.heap@[self.map@[k] as int].key
                            == k) by {
                            if k != other_key && k != before[pos].key {
                                assert(index.contains_key(k));
                                assert(index[k] != pos && index[k] != oth);
                            }
                        }
                    }
                    position = other;
                },
                None => {
                    break ;
                },
            }
        }
        self.map.insert(original_key, position);
        proof {
            assert forall|i: int| 0 <= i < self.heap@.len() implies self.map@.contains_key(
                #[trigger] self.heap@[i].key,
            ) && self.map@[self.heap@[i].key] == i by {
                if i != position {
                    assert(self.heap@[i].key != original_key) by {
                        if i < position {
                            assert(self.heap@[i].key != self.heap@[position as int].key);
                        } else {
                            assert(self.heap@[position as int].key != self.heap@[i].key);
                        }
                    }
                }
            }
        }
        position
    }
}

impl<P, K, V> PriorityMap<P, K, V> where P: PartialOrd + Clone, K: Eq + Hash + Clone, V: Ord {
    /// Gives the entry at `position` the priority `priority` and hands back the
    /// one it had.
    fn reprioritize_position(&mut self, position: usize, priority: P) -> (previous: Option<P>)
        requires
            old(self).wf(),
            position < old(self).heap@.len(),
        ensures
            final(self).wf(),
            previous == Some(old(self).heap@[position as int].priority),
            final(self).heap@ == layout::reprioritized_at(
                old(self).heap@,
                position as int,
                priority,
            ),
    {
        let mut priority = priority;
        proof {
            lemma_indexed(self.heap@, self.map@);
            crate::repair::lemma_reprioritized_at(self.heap@, position as int, priority);
        }
        let ghost before = self.heap@;
        core::mem::swap(&mut self.heap[position].priority, &mut priority);
        proof {
            let i = position as int;
            assert(self.heap@ == before.update(
                i,
                Entry { priority: self.heap@[i].priority, key: before[i].key, value: before[i].value },
            ));
            crate::repair::lemma_updated(before, i, self.heap@[i]);
            assert forall|j: int| 0 <= j < self.heap@.len() implies self.heap@[j].key
                == before[j].key by {}
        }
        if self.heap[position].priority > priority {
            self.swim_up(position);
        } else {
            self.sink_down(position);
        }
        Some(priority)
    }

    /// Inserts `key` with `priority` and `value`, or gives the entry of `key`
    /// that value and that priority if there is one already. A new entry is
    /// appended and rises; an entry that was there stays one entry, and rises or
    /// falls from where it was.
    pub fn insert(&mut self, priority: P, key: K, value: V)
        requires
            old(self).wf(),
        ensures
            final(self).wf(),
            final(self)@ == old(self)@.insert(key, (priority, value)),
            final(self).entries() == layout::inserted(old(self).entries(), priority, key, value),
            final(self).entries().len() == old(self).entries().len() + (if old(self)@.contains_key(
                key,
            ) {
                0int
            } else {
                1int
            }),
            weakly_ordered::<P>() && heap_ordered(old(self).entries()) ==> heap_ordered(
                final(self).entries(),
            ),
    {
        broadcast use group_hash_axioms;

        proof {
            lemma_indexed(self.heap@, self.map@);
            crate::repair::lemma_inserted(self.heap@, priority, key, value);
        }
        let ghost before = self.heap@;
        let ghost index = self.map@;
        match self.map.entry(copy_key(&key)) {
            hash_map::Entry::Occupied(e) => {
                let position = *e.get();
                assert(self.map@ == index);
                self.heap[position].value = value;
                proof {
                    let i = position as int;
                    assert(self.heap@ == before.update(
                        i,
                        Entry { priority: before[i].priority, key: before[i].key, value },
                    ));
                    assert forall|j: int| 0 <= j < self.heap@.len() implies self.heap@[j].key
                        == before[j].key by {}
                    if weakly_ordered::<P>() {
                        assert forall|j: int| #[trigger] layout::settled(self.heap@, j) by {
                            assert(layout::settled(before, j));
                        }
                    }
                }
                self.reprioritize_position(position, priority);
            },
            hash_map::Entry::Vacant(e) => {
                let position = self.heap.len();
                e.insert(position);
                self.heap.push(Entry { priority, key, value });
                proof {
                    crate::repair::lemma_pushed(before, Entry { priority, key, value });
                    assert forall|i: int| 0 <= i < self.heap@.len() implies self.map@.contains_key(
                        #[trigger] self.heap@[i].key,
                    ) && self.map@[self.heap@[i].key] == i by {
                        if i < before.len() {
                            assert(before[i].key != key);
                        }
                    }
                }
                self.swim_up(position);
            },
        }
    }

    /// Takes out the entry at the root and hands back its value; `None`, and no
    /// change, if the map is empty. The last entry takes the root and falls.
    /// Where priorities are weakly ordered no priority was strictly above the
    /// one taken out.
    pub fn pop(&mut self) -> (top: Option<V>)
        requires
            old(self).wf(),
        ensures
            final(self).wf(),
            top == (if old(self).entries().len() > 0 {
                Some(old(self).entries()[0].value)
            } else {
                None
            }),
            final(self).entries() == layout::popped(old(self).entries()),
            old(self).entries().len() > 0 ==> {
                &&& old(self)@.contains_key(old(self).entries()[0].key)
                &&& old(self)@[old(self).entries()[0].key] == (
                    old(self).entries()[0].priority,
                    old(self).entries()[0].value,
                )
                &&& final(self)@ == old(self)@.remove(old(self).entries()[0].key)
                &&& final(self).entries().len() == old(self).entries().len() - 1
            },
            weakly_ordered::<P>() ==> forall|k: K| #[trigger]
                old(self)@.contains_key(k) ==> !less(
                    old(self).entries()[0].priority,
                    old(self)@[k].0,
                ),
            weakly_ordered::<P>() && heap_ordered(old(self).entries()) ==> heap_ordered(
                final(self).entries(),
            ),
    {
        broadcast use group_hash_axioms;

        proof {
            lemma_indexed(self.heap@, self.map@);
        }
        if self.heap.is_empty() {
            return None;
        }
        let ghost before = self.heap@;
        proof {
            lemma_position_of(before, 0);
            crate::repair::lemma_removed_at(before, 0);
            crate::repair::lemma_swap_removed(before, 0);
            if weakly_ordered::<P>() {
                assert forall|k: K| #[trigger] contents(before).contains_key(k) implies !less(
                    before[0].priority,
                    contents(before)[k].0,
                ) by {
                    lemma_root_maximal(before, position_of(before, k));
                }
            }
        }
        let entry = self.heap.swap_remove(0);
        self.map.remove(&entry.key);
        proof {
            self.lemma_vacated(before, 0);
        }
        if !self.heap.is_empty() {
            self.sink_down(0);
        }
        Some(entry.value)
    }

    /// Takes out the entry of `key` and hands back its value; `None`, and no
    /// change, if `key` is absent. The last entry takes the place; it rises from
    /// there if its new parent is strictly below it, and falls otherwise.
    pub fn remove(&mut self, key: &K) -> (value: Option<V>)
        requires
            old(self).wf(),
        ensures
            final(self).wf(),
            value == (if old(self)@.contains_key(*key) {
                Some(old(self)@[*key].1)
            } else {
                None
            }),
            final(self)@ == old(self)@.remove(*key),
            final(self).entries() == layout::removed(old(self).entries(), *key),
            final(self).entries().len() == old(self).entries().len() - (if old(self)@.contains_key(
                *key,
            ) {
                1int
            } else {
                0int
            }),
            weakly_ordered::<P>() && heap_ordered(old(self).entries()) ==> heap_ordered(
                final(self).entries(),
            ),
    {
        broadcast use group_hash_axioms;

        proof {
            lemma_indexed(self.heap@, self.map@);
        }
        let ghost before = self.heap@;
        let ghost index = self.map@;
        proof {
            if !index.contains_key(*key) {
                assert(index.remove(*key) == index);
                assert(contents(before).remove(*key) == contents(before));
            }
        }
        let position = self.map.remove(key)?;
        proof {
            crate::repair::lemma_removed_at(before, position as int);
            crate::repair::lemma_swap_removed(before, position as int);
        }
        let entry = self.heap.swap_remove(position);
        proof {
            self.lemma_vacated(before, position as int);
        }
        if self.heap.len() > position {
            match self.lesser_parent(position) {
                Some(_) => {
                    self.swim_up(position);
                },
                None => {
                    self.sink_down(position);
                },
            }
        }
        Some(entry.value)
    }

    /// Gives the entry of `key` the priority `priority` and hands back the one
    /// it had; `None`, and no change, if `key` is absent. The entry rises if the
    /// new priority is strictly greater than the former, and falls otherwise.
    pub fn reprioritize(&mut self, key: &K, priority: P) -> (previous: Option<P>)
        requires
            old(self).wf(),
        ensures
            final(self).wf(),
            previous == (if old(self)@.contains_key(*key) {
                Some(old(self)@[*key].0)
            } else {
                None
            }),
            final(self)@ == (if old(self)@.contains_key(*key) {
                old(self)@.insert(*key, (priority, old(self)@[*key].1))
            } else {
                old(self)@
            }),
            final(self).entries() == layout::reprioritized(old(self).entries(), *key, priority),
            final(self).entries().len() == old(self).entries().len(),
            weakly_ordered::<P>() && heap_ordered(old(self).entries()) ==> heap_ordered(
                final(self).entries(),
            ),
    {
        broadcast use group_hash_axioms;

        proof {
            lemma_indexed(self.heap@, self.map@);
        }
        let position = *self.map.get(key)?;
        proof {
            crate::repair::lemma_reprioritized_at(self.heap@, position as int, priority);
        }
        self.reprioritize_position(position, priority)
    }

    /// In a well-formed map the index map records exactly the keys of the map,
    /// no two entries share a key, and the position recorded for a key holds
    /// the entry of that key.
    pub proof fn lemma_index_addresses_entry(&self, key: K)
        requires
            self.wf(),
        ensures
            keys_distinct(self.entries()),
            self.positions().dom() == self@.dom(),
            self@.contains_key(key) ==> {
                let place = self.positions()[key] as int;
                &&& 0 <= place < self.entries().len()
                &&& self.entries()[place].key == key
                &&& self@[key] == (self.entries()[place].priority, self.entries()[place].value)
            },
    {
        lemma_indexed(self.heap@, self.map@);
        if self@.contains_key(key) {
            lemma_position_of(self.heap@, self.map@[key] as int);
        }
    }

    /// After the entry at `hole` left the storage array and its key left the
    /// index, the index is right but for the entry that took the place.
    proof fn lemma_vacated(&self, before: Seq<Entry<P, K, V>>, hole: int)
        requires
            0 <= hole < before.len(),
            self.heap@ == before.update(hole, before.last()).drop_last(),
            indexed_by(before, self.map@.insert(before[hole].key, hole as usize)),
            !self.map@.contains_key(before[hole].key),
        ensures
            hole < self.heap@.len() ==> indexed_except(self.heap@, self.map@, hole),
            hole == self.heap@.len() ==> indexed_by(self.heap@, self.map@),
    {
        let full = self.map@.insert(before[hole].key, hole as usize);
        lemma_indexed(before, full);
        crate::repair::lemma_swap_removed(before, hole);
        let n = before.len() - 1;
        assert forall|i: int| 0 <= i < self.heap@.len() implies self.map@.contains_key(
            #[trigger] self.heap@[i].key,
        ) && (i != hole ==> self.map@[self.heap@[i].key] == i) by {
            let i0 = if i == hole {
                n
            } else {
                i
            };
            assert(self.heap@[i] == before[i0]);
            assert(full.contains_key(before[i0].key) && full[before[i0].key] == i0);
        }
        assert forall|k: K| #[trigger] self.map@.contains_key(k) implies (hole < self.heap@.len()
            && k == self.heap@[hole].key) || (self.map@[k] < self.heap@.len()
            && self.heap@[self.map@[k] as int].key == k) by {
            assert(full.contains_key(k));
            assert(full[k] != hole);
            if full[k] == n {
                assert(k == before[n].key);
            }
        }
    }
}

} // verus!
