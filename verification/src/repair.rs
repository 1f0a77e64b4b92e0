//! What the functions on the entries keep and what they restore.

use crate::layout::contents;
use crate::layout::has_key;
use crate::layout::heap_ordered;
use crate::layout::indexed_by;
use crate::layout::inserted;
use crate::layout::keys_distinct;
use crate::layout::parent;
use crate::layout::position_of;
use crate::layout::lesser_parent;
use crate::layout::removed_at;
use crate::layout::reprioritized_at;
use crate::layout::settled;
use crate::layout::sift;
use crate::layout::step;
use crate::layout::swapped;
use crate::layout::Direction;
use crate::layout::Entry;
use crate::order::greater;
use crate::order::lemma_less_transitive;
use crate::order::lemma_not_less_chains;
use crate::order::less;
use crate::order::weakly_ordered;
use vstd::prelude::*;

verus! {

/// With distinct keys, the position of an entry's key is the entry's position.
pub proof fn lemma_position_of<P, K, V>(s: Seq<Entry<P, K, V>>, i: int)
    requires
        keys_distinct(s),
        0 <= i < s.len(),
    ensures
        has_key(s, s[i].key),
        position_of(s, s[i].key) == i,
        contents(s).contains_key(s[i].key),
        contents(s)[s[i].key] == (s[i].priority, s[i].value),
{
    let j = position_of(s, s[i].key);
    assert(0 <= j < s.len() && s[j].key == s[i].key);
}

/// A key that the entries hold sits at its position.
pub proof fn lemma_has_key<P, K, V>(s: Seq<Entry<P, K, V>>, key: K)
    requires
        has_key(s, key),
    ensures
        0 <= position_of(s, key) < s.len(),
        s[position_of(s, key)].key == key,
{
}

/// Two sequences that hold the same entries, each in some place, say the same
/// as a map.
pub proof fn lemma_same_entries<P, K, V>(s: Seq<Entry<P, K, V>>, t: Seq<Entry<P, K, V>>)
    requires
        keys_distinct(s),
        keys_distinct(t),
        forall|i: int| 0 <= i < s.len() ==> exists|j: int| 0 <= j < t.len() && t[j] == #[trigger] s[i],
        forall|j: int| 0 <= j < t.len() ==> exists|i: int| 0 <= i < s.len() && s[i] == #[trigger] t[j],
    ensures
        contents(s) == contents(t),
{
    assert forall|k: K| has_key(s, k) implies has_key(t, k) && s[position_of(s, k)] == t[position_of(
        t,
        k,
    )] by {
        let i = position_of(s, k);
        let j = choose|j: int| 0 <= j < t.len() && t[j] == s[i];
        assert(t[j].key == k);
        lemma_position_of(t, j);
    }
    assert forall|k: K| has_key(t, k) implies has_key(s, k) by {
        let j = position_of(t, k);
        let i = choose|i: int| 0 <= i < s.len() && s[i] == t[j];
        assert(s[i].key == k);
    }
    assert(contents(s) =~= contents(t));
}

/// Exchanging two entries keeps the keys distinct and the map the same.
pub proof fn lemma_swapped<P, K, V>(s: Seq<Entry<P, K, V>>, i: int, j: int)
    requires
        keys_distinct(s),
        0 <= i < s.len(),
        0 <= j < s.len(),
    ensures
        keys_distinct(swapped(s, i, j)),
        contents(swapped(s, i, j)) == contents(s),
{
    let t = swapped(s, i, j);
    assert forall|a: int, b: int| 0 <= a < b < t.len() implies t[a].key != t[b].key by {
        let a0 = if a == i { j } else if a == j { i } else { a };
        let b0 = if b == i { j } else if b == j { i } else { b };
        assert(t[a] == s[a0] && t[b] == s[b0]);
        assert(a0 != b0);
        if a0 < b0 {
            assert(s[a0].key != s[b0].key);
        } else {
            assert(s[b0].key != s[a0].key);
        }
    }
    assert forall|a: int| 0 <= a < s.len() implies exists|b: int|
        0 <= b < t.len() && t[b] == #[trigger] s[a] by {
        let b = if a == i { j } else if a == j { i } else { a };
        assert(t[b] == s[a]);
    }
    assert forall|b: int| 0 <= b < t.len() implies exists|a: int|
        0 <= a < s.len() && s[a] == #[trigger] t[b] by {
        let a = if b == i { j } else if b == j { i } else { b };
        assert(s[a] == t[b]);
    }
    lemma_same_entries(s, t);
}

/// `step` names a position inside the sequence, other than `pos` and nearer to
/// the end of the journey.
pub proof fn lemma_step_in_range<P: PartialOrd, K, V>(
    s: Seq<Entry<P, K, V>>,
    pos: int,
    dir: Direction,
)
    requires
        0 <= pos < s.len(),
    ensures
        step(s, pos, dir) matches Some(other) ==> 0 <= other < s.len() && (match dir {
            Direction::Up => other < pos,
            Direction::Down => pos < other,
        }),
{
}

/// The repair keeps the number of entries, whatever the keys are.
pub proof fn lemma_sift_len<P: PartialOrd, K, V>(s: Seq<Entry<P, K, V>>, pos: int, dir: Direction)
    requires
        0 <= pos < s.len(),
    ensures
        sift(s, pos, dir).0.len() == s.len(),
    decreases crate::layout::reach(s, pos, dir),
{
    lemma_step_in_range(s, pos, dir);
    match step(s, pos, dir) {
        Some(other) => {
            lemma_sift_len(swapped(s, pos, other), other, dir);
        },
        None => {},
    }
}

/// The repair moves entries and nothing else: the length, the distinctness of
/// the keys and the map stay, and the entry that started at `pos` rests where
/// the result says.
pub proof fn lemma_sift_keeps<P: PartialOrd, K, V>(
    s: Seq<Entry<P, K, V>>,
    pos: int,
    dir: Direction,
)
    requires
        keys_distinct(s),
        0 <= pos < s.len(),
    ensures
        sift(s, pos, dir).0.len() == s.len(),
        keys_distinct(sift(s, pos, dir).0),
        contents(sift(s, pos, dir).0) == contents(s),
        0 <= sift(s, pos, dir).1 < s.len(),
        sift(s, pos, dir).0[sift(s, pos, dir).1] == s[pos],
    decreases crate::layout::reach(s, pos, dir),
{
    lemma_step_in_range(s, pos, dir);
    match step(s, pos, dir) {
        Some(other) => {
            lemma_swapped(s, pos, other);
            lemma_sift_keeps(swapped(s, pos, other), other, dir);
        },
        None => {},
    }
}

/// The parent of `pos` is not below either child of `pos`: what lets the entry
/// at `pos` leave without its neighbours falling out of order.
pub open spec fn bridged<P: PartialOrd, K, V>(s: Seq<Entry<P, K, V>>, pos: int) -> bool {
    forall|c: int|
        0 < pos && 0 < c < s.len() && parent(c) == pos ==> !less(
            s[parent(pos)].priority,
            #[trigger] s[c].priority,
        )
}

/// The only place where `s` may be out of order is the one that a repair from
/// `pos` in direction `dir` looks at: between `pos` and its parent on the way
/// up, between `pos` and its children on the way down.
pub open spec fn ready<P: PartialOrd, K, V>(s: Seq<Entry<P, K, V>>, pos: int, dir: Direction) -> bool {
    &&& bridged(s, pos)
    &&& forall|i: int|
        (match dir {
            Direction::Up => i != pos,
            Direction::Down => parent(i) != pos,
        }) ==> #[trigger] settled(s, i)
}

/// A heap in order is ready for a repair from anywhere, in either direction.
pub proof fn lemma_ordered_is_ready<P: PartialOrd, K, V>(
    s: Seq<Entry<P, K, V>>,
    pos: int,
    dir: Direction,
)
    requires
        weakly_ordered::<P>(),
        heap_ordered(s),
        0 <= pos < s.len(),
    ensures
        ready(s, pos, dir),
{
    assert forall|c: int| 0 < pos && 0 < c < s.len() && parent(c) == pos implies !less(
        s[parent(pos)].priority,
        #[trigger] s[c].priority,
    ) by {
        assert(settled(s, c));
        assert(settled(s, pos));
        lemma_not_less_chains(s[parent(pos)].priority, s[pos].priority, s[c].priority);
    }
}

/// The repair restores the order: from a sequence that is out of order at most
/// where the repair looks, it makes a heap in order.
pub proof fn lemma_sift_orders<P: PartialOrd, K, V>(
    s: Seq<Entry<P, K, V>>,
    pos: int,
    dir: Direction,
)
    requires
        weakly_ordered::<P>(),
        0 <= pos < s.len(),
        ready(s, pos, dir),
    ensures
        heap_ordered(sift(s, pos, dir).0),
    decreases crate::layout::reach(s, pos, dir),
{
    lemma_step_in_range(s, pos, dir);
    match step(s, pos, dir) {
        Some(other) => {
            let t = swapped(s, pos, other);
            match dir {
                Direction::Up => lemma_rise_stays_ready(s, pos),
                Direction::Down => lemma_fall_stays_ready(s, pos),
            }
            lemma_sift_orders(t, other, dir);
        },
        None => {
            match dir {
                Direction::Up => {
                    assert(settled(s, pos));
                },
                Direction::Down => {
                    assert forall|i: int| parent(i) == pos implies #[trigger] settled(s, i) by {
                        lemma_rest_is_settled(s, pos, i);
                    }
                },
            }
            assert forall|i: int| #[trigger] settled(s, i) by {
                if (match dir {
                    Direction::Up => i != pos,
                    Direction::Down => parent(i) != pos,
                }) {
                    assert(settled(s, i));
                }
            }
        },
    }
}

/// Where the entry at `pos` has no child strictly above it, both children are
/// settled.
proof fn lemma_rest_is_settled<P: PartialOrd, K, V>(s: Seq<Entry<P, K, V>>, pos: int, i: int)
    requires
        weakly_ordered::<P>(),
        0 <= pos < s.len(),
        crate::layout::greater_child(s, pos) is None,
        parent(i) == pos,
    ensures
        settled(s, i),
{
    if 0 < i < s.len() {
        assert(i == 2 * pos + 1 || i == 2 * pos + 2);
        let m = crate::layout::max_child(s, pos)->0;
        assert(!less(s[pos].priority, s[m].priority));
        if i != m {
            assert(!less(s[m].priority, s[i].priority));
            lemma_not_less_chains(s[pos].priority, s[m].priority, s[i].priority);
        }
    }
}

/// One step up leaves the sequence ready for the next.
proof fn lemma_rise_stays_ready<P: PartialOrd, K, V>(s: Seq<Entry<P, K, V>>, pos: int)
    requires
        weakly_ordered::<P>(),
        0 <= pos < s.len(),
        ready(s, pos, Direction::Up),
        step(s, pos, Direction::Up) is Some,
    ensures
        ready(swapped(s, pos, parent(pos)), parent(pos), Direction::Up),
{
    let q = parent(pos);
    let t = swapped(s, pos, q);
    assert(less(s[q].priority, s[pos].priority));
    assert forall|i: int| i != q implies #[trigger] settled(t, i) by {
        if 0 < i < t.len() {
            if i == pos {
                assert(!less(s[pos].priority, s[q].priority));
            } else if parent(i) == q {
                assert(settled(s, i));
                if less(s[pos].priority, s[i].priority) {
                    lemma_less_transitive(s[q].priority, s[pos].priority, s[i].priority);
                }
            } else if parent(i) == pos {
                assert(!less(s[q].priority, s[i].priority));
            } else {
                assert(settled(s, i));
            }
        }
    }
    assert forall|c: int| 0 < q && 0 < c < t.len() && parent(c) == q implies !less(
        t[parent(q)].priority,
        #[trigger] t[c].priority,
    ) by {
        assert(settled(s, q));
        if c == pos {
        } else {
            assert(settled(s, c));
            lemma_not_less_chains(s[parent(q)].priority, s[q].priority, s[c].priority);
        }
    }
}

/// One step down leaves the sequence ready for the next.
proof fn lemma_fall_stays_ready<P: PartialOrd, K, V>(s: Seq<Entry<P, K, V>>, pos: int)
    requires
        weakly_ordered::<P>(),
        0 <= pos < s.len(),
        ready(s, pos, Direction::Down),
        step(s, pos, Direction::Down) is Some,
    ensures
        ready(
            swapped(s, pos, step(s, pos, Direction::Down)->0),
            step(s, pos, Direction::Down)->0,
            Direction::Down,
        ),
{
    let c = step(s, pos, Direction::Down)->0;
    let t = swapped(s, pos, c);
    assert(c == 2 * pos + 1 || c == 2 * pos + 2);
    assert(less(s[pos].priority, s[c].priority));
    assert forall|i: int| parent(i) != c implies #[trigger] settled(t, i) by {
        if 0 < i < t.len() {
            if i == c {
                assert(!less(s[c].priority, s[pos].priority));
            } else if parent(i) == pos {
                assert(i == 2 * pos + 1 || i == 2 * pos + 2);
                assert(!less(s[c].priority, s[i].priority));
            } else if i == pos {
                assert(!less(s[parent(pos)].priority, s[c].priority));
            } else {
                assert(settled(s, i));
            }
        }
    }
    assert forall|d: int| 0 < c && 0 < d < t.len() && parent(d) == c implies !less(
        t[parent(c)].priority,
        #[trigger] t[d].priority,
    ) by {
        assert(settled(s, d));
    }
}

/// Appending an entry with a new key adds that key to the map.
pub proof fn lemma_pushed<P, K, V>(s: Seq<Entry<P, K, V>>, e: Entry<P, K, V>)
    requires
        keys_distinct(s),
        !has_key(s, e.key),
    ensures
        keys_distinct(s.push(e)),
        contents(s.push(e)) == contents(s).insert(e.key, (e.priority, e.value)),
{
    let t = s.push(e);
    assert forall|a: int, b: int| 0 <= a < b < t.len() implies t[a].key != t[b].key by {
        if b == s.len() {
            assert(s[a].key != e.key);
        }
    }
    assert forall|k: K| has_key(t, k) implies k == e.key || has_key(s, k) by {
        let j = position_of(t, k);
        if j < s.len() {
            assert(s[j].key == k);
        }
    }
    assert forall|k: K| has_key(s, k) implies has_key(t, k) && t[position_of(t, k)] == s[position_of(
        s,
        k,
    )] by {
        let i = position_of(s, k);
        assert(t[i] == s[i]);
        lemma_position_of(t, i);
    }
    lemma_position_of(t, s.len() as int);
    assert(contents(t) =~= contents(s).insert(e.key, (e.priority, e.value)));
}

/// Replacing an entry by one with the same key rewrites that key in the map.
pub proof fn lemma_updated<P, K, V>(s: Seq<Entry<P, K, V>>, i: int, e: Entry<P, K, V>)
    requires
        keys_distinct(s),
        0 <= i < s.len(),
        e.key == s[i].key,
    ensures
        keys_distinct(s.update(i, e)),
        contents(s.update(i, e)) == contents(s).insert(e.key, (e.priority, e.value)),
{
    let t = s.update(i, e);
    assert forall|a: int, b: int| 0 <= a < b < t.len() implies t[a].key != t[b].key by {
        assert(t[a].key == s[a].key && t[b].key == s[b].key);
    }
    assert forall|k: K| has_key(t, k) implies has_key(s, k) by {
        let j = position_of(t, k);
        assert(s[j].key == k);
    }
    assert forall|k: K| has_key(s, k) implies has_key(t, k) && position_of(t, k) == position_of(
        s,
        k,
    ) by {
        let j = position_of(s, k);
        assert(t[j].key == k);
        lemma_position_of(t, j);
    }
    lemma_position_of(t, i);
    assert(contents(t) =~= contents(s).insert(e.key, (e.priority, e.value)));
}

/// Moving the last entry into place `i` and dropping the last place takes the
/// key that was at `i` out of the map.
pub proof fn lemma_swap_removed<P, K, V>(s: Seq<Entry<P, K, V>>, i: int)
    requires
        keys_distinct(s),
        0 <= i < s.len(),
    ensures
        keys_distinct(s.update(i, s.last()).drop_last()),
        contents(s.update(i, s.last()).drop_last()) == contents(s).remove(s[i].key),
{
    let t = s.update(i, s.last()).drop_last();
    let n = s.len() - 1;
    assert forall|a: int| 0 <= a < t.len() implies t[a] == s[if a == i { n } else { a }] by {}
    assert forall|a: int, b: int| 0 <= a < b < t.len() implies t[a].key != t[b].key by {
        let a0 = if a == i { n } else { a };
        let b0 = if b == i { n } else { b };
        assert(t[a] == s[a0] && t[b] == s[b0]);
        if a0 < b0 {
            assert(s[a0].key != s[b0].key);
        } else {
            assert(s[b0].key != s[a0].key);
        }
    }
    assert forall|k: K| has_key(t, k) implies k != s[i].key && has_key(s, k) && t[position_of(t, k)]
        == s[position_of(s, k)] by {
        let j = position_of(t, k);
        let j0 = if j == i { n } else { j };
        assert(t[j] == s[j0]);
        assert(s[j0].key == k);
        lemma_position_of(s, j0);
        if j0 < i {
            assert(s[j0].key != s[i].key);
        } else {
            assert(s[i].key != s[j0].key);
        }
    }
    assert forall|k: K| has_key(s, k) && k != s[i].key implies has_key(t, k) by {
        let j = position_of(s, k);
        let j1 = if j == n { i } else { j };
        assert(t[j1] == s[j]);
        assert(t[j1].key == k);
    }
    lemma_position_of(s, i);
    assert(contents(t) =~= contents(s).remove(s[i].key));
}

/// With distinct keys the map has as many keys as there are entries.
pub proof fn lemma_contents_len<P, K, V>(s: Seq<Entry<P, K, V>>)
    requires
        keys_distinct(s),
    ensures
        contents(s).dom().finite(),
        contents(s).dom().len() == s.len(),
    decreases s.len(),
{
    if s.len() == 0 {
        assert(contents(s).dom() =~= Set::<K>::empty());
    } else {
        let t = s.drop_last();
        let e = s.last();
        assert(t.push(e) =~= s);
        assert(keys_distinct(t));
        if has_key(t, e.key) {
            let j = position_of(t, e.key);
            assert(s[j].key == s[s.len() - 1].key);
        }
        lemma_contents_len(t);
        lemma_pushed(t, e);
        assert(contents(s).dom() =~= contents(t).dom().insert(e.key));
        assert(!contents(t).dom().contains(e.key));
    }
}

/// In a heap in order no entry is strictly above the root.
pub proof fn lemma_root_maximal<P: PartialOrd, K, V>(s: Seq<Entry<P, K, V>>, i: int)
    requires
        weakly_ordered::<P>(),
        heap_ordered(s),
        0 <= i < s.len(),
    ensures
        !less(s[0].priority, s[i].priority),
    decreases i,
{
    if i > 0 {
        assert(settled(s, i));
        lemma_root_maximal(s, parent(i));
        lemma_not_less_chains(s[0].priority, s[parent(i)].priority, s[i].priority);
    }
}

/// Giving the entry at `i` a new priority rewrites its key in the map, leaves
/// every other entry as it is, and keeps a heap in order.
pub proof fn lemma_reprioritized_at<P: PartialOrd, K, V>(
    s: Seq<Entry<P, K, V>>,
    i: int,
    priority: P,
)
    requires
        keys_distinct(s),
        0 <= i < s.len(),
    ensures
        keys_distinct(reprioritized_at(s, i, priority)),
        reprioritized_at(s, i, priority).len() == s.len(),
        contents(reprioritized_at(s, i, priority)) == contents(s).insert(
            s[i].key,
            (priority, s[i].value),
        ),
        weakly_ordered::<P>() && heap_ordered(s) ==> heap_ordered(reprioritized_at(s, i, priority)),
{
    let e = Entry { priority, key: s[i].key, value: s[i].value };
    let t = s.update(i, e);
    let dir = if greater(priority, s[i].priority) {
        Direction::Up
    } else {
        Direction::Down
    };
    lemma_updated(s, i, e);
    lemma_sift_keeps(t, i, dir);
    if weakly_ordered::<P>() && heap_ordered(s) {
        lemma_ordered_is_ready(s, i, dir);
        assert forall|c: int| 0 < i && 0 < c < t.len() && parent(c) == i implies !less(
            t[parent(i)].priority,
            #[trigger] t[c].priority,
        ) by {
            assert(!less(s[parent(i)].priority, s[c].priority));
        }
        assert forall|j: int|
            (match dir {
                Direction::Up => j != i,
                Direction::Down => parent(j) != i,
            }) implies #[trigger] settled(t, j) by {
            assert(settled(s, j));
            if 0 < j < t.len() {
                if parent(j) == i {
                    if less(priority, s[j].priority) {
                        lemma_less_transitive(s[i].priority, priority, s[j].priority);
                    }
                } else if j == i {
                    lemma_not_less_chains(s[parent(i)].priority, s[i].priority, priority);
                }
            }
        }
        lemma_sift_orders(t, i, dir);
    }
}

/// Inserting rewrites one key of the map and touches no other; it adds an entry
/// exactly when the key is new, and keeps a heap in order.
pub proof fn lemma_inserted<P: PartialOrd, K, V>(
    s: Seq<Entry<P, K, V>>,
    priority: P,
    key: K,
    value: V,
)
    requires
        keys_distinct(s),
    ensures
        keys_distinct(inserted(s, priority, key, value)),
        inserted(s, priority, key, value).len() == s.len() + (if has_key(s, key) {
            0int
        } else {
            1int
        }),
        contents(inserted(s, priority, key, value)) == contents(s).insert(key, (priority, value)),
        weakly_ordered::<P>() && heap_ordered(s) ==> heap_ordered(
            inserted(s, priority, key, value),
        ),
{
    if has_key(s, key) {
        let i = position_of(s, key);
        let e = Entry { priority: s[i].priority, key: s[i].key, value };
        let t = s.update(i, e);
        lemma_updated(s, i, e);
        lemma_reprioritized_at(t, i, priority);
        assert(contents(s).insert(key, (e.priority, value)).insert(key, (priority, value))
            =~= contents(s).insert(key, (priority, value)));
        if weakly_ordered::<P>() && heap_ordered(s) {
            assert forall|j: int| #[trigger] settled(t, j) by {
                assert(settled(s, j));
            }
        }
    } else {
        let e = Entry { priority, key, value };
        let t = s.push(e);
        let n = s.len() as int;
        lemma_pushed(s, e);
        lemma_sift_keeps(t, n, Direction::Up);
        if weakly_ordered::<P>() && heap_ordered(s) {
            assert forall|j: int| j != n implies #[trigger] settled(t, j) by {
                assert(settled(s, j));
            }
            lemma_sift_orders(t, n, Direction::Up);
        }
    }
}

/// Taking out the entry at `i` takes its key out of the map, touches no other
/// key, and keeps a heap in order.
pub proof fn lemma_removed_at<P: PartialOrd, K, V>(s: Seq<Entry<P, K, V>>, i: int)
    requires
        keys_distinct(s),
        0 <= i < s.len(),
    ensures
        keys_distinct(removed_at(s, i)),
        removed_at(s, i).len() == s.len() - 1,
        contents(removed_at(s, i)) == contents(s).remove(s[i].key),
        weakly_ordered::<P>() && heap_ordered(s) ==> heap_ordered(removed_at(s, i)),
{
    let t = s.update(i, s.last()).drop_last();
    let dir = if lesser_parent(t, i) is Some {
        Direction::Up
    } else {
        Direction::Down
    };
    lemma_swap_removed(s, i);
    if i < t.len() {
        lemma_sift_keeps(t, i, dir);
    }
    if weakly_ordered::<P>() && heap_ordered(s) {
        if i < t.len() {
            lemma_ordered_is_ready(s, i, dir);
            assert forall|c: int| 0 < i && 0 < c < t.len() && parent(c) == i implies !less(
                t[parent(i)].priority,
                #[trigger] t[c].priority,
            ) by {
                assert(!less(s[parent(i)].priority, s[c].priority));
            }
            assert forall|j: int|
                (match dir {
                    Direction::Up => j != i,
                    Direction::Down => parent(j) != i,
                }) implies #[trigger] settled(t, j) by {
                assert(settled(s, j));
                if 0 < j < t.len() && parent(j) == i && less(t[i].priority, s[j].priority) {
                    // the entry that came in is above the parent of `i`, which
                    // is not below any child of `i`
                    lemma_less_transitive(s[parent(i)].priority, t[i].priority, s[j].priority);
                }
            }
            lemma_sift_orders(t, i, dir);
        } else {
            assert forall|j: int| #[trigger] settled(t, j) by {
                assert(settled(s, j));
            }
        }
    }
}

/// An index that mirrors the entries shows that their keys are distinct, and it
/// records exactly the keys of the map, each with its position.
pub proof fn lemma_indexed<P, K, V>(s: Seq<Entry<P, K, V>>, index: Map<K, usize>)
    requires
        indexed_by(s, index),
    ensures
        keys_distinct(s),
        index.dom() == contents(s).dom(),
        forall|k: K| #[trigger] index.contains_key(k) ==> has_key(s, k) && position_of(s, k) == index[k],
{
    assert forall|i: int, j: int| 0 <= i < j < s.len() implies s[i].key != s[j].key by {
        assert(index[s[i].key] == i && index[s[j].key] == j);
    }
    assert forall|k: K| #[trigger] index.contains_key(k) implies has_key(s, k) && position_of(s, k)
        == index[k] by {
        lemma_position_of(s, index[k] as int);
    }
    assert forall|k: K| has_key(s, k) implies index.contains_key(k) by {
        let i = position_of(s, k);
        assert(index.contains_key(s[i].key));
    }
    assert(index.dom() =~= contents(s).dom());
}

} // verus!
