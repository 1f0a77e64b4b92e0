use prioritymap::PriorityMap;

#[test]
fn insert() {
    let mut map = PriorityMap::new();
    assert_eq!(map.len(), 0);
    assert_eq!(map.peek(), None);
    assert_eq!(map.pop(), None);

    map.insert(2, "b", "2");
    map.insert(7, "g", "7");
    map.insert(1, "a", "1");
    map.insert(6, "f", "6");
    map.insert(5, "e", "5");
    map.insert(3, "c", "3");
    map.insert(4, "d", "4");

    assert_eq!(map.len(), 7);
    assert_eq!(map.peek(), Some(&"7"));

    assert_eq!(map.pop(), Some("7"));
    assert_eq!(map.pop(), Some("6"));
    assert_eq!(map.pop(), Some("5"));
    assert_eq!(map.pop(), Some("4"));
    assert_eq!(map.pop(), Some("3"));
    assert_eq!(map.pop(), Some("2"));
    assert_eq!(map.pop(), Some("1"));

    assert_eq!(map.len(), 0);
    assert_eq!(map.peek(), None);
    assert_eq!(map.pop(), None);

    assert_eq!(map.len(), 0);
}

#[test]
fn reprioritize() {
    let mut map = PriorityMap::new();
    map.insert(1, "a", "1");
    map.insert(2, "b", "2");
    map.insert(3, "c", "3");

    map.reprioritize(&"b", 200);

    assert_eq!(map.pop(), Some("2"));
    assert_eq!(map.pop(), Some("3"));
    assert_eq!(map.pop(), Some("1"));
}

#[test]
fn replace() {
    let mut map = PriorityMap::new();
    map.insert(1, "a", "1");
    map.insert(2, "b", "2");
    map.insert(3, "c", "3");

    map.insert(200, "b", "200");

    assert_eq!(map.pop(), Some("200"));
    assert_eq!(map.pop(), Some("3"));
    assert_eq!(map.pop(), Some("1"));
}

#[test]
fn remove() {
    for (key, expected_value, expected_order) in [
        ("a", "1", ["3", "2"]),
        ("b", "2", ["3", "1"]),
        ("c", "3", ["2", "1"]),
    ] {
        let mut map = PriorityMap::new();
        assert!(map.remove(&key).is_none());

        map.insert(1, "a", "1");
        map.insert(2, "b", "2");
        map.insert(3, "c", "3");

        assert_eq!(map.remove(&key), Some(expected_value));
        assert!(map.remove(&key).is_none());

        assert_eq!(map.pop(), Some(expected_order[0]));
        assert_eq!(map.pop(), Some(expected_order[1]));
        assert!(map.pop().is_none());
    }
}

#[test]
fn ascending_inserts_pop_in_descending_order() {
    let mut map = PriorityMap::new();
    for (priority, key) in (1..=7).zip(["a", "b", "c", "d", "e", "f", "g"]) {
        map.insert(priority, key, priority.to_string());
    }
    assert_eq!(map.len(), 7);
    assert_eq!(map.peek(), Some(&"7".to_string()));
    let mut popped = Vec::new();
    while let Some(value) = map.pop() {
        popped.push(value);
    }
    assert_eq!(popped, vec!["7", "6", "5", "4", "3", "2", "1"]);
    assert_eq!(map.len(), 0);
    assert_eq!(map.peek(), None);
    assert_eq!(map.pop(), None);
}

#[test]
fn removed_key_is_gone_and_the_rest_pops_in_order() {
    let mut map = PriorityMap::new();
    map.insert(1, "a", "1");
    map.insert(2, "b", "2");
    map.insert(3, "c", "3");
    assert_eq!(map.remove(&"a"), Some("1"));
    assert_eq!(map.remove(&"a"), None);
    assert_eq!(map.pop(), Some("3"));
    assert_eq!(map.pop(), Some("2"));
    assert_eq!(map.pop(), None);
}

#[test]
fn len_counts_entries_added_less_entries_taken() {
    let mut map = PriorityMap::new();
    map.insert(4, 40u64, 'd');
    assert_eq!(map.len(), 1);
    map.insert(9, 90u64, 'z');
    assert_eq!(map.len(), 2);
    // an insert of a key that is present adds nothing
    map.insert(1, 40u64, 'e');
    assert_eq!(map.len(), 2);
    // a reprioritize never changes the size
    assert_eq!(map.reprioritize(&90, 0), Some(9));
    assert_eq!(map.reprioritize(&77, 5), None);
    assert_eq!(map.len(), 2);
    // a remove that finds nothing takes nothing
    assert_eq!(map.remove(&77), None);
    assert_eq!(map.len(), 2);
    assert_eq!(map.remove(&90), Some('z'));
    assert_eq!(map.len(), 1);
    assert_eq!(map.pop(), Some('e'));
    assert_eq!(map.len(), 0);
    // a pop that finds nothing takes nothing
    assert_eq!(map.pop(), None);
    assert_eq!(map.len(), 0);
}

#[test]
fn pops_never_rise_when_priorities_tie() {
    let mut map = PriorityMap::new();
    let priorities = [3, 1, 3, 2, 1, 5, 2, 5, 4, 1];
    for (key, priority) in priorities.iter().enumerate() {
        map.insert(*priority, key, *priority);
    }
    let mut popped = Vec::new();
    while let Some(priority) = map.pop() {
        popped.push(priority);
    }
    assert_eq!(popped, vec![5, 5, 4, 3, 3, 2, 2, 1, 1, 1]);
}

#[test]
fn reprioritize_there_and_back_restores_the_pop_order() {
    let mut map = PriorityMap::new();
    map.insert(1, "a", "1");
    map.insert(2, "b", "2");
    map.insert(3, "c", "3");
    map.insert(4, "d", "4");
    assert_eq!(map.reprioritize(&"b", 200), Some(2));
    assert_eq!(map.peek(), Some(&"2"));
    assert_eq!(map.reprioritize(&"b", 2), Some(200));
    assert_eq!(map.len(), 4);
    assert_eq!(map.pop(), Some("4"));
    assert_eq!(map.pop(), Some("3"));
    assert_eq!(map.pop(), Some("2"));
    assert_eq!(map.pop(), Some("1"));
    assert_eq!(map.pop(), None);
}

#[test]
fn second_insert_of_a_key_replaces_priority_and_value() {
    let mut map = PriorityMap::new();
    map.insert(1, "k", "first");
    map.insert(5, "other", "o");
    map.insert(9, "k", "second");
    assert_eq!(map.len(), 2);
    assert_eq!(map.peek(), Some(&"second"));
    assert_eq!(map.remove(&"k"), Some("second"));
    assert_eq!(map.remove(&"k"), None);
    assert_eq!(map.pop(), Some("o"));
    assert_eq!(map.pop(), None);
}

#[test]
fn insert_of_a_present_key_can_lower_its_priority() {
    let mut map = PriorityMap::new();
    map.insert(3, "c", "3");
    map.insert(2, "b", "2");
    map.insert(1, "a", "1");
    map.insert(0, "c", "0");
    assert_eq!(map.pop(), Some("2"));
    assert_eq!(map.pop(), Some("1"));
    assert_eq!(map.pop(), Some("0"));
    assert_eq!(map.pop(), None);
}

#[test]
fn reprioritize_hands_back_the_previous_priority() {
    let mut map = PriorityMap::new();
    map.insert(1, "a", "1");
    map.insert(2, "b", "2");
    map.insert(3, "c", "3");
    assert_eq!(map.reprioritize(&"c", 0), Some(3));
    assert_eq!(map.reprioritize(&"c", 0), Some(0));
    assert_eq!(map.reprioritize(&"z", 7), None);
    assert_eq!(map.pop(), Some("2"));
    assert_eq!(map.pop(), Some("1"));
    assert_eq!(map.pop(), Some("3"));
}

#[test]
fn peek_shows_what_pop_takes() {
    let mut map = PriorityMap::new();
    map.insert(10, 1u8, String::from("ten"));
    map.insert(30, 3u8, String::from("thirty"));
    map.insert(20, 2u8, String::from("twenty"));
    assert_eq!(map.peek(), Some(&String::from("thirty")));
    assert_eq!(map.len(), 3);
    assert_eq!(map.pop(), Some(String::from("thirty")));
    assert_eq!(map.peek(), Some(&String::from("twenty")));
    assert_eq!(map.pop(), Some(String::from("twenty")));
    assert_eq!(map.peek(), Some(&String::from("ten")));
}

#[test]
fn ties_do_not_move_on_the_way_up() {
    let mut map = PriorityMap::new();
    map.insert(1, "a", "a");
    map.insert(1, "b", "b");
    map.insert(1, "c", "c");
    // the storage is a, b, c; after the first pop, c takes the root and stays
    assert_eq!(map.pop(), Some("a"));
    assert_eq!(map.pop(), Some("c"));
    assert_eq!(map.pop(), Some("b"));
}

#[test]
fn falling_entry_takes_the_left_child_when_children_tie() {
    let mut map = PriorityMap::new();
    map.insert(5, "r", "r");
    map.insert(3, "x", "x");
    map.insert(3, "y", "y");
    assert_eq!(map.reprioritize(&"r", 1), Some(5));
    // r fell to the left, so x is the root, y its right child
    assert_eq!(map.pop(), Some("x"));
    assert_eq!(map.pop(), Some("y"));
    assert_eq!(map.pop(), Some("r"));
}

#[test]
fn falling_entry_takes_the_right_child_when_it_is_greater() {
    let mut map = PriorityMap::new();
    map.insert(5, "r", "r");
    map.insert(3, "x", "x");
    map.insert(4, "y", "y");
    assert_eq!(map.reprioritize(&"r", 1), Some(5));
    assert_eq!(map.pop(), Some("y"));
    assert_eq!(map.pop(), Some("x"));
    assert_eq!(map.pop(), Some("r"));
}

#[test]
fn remove_of_the_only_entry_empties_the_map() {
    let mut map = PriorityMap::new();
    map.insert(1, 'k', 11);
    assert_eq!(map.remove(&'k'), Some(11));
    assert_eq!(map.len(), 0);
    assert_eq!(map.peek(), None);
    map.insert(2, 'k', 22);
    assert_eq!(map.pop(), Some(22));
}

#[test]
fn remove_of_the_last_slot_moves_nothing() {
    let mut map = PriorityMap::new();
    map.insert(3, "c", "3");
    map.insert(2, "b", "2");
    map.insert(1, "a", "1");
    assert_eq!(map.remove(&"a"), Some("1"));
    assert_eq!(map.len(), 2);
    assert_eq!(map.pop(), Some("3"));
    assert_eq!(map.pop(), Some("2"));
}

#[test]
fn remove_of_the_root_lets_the_last_entry_fall() {
    let mut map = PriorityMap::new();
    for priority in [9, 7, 8, 1, 2, 3, 4] {
        map.insert(priority, priority, priority);
    }
    assert_eq!(map.remove(&9), Some(9));
    let mut popped = Vec::new();
    while let Some(priority) = map.pop() {
        popped.push(priority);
    }
    assert_eq!(popped, vec![8, 7, 4, 3, 2, 1]);
}

#[test]
fn remove_lets_the_replacing_entry_rise() {
    let mut map = PriorityMap::new();
    for (priority, key) in [(10, "a"), (2, "b"), (8, "c"), (1, "d"), (0, "e"), (-1, "f"), (6, "g")] {
        map.insert(priority, key, priority);
    }
    // d sits under b; g, the last entry, takes its place and is above b
    assert_eq!(map.remove(&"d"), Some(1));
    assert_eq!(map.len(), 6);
    let mut popped = Vec::new();
    while let Some(priority) = map.pop() {
        popped.push(priority);
    }
    assert_eq!(popped, vec![10, 8, 6, 2, 0, -1]);
}

#[test]
fn pops_stay_in_order_after_remove_and_reprioritize() {
    let mut map = PriorityMap::new();
    for (priority, key) in [(10, "j"), (5, "e"), (9, "i"), (1, "a"), (2, "b"), (8, "h")] {
        map.insert(priority, key, priority.to_string());
    }
    assert_eq!(map.remove(&"a"), Some("1".to_string()));
    assert_eq!(map.reprioritize(&"j", 6), Some(10));
    assert_eq!(map.peek(), Some(&"9".to_string()));
    assert_eq!(map.pop(), Some("9".to_string()));
    assert_eq!(map.peek(), Some(&"8".to_string()));
    // setting the key of 8 aside and back changes nothing that pops show
    assert_eq!(map.reprioritize(&"h", 0), Some(8));
    assert_eq!(map.reprioritize(&"h", 8), Some(0));
    assert_eq!(map.pop(), Some("8".to_string()));
    assert_eq!(map.pop(), Some("10".to_string()));
    assert_eq!(map.pop(), Some("5".to_string()));
    assert_eq!(map.pop(), Some("2".to_string()));
    assert_eq!(map.pop(), None);
}

#[test]
fn removes_in_any_place_keep_the_pops_sorted() {
    for victim in 0..40u32 {
        let mut map = PriorityMap::new();
        let mut priority: u64 = 99;
        for key in 0..40u32 {
            priority = priority.wrapping_mul(6364136223846793005).wrapping_add(1442695040888963407);
            map.insert(priority >> 56, key, priority >> 56);
        }
        assert!(map.remove(&victim).is_some());
        assert!(map.remove(&((victim + 7) % 40)).is_some());
        assert_eq!(map.len(), 38);
        let mut last = u64::MAX;
        while let Some(priority) = map.pop() {
            assert!(priority <= last);
            last = priority;
        }
    }
}

#[test]
fn many_keys_come_out_sorted() {
    let mut map = PriorityMap::new();
    let mut priority: u64 = 12345;
    for key in 0..500u32 {
        priority = priority.wrapping_mul(6364136223846793005).wrapping_add(1442695040888963407);
        map.insert(priority >> 40, key, priority >> 40);
    }
    for key in (0..500u32).step_by(3) {
        let next = (key as u64 * 7919) % 1000;
        map.reprioritize(&key, next);
        map.insert(next, key, next);
    }
    assert_eq!(map.len(), 500);
    let mut last = u64::MAX;
    let mut count = 0;
    while let Some(priority) = map.pop() {
        assert!(priority <= last);
        last = priority;
        count += 1;
    }
    assert_eq!(count, 500);
}
