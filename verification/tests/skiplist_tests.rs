use memtable::skiplist::{add_marker, get_marker, get_node, SkipList};

#[test]
fn test_skiplist() {
    let mut skiplist: SkipList<&str> = SkipList::new();
    let hp_record = 0;
    skiplist.add(0, "a", hp_record);
    skiplist.add(1, "b", hp_record);
    skiplist.add(2, "c", hp_record);
    skiplist.add(3, "d", hp_record);
    skiplist.add(4, "e", hp_record);
    skiplist.add(5, "f", hp_record);
    skiplist.add(6, "g", hp_record);
    skiplist.add(7, "h", hp_record);
    skiplist.add(8, "i", hp_record);
    skiplist.add(9, "j", hp_record);

    let result = skiplist.find(0, hp_record);
    assert!(result.success);
    let result = skiplist.find(1, hp_record);
    assert!(result.success);
    let result = skiplist.find(2, hp_record);
    assert!(result.success);
    let result = skiplist.find(3, hp_record);
    assert!(result.success);
    let result = skiplist.find(4, hp_record);
    assert!(result.success);
    let result = skiplist.find(5, hp_record);
    assert!(result.success);
    let result = skiplist.find(6, hp_record);
    assert!(result.success);
    let result = skiplist.find(7, hp_record);
    assert!(result.success);
    let result = skiplist.find(8, hp_record);
    assert!(result.success);
    let result = skiplist.find(9, hp_record);
    assert!(result.success);
}

#[test]
fn test_skiplist_remove() {
    let mut skiplist: SkipList<&str> = SkipList::new();
    let hp_record = 0;

    skiplist.add(0, "a", hp_record);
    skiplist.add(1, "b", hp_record);
    skiplist.add(2, "c", hp_record);
    skiplist.add(3, "d", hp_record);
    skiplist.add(4, "e", hp_record);
    skiplist.add(5, "f", hp_record);
    skiplist.add(6, "g", hp_record);
    skiplist.add(7, "h", hp_record);
    skiplist.add(8, "i", hp_record);
    skiplist.add(9, "j", hp_record);

    let success = skiplist.remove(0, hp_record);
    assert!(success);
    let result = skiplist.find(0, hp_record);
    assert!(!result.success);
    let success = skiplist.remove(1, hp_record);
    assert!(success);
    let result = skiplist.find(1, hp_record);
    assert!(!result.success);
    let success = skiplist.remove(2, hp_record);
    assert!(success);
    let result = skiplist.find(2, hp_record);
    assert!(!result.success);
    let success = skiplist.remove(3, hp_record);
    assert!(success);
    let result = skiplist.find(3, hp_record);
    assert!(!result.success);
}

// The single-thread soak: ten inserts, ten hits, four removals, then the
// removed keys miss and the rest still hit.
#[test]
fn test_skiplist_add_find_remove_cycle() {
    let mut list: SkipList<&str> = SkipList::new();
    let vals = ["a", "b", "c", "d", "e", "f", "g", "h", "i", "j"];
    for i in 0..10 {
        assert!(list.add(i as i128, vals[i], 0));
    }
    for i in 0..10 {
        assert!(list.find(i as i128, 0).success);
    }
    for i in 0..4 {
        assert!(list.remove(i as i128, 0));
    }
    for i in 0..4 {
        assert!(!list.find(i as i128, 0).success);
    }
    for i in 4..10 {
        assert!(list.find(i as i128, 0).success);
    }
}

// Removing distinct keys one by one: each removal succeeds once, and the
// final state holds exactly the untouched keys.
#[test]
fn test_skiplist_remove_distinct_keys() {
    let mut list: SkipList<&str> = SkipList::new();
    let vals = ["a", "b", "c", "d", "e", "f", "g", "h", "i", "j"];
    for i in 0..10 {
        list.add(i as i128, vals[i], 0);
    }
    for i in 0..4 {
        assert!(list.remove(i as i128, 0));
        assert!(!list.remove(i as i128, 0));
    }
    for i in 0..4 {
        assert!(!list.find(i as i128, 0).success);
    }
    for i in 4..10 {
        assert!(list.find(i as i128, 0).success);
    }
}

#[test]
fn test_skiplist_add_twice_is_rejected() {
    let mut list: SkipList<&str> = SkipList::new();
    assert!(list.add(5, "x", 0));
    assert!(!list.add(5, "y", 0));
    assert_eq!(list.get(5, 0), Some("x"));
}

#[test]
fn test_skiplist_get() {
    let mut list: SkipList<u64> = SkipList::new();
    assert_eq!(list.get(7, 0), None);
    list.add(7, 70, 0);
    assert_eq!(list.get(7, 0), Some(70));
    list.remove(7, 0);
    assert_eq!(list.get(7, 0), None);
}

#[test]
fn test_marker_helpers() {
    let ptr: usize = 8;
    assert!(!get_marker(ptr));
    let tagged = add_marker(ptr, true);
    assert!(get_marker(tagged));
    assert_eq!(get_node(tagged), 8);
    assert_eq!(add_marker(tagged, false), 8);
    assert_eq!(get_node(9), 8);
}

#[test]
fn test_generate_random_lvl_is_capped() {
    for _ in 0..100 {
        let lvl = memtable::util::generate_random_lvl(31);
        assert!(lvl <= 31);
    }
    assert_eq!(memtable::util::generate_random_lvl(0), 0);
}

#[test]
fn test_cap_level_is_exact() {
    assert_eq!(memtable::util::cap_level(5, 31), 5);
    assert_eq!(memtable::util::cap_level(31, 31), 31);
    assert_eq!(memtable::util::cap_level(32, 31), 31);
    assert_eq!(memtable::util::cap_level(0, 0), 0);
    assert_eq!(memtable::util::cap_level(7, 0), 0);
}
