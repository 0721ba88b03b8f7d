use chaining_map::hash_strategy::BytePairHasher;
use chaining_map::table::ChainingHashMap;

// An effective capacity of 10 makes a backing of 14 slots (10 * 10 / 7).
#[test]
fn replace_value_keeps_len() {
    let mut map = ChainingHashMap::with_capacity(10);

    assert_eq!(map.insert("yes".to_string(), 123), None);
    assert_eq!(map.insert("no".to_string(), 456), None);
    assert_eq!(map.insert("yes".to_string(), 456), Some(123));

    assert_eq!(map.len(), 2);
    assert_eq!(map.get(&"yes".to_string()), Some(&456));
}

// Ten entries fit a 14-slot backing under the 7/10 threshold; the
// eleventh insert finds 10 * 10 > 7 * 14 and doubles the capacity first.
// Every entry stays retrievable across the rehash.
#[test]
fn growth_doubles_capacity_and_keeps_entries() {
    let mut map = ChainingHashMap::with_capacity(10);
    assert_eq!(map.capacity(), 14);

    for i in 0..10 {
        assert_eq!(map.insert(i.to_string(), i), None);
    }
    assert_eq!(map.len(), 10);
    assert_eq!(map.get(&"5".to_string()), Some(&5));
    assert_eq!(map.capacity(), 14);

    assert_eq!(map.insert("10".to_string(), 10), None);
    assert_eq!(map.capacity(), 28);
    assert_eq!(map.len(), 11);
    for i in 0..11 {
        assert_eq!(map.get(&i.to_string()), Some(&i));
    }
}

#[test]
fn clear_empties_but_keeps_capacity() {
    let mut map = ChainingHashMap::with_capacity(100);
    let slots = map.capacity();

    for i in 0..100 {
        map.insert(i.to_string(), i);
    }
    assert_eq!(map.len(), 100);

    map.clear();

    assert_eq!(map.len(), 0);
    assert!(map.is_empty());
    assert_eq!(map.get(&"5".to_string()), None);
    assert_eq!(map.capacity(), slots);
}

#[test]
fn remove_from_untouched_slot_returns_absent() {
    let mut map: ChainingHashMap<i32> = ChainingHashMap::with_capacity(10);

    assert_eq!(map.remove(&"100".to_string()), None);
    assert_eq!(map.len(), 0);
}

#[test]
fn never_inserted_key_is_absent() {
    let mut map = ChainingHashMap::new();
    map.insert("present".to_string(), 1);

    assert_eq!(map.get(&"missing".to_string()), None);
    assert_eq!(map.remove(&"missing".to_string()), None);
    assert_eq!(map.remove_entry(&"missing".to_string()), None);
    assert_eq!(map.len(), 1);
}

#[test]
fn insert_new_key_increments_len() {
    let mut map = ChainingHashMap::new();
    assert!(map.is_empty());

    assert_eq!(map.insert("a".to_string(), 7), None);
    assert_eq!(map.len(), 1);
    assert_eq!(map.get(&"a".to_string()), Some(&7));

    assert_eq!(map.insert("b".to_string(), 8), None);
    assert_eq!(map.len(), 2);
}

#[test]
fn remove_after_insert_decrements_len() {
    let mut map = ChainingHashMap::new();
    map.insert("a".to_string(), 7);
    map.insert("b".to_string(), 8);

    assert_eq!(map.remove(&"a".to_string()), Some(7));
    assert_eq!(map.get(&"a".to_string()), None);
    assert_eq!(map.len(), 1);
    assert_eq!(map.get(&"b".to_string()), Some(&8));
}

#[test]
fn remove_absent_leaves_entries_alone() {
    let mut map = ChainingHashMap::new();
    map.insert("a".to_string(), 7);
    map.insert("b".to_string(), 8);

    assert_eq!(map.remove(&"c".to_string()), None);
    assert_eq!(map.len(), 2);
    assert_eq!(map.get(&"a".to_string()), Some(&7));
    assert_eq!(map.get(&"b".to_string()), Some(&8));
}

#[test]
fn lookups_do_not_disturb_entries() {
    let mut map = ChainingHashMap::new();
    map.insert("a".to_string(), 7);
    map.insert("b".to_string(), 8);

    let _ = map.get(&"a".to_string());
    let reference = map.get_mut(&"b".to_string());
    assert_eq!(reference, Some(&mut 8));

    assert_eq!(map.len(), 2);
    assert_eq!(map.get(&"a".to_string()), Some(&7));
    assert_eq!(map.get(&"b".to_string()), Some(&8));
}

#[test]
fn get_mut_on_absent_key() {
    let mut map: ChainingHashMap<i32> = ChainingHashMap::new();
    map.insert("a".to_string(), 7);

    assert_eq!(map.get_mut(&"b".to_string()), None);
    assert_eq!(map.len(), 1);
}

#[test]
fn empty_string_key() {
    let mut map = ChainingHashMap::new();

    assert_eq!(map.insert("".to_string(), 9), None);
    assert_eq!(map.get(&"".to_string()), Some(&9));
    assert_eq!(map.remove(&"".to_string()), Some(9));
    assert_eq!(map.get(&"".to_string()), None);
}

#[test]
fn multibyte_keys() {
    let mut map = ChainingHashMap::with_hasher(BytePairHasher::with_salt(3));

    assert_eq!(map.insert("k\u{e9}y".to_string(), 1), None);
    assert_eq!(map.insert("k\u{e8}y".to_string(), 2), None);
    assert_eq!(map.get(&"k\u{e9}y".to_string()), Some(&1));
    assert_eq!(map.get(&"k\u{e8}y".to_string()), Some(&2));
}

#[test]
fn distinct_keys_all_retrievable_across_growth() {
    let mut map = ChainingHashMap::with_capacity(1);

    for i in 0..200 {
        assert_eq!(map.insert(format!("key-{}", i), i), None);
        assert_eq!(map.len(), i + 1);
    }
    for i in 0..200 {
        assert_eq!(map.get(&format!("key-{}", i)), Some(&i));
    }
}
