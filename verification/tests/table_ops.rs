use chaining_map::hash_strategy::BytePairHasher;
use chaining_map::table::ChainingHashMap;

#[test]
fn chaining_map_insert() {
    let mut map = ChainingHashMap::new();

    let result1 = map.insert("yes".to_string(), 123);
    assert_eq!(result1, None);

    let result2 = map.insert("no".to_string(), 456);
    assert_eq!(result2, None);

    let result3 = map.insert("yes".to_string(), 456);
    assert_eq!(result3.unwrap(), 123);

    assert_eq!(map.len(), 2)
}

#[test]
fn chaining_map_insert_and_resize() {
    let cap = 10;
    let mut map = ChainingHashMap::with_capacity(cap);

    for i in 0..cap {
        let result = map.insert(i.to_string(), i);
        assert_eq!(result, None);
    }

    for i in 0..cap {
        let result = map.get(&i.to_string());
        assert_eq!(result, Some(i).as_ref());
    }
}

#[test]
fn chaining_map_get() {
    let mut map = ChainingHashMap::new();

    map.insert("yes".to_string(), 123);
    map.insert("no".to_string(), 456);

    assert_eq!(map.get(&"yes".to_string()), Some(123).as_ref());
    assert_eq!(map.get(&"no".to_string()), Some(456).as_ref());
    assert_eq!(map.get(&"maybe".to_string()), None.as_ref());
}

#[test]
fn get_mut() {
    let mut map = ChainingHashMap::new();

    map.insert("yes".to_string(), 123);

    assert_eq!(map.get(&"yes".to_string()), Some(123).as_ref());

    let item = map.get_mut(&"yes".to_string());

    assert!(item.is_some(), "Expected entry is not present");

    if let Some(value) = item {
        *value += 1;
    }

    assert_eq!(map.get(&"yes".to_string()), Some(124).as_ref());
}

#[test]
fn remove_entry() {
    let cap = 10;
    let mut map = ChainingHashMap::with_capacity(cap);

    for i in 0..cap {
        let result = map.insert(i.to_string(), i);
        assert_eq!(result, None);
    }

    assert_eq!(map.remove(&"100".to_string()), None);

    for i in 0..cap {
        let result = map.remove_entry(&i.to_string());
        assert_eq!(result.unwrap(), (i.to_string(), i));
    }
}

#[test]
fn remove() {
    let cap = 10;
    let mut map = ChainingHashMap::with_capacity(cap);

    for i in 0..cap {
        let result = map.insert(i.to_string(), i);
        assert_eq!(result, None);
    }

    assert_eq!(map.remove(&"100".to_string()), None);

    for i in 0..cap {
        let result = map.remove(&i.to_string());
        assert_eq!(result.unwrap(), i);
    }
}

#[test]
fn grow_and_shrink_len() {
    let cap = 10;
    let mut map = ChainingHashMap::with_capacity(cap);

    for i in 0..cap {
        let result = map.insert(i.to_string(), i);
        assert_eq!(result, None);
        assert_eq!(map.len(), i + 1);
    }

    assert_eq!(map.remove(&"100".to_string()), None);

    for i in 0..cap {
        let result = map.remove(&i.to_string());
        assert_eq!(result.unwrap(), i);
        assert_eq!(map.len(), 10 - i - 1);
    }

    for i in 0..cap {
        let result = map.insert(i.to_string(), i);
        assert_eq!(result, None);
        assert_eq!(map.len(), i + 1);
    }

    assert_eq!(map.remove(&"100".to_string()), None);

    for i in 0..cap {
        let result = map.remove_entry(&i.to_string());
        assert_eq!(result.unwrap(), (i.to_string(), i));
        assert_eq!(map.len(), 10 - i - 1);
    }
}

#[test]
fn clear() {
    let cap = 100;
    let mut map = ChainingHashMap::with_capacity(cap);

    for i in 0..cap {
        map.insert(i.to_string(), i);
    }

    assert_eq!(map.len(), cap);

    map.clear();

    assert_eq!(map.len(), 0);
}

#[test]
fn naive_chaining_map_insert() {
    let mut map = ChainingHashMap::with_hasher(BytePairHasher::new());

    let result1 = map.insert("yes".to_string(), 123);
    assert_eq!(result1, None);

    let result2 = map.insert("no".to_string(), 456);
    assert_eq!(result2, None);

    let result3 = map.insert("yes".to_string(), 456);
    assert_eq!(result3, Some(123));

    assert_eq!(map.len(), 2)
}

#[test]
fn naive_chaining_map_insert_and_resize() {
    let cap = 10;
    let mut map = ChainingHashMap::with_capacity_and_hasher(cap, BytePairHasher::new());

    for i in 0..cap {
        let result = map.insert(i.to_string(), i);
        assert_eq!(result, None);
    }

    for i in 0..cap {
        let result = map.get(&i.to_string());
        assert_eq!(result, Some(i).as_ref());
    }
}

#[test]
fn naive_chaining_map_get() {
    let mut map = ChainingHashMap::with_hasher(BytePairHasher::new());

    map.insert("yes".to_string(), 123);
    map.insert("no".to_string(), 456);

    assert_eq!(map.get(&"yes".to_string()), Some(123).as_ref());
    assert_eq!(map.get(&"no".to_string()), Some(456).as_ref());
    assert_eq!(map.get(&"maybe".to_string()), None.as_ref());
}
