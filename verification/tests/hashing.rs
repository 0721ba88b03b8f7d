use chaining_map::hash_strategy::{hash, BytePairHasher, RandomizedHasher};
use chaining_map::table::ChainingHashMap;

// "ab" is the pair (97, 98): 97 shifted left by 1 plus 98 shifted left
// by 2, so 194 + 392.
#[test]
fn byte_pair_hash_of_one_pair() {
    assert_eq!(hash("ab", &None), 586);
}

// A salt adds its value to the digest.
#[test]
fn byte_pair_hash_with_salt() {
    let salt = 5;
    assert_eq!(hash("ab", &Some(&salt)), 591);
}

// "abc" leaves 99 alone in its pair, weighted like a first byte:
// 97 * 2 + 98 * 4 + 99 * 2.
#[test]
fn byte_pair_hash_of_odd_length() {
    assert_eq!(hash("abc", &None), 784);
}

#[test]
fn byte_pair_hash_of_empty_key() {
    assert_eq!(hash("", &None), 0);
    let salt = 17;
    assert_eq!(hash("", &Some(&salt)), 17);
}

#[test]
fn byte_pair_hash_is_deterministic() {
    let salt = 11;
    assert_eq!(hash("hello", &Some(&salt)), hash("hello", &Some(&salt)));
    assert_ne!(hash("ab", &None), hash("ba", &None));
}

#[test]
fn table_with_byte_pair_strategy() {
    let mut map = ChainingHashMap::with_capacity_and_hasher(10, BytePairHasher::with_salt(7));

    assert_eq!(map.hasher().salt, Some(7));

    for i in 0..20 {
        assert_eq!(map.insert(i.to_string(), i), None);
    }
    for i in 0..20 {
        assert_eq!(map.get(&i.to_string()), Some(&i));
    }
    assert_eq!(map.hasher().salt, Some(7));
}

#[test]
fn table_with_seeded_strategy() {
    let mut map = ChainingHashMap::with_hasher(RandomizedHasher::with_seed(42));

    for i in 0..50 {
        assert_eq!(map.insert(i.to_string(), i), None);
    }
    assert_eq!(map.len(), 50);
    for i in 0..50 {
        assert_eq!(map.get(&i.to_string()), Some(&i));
    }
}

// Colliding keys land in one chain and are still told apart by equality.
#[test]
fn colliding_keys_are_kept_apart() {
    // Under the byte-pair hash, "ab" and "ba" both sum to 586 when the
    // pair order is swapped with matching weights: craft true collisions
    // instead from keys whose digests are equal.
    let mut map = ChainingHashMap::with_capacity_and_hasher(10, BytePairHasher::new());

    // "ca" = 99 * 2 + 97 * 4 = 586, the digest of "ab" as well.
    assert_eq!(hash("ab", &None), hash("ca", &None));

    assert_eq!(map.insert("ab".to_string(), 1), None);
    assert_eq!(map.insert("ca".to_string(), 2), None);
    assert_eq!(map.len(), 2);
    assert_eq!(map.get(&"ab".to_string()), Some(&1));
    assert_eq!(map.get(&"ca".to_string()), Some(&2));
    assert_eq!(map.remove(&"ab".to_string()), Some(1));
    assert_eq!(map.get(&"ca".to_string()), Some(&2));
}
