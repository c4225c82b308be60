use std::collections::hash_map::DefaultHasher;
use std::collections::HashSet;
use std::hash::{Hash, Hasher};

use hash_table::{
    ConstantHasher, DefaultSimpleHasher, Entry, HashTable, SimpleHasher, TableKey,
    DEFAULT_CAPACITY,
};

fn key(i: usize) -> String {
    format!("key{}", i)
}

fn traversal<K: Clone, V: Clone, H>(t: &HashTable<K, V, H>) -> Vec<(K, V)> {
    let mut out = Vec::new();
    let mut it = t.iter();
    while let Some((k, v)) = it.next() {
        out.push((k.clone(), v.clone()));
    }
    out
}

#[test]
fn round_trip_for_many_keys() {
    let mut t = HashTable::new();
    for i in 0..50 {
        assert_eq!(t.insert(key(i), i * 3), None);
    }
    for i in 0..50 {
        assert_eq!(t.get(&key(i)), Some(&(i * 3)));
    }
    assert_eq!(t.get(&key(50)), None);
}

#[test]
fn overwrite_returns_prior_value_and_keeps_count() {
    let mut t = HashTable::new();
    t.insert("a", 1);
    t.insert("b", 2);
    assert_eq!(t.insert("a", 10), Some(1));
    assert_eq!(t.get(&"a"), Some(&10));
    assert_eq!(t.get(&"b"), Some(&2));
    assert_eq!(traversal(&t).len(), 2);
    assert_eq!(t.capacity(), DEFAULT_CAPACITY);
}

#[test]
fn overwrite_at_the_growth_boundary_does_not_grow() {
    let mut t = HashTable::with_capacity(9);
    for i in 0..6 {
        t.insert(key(i), i);
    }
    assert_eq!(t.capacity(), 9);
    // a seventh distinct key would grow the table; an existing one must not
    assert_eq!(t.insert(key(3), 33), Some(3));
    assert_eq!(t.capacity(), 9);
    assert_eq!(t.get(&key(3)), Some(&33));
}

#[test]
fn constant_hasher_keeps_every_key_apart() {
    let mut t = HashTable::with_hasher(ConstantHasher::new(7));
    for i in 0..20 {
        t.insert(key(i), i);
    }
    for i in 0..20 {
        assert_eq!(t.get(&key(i)), Some(&i));
    }
    // all entries share one chain, which keeps insertion order through growth
    let keys: Vec<String> = traversal(&t).into_iter().map(|(k, _)| k).collect();
    let expected: Vec<String> = (0..20).map(key).collect();
    assert_eq!(keys, expected);
}

#[test]
fn growth_from_one_bucket_doubles_at_three_quarters() {
    let mut t = HashTable::with_capacity(1);
    let mut seen = Vec::new();
    for i in 0..7 {
        t.insert(key(i), i);
        seen.push(t.capacity());
    }
    assert_eq!(seen, vec![2, 4, 4, 8, 8, 8, 16]);
    for i in 0..7 {
        assert_eq!(t.get(&key(i)), Some(&i));
    }
}

#[test]
fn growth_trigger_from_nine_buckets() {
    let mut t = HashTable::with_capacity(9);
    for i in 0..6 {
        t.insert(key(i), i);
        assert_eq!(t.capacity(), 9);
    }
    t.insert(key(6), 6);
    assert_eq!(t.capacity(), 18);
    for i in 0..7 {
        assert_eq!(t.get(&key(i)), Some(&i));
    }
}

#[test]
fn remove_present_then_absent() {
    let mut t = HashTable::new();
    t.insert(key(1), 1);
    t.insert(key(2), 2);
    assert_eq!(t.remove(&key(1)), Some(1));
    assert_eq!(t.get(&key(1)), None);
    let before = traversal(&t);
    assert_eq!(t.remove(&key(1)), None);
    assert_eq!(t.remove(&key(9)), None);
    assert_eq!(traversal(&t), before);
    assert_eq!(t.get(&key(2)), Some(&2));
}

#[test]
fn remove_frees_room_for_a_new_entry() {
    let mut t = HashTable::with_capacity(4);
    t.insert("a", 'a');
    t.insert("b", 'b');
    t.insert("c", 'c');
    assert_eq!(t.capacity(), 4);
    assert_eq!(t.remove(&"b"), Some('b'));
    // two live entries and one more make three: the load stays at 3/4
    t.insert("d", 'd');
    assert_eq!(t.capacity(), 4);
}

#[test]
fn remove_from_a_shared_chain() {
    let mut t = HashTable::with_hasher(ConstantHasher::new(0));
    for i in 0..5u64 {
        t.insert(i, i * 10);
    }
    assert_eq!(t.remove(&1u64), Some(10));
    assert_eq!(t.remove(&4u64), Some(40));
    assert_eq!(t.get(&1u64), None);
    assert_eq!(t.get(&0u64), Some(&0));
    assert_eq!(t.get(&2u64), Some(&20));
    assert_eq!(t.get(&3u64), Some(&30));
    assert_eq!(traversal(&t).len(), 3);
}

#[test]
fn iteration_visits_each_entry_once() {
    let mut t = HashTable::new();
    for i in 0..100 {
        t.insert(key(i), i);
    }
    let pairs = traversal(&t);
    assert_eq!(pairs.len(), 100);
    let keys: HashSet<String> = pairs.iter().map(|(k, _)| k.clone()).collect();
    assert_eq!(keys.len(), 100);
    for (k, v) in pairs {
        assert_eq!(k, key(v));
    }
}

#[test]
fn iteration_over_an_empty_table() {
    let t: HashTable<String, u8> = HashTable::new();
    let mut it = t.iter();
    assert!(it.next().is_none());
    assert!(it.next().is_none());
}

#[test]
fn iteration_is_restartable() {
    let mut t = HashTable::with_capacity(3);
    t.insert("x", 1);
    t.insert("y", 2);
    assert_eq!(traversal(&t), traversal(&t));
}

#[test]
fn into_keys_follows_traversal_order() {
    let mut t = HashTable::with_capacity(5);
    for i in 0..12 {
        t.insert(key(i), i);
    }
    let order: Vec<String> = traversal(&t).into_iter().map(|(k, _)| k).collect();
    let keys = t.into_keys();
    let by_ref: Vec<String> = (&keys).into_iter().cloned().collect();
    let by_value: Vec<String> = keys.into_iter().collect();
    assert_eq!(by_ref, order);
    assert_eq!(by_value, order);
}

#[test]
fn entry_on_a_present_key_ignores_the_default() {
    let mut t = HashTable::new();
    t.insert("gedalia", 27);
    let e = t.entry("gedalia");
    assert!(matches!(e, Entry::Occupied { .. }));
    let v = e.or_insert(99);
    assert_eq!(*v, 27);
    *v += 100;
    assert_eq!(t.get(&"gedalia"), Some(&127));
}

#[test]
fn entry_on_an_absent_key_stores_the_default() {
    let mut t = HashTable::new();
    let e = t.entry("theo");
    assert!(matches!(e, Entry::Vacant { .. }));
    assert_eq!(*e.or_insert(5), 5);
    assert_eq!(t.get(&"theo"), Some(&5));
}

#[test]
fn entry_insertion_grows_like_insert() {
    let mut t = HashTable::with_capacity(9);
    for i in 0..6 {
        t.insert(key(i), i);
    }
    *t.entry(key(6)).or_insert(0) += 6;
    assert_eq!(t.capacity(), 18);
    for i in 0..7 {
        assert_eq!(t.get(&key(i)), Some(&i));
    }
}

#[test]
fn get_mut_writes_through() {
    let mut t = HashTable::new();
    t.insert(key(1), vec![1]);
    if let Some(v) = t.get_mut(&key(1)) {
        v.push(2);
    }
    assert_eq!(t.get(&key(1)), Some(&vec![1, 2]));
    assert!(t.get_mut(&key(2)).is_none());
}

#[test]
fn constructors_start_empty() {
    let a: HashTable<String, i32> = HashTable::new();
    let b: HashTable<String, i32> = HashTable::default();
    let c: HashTable<u64, i32, ConstantHasher> = HashTable::with_hasher(ConstantHasher::new(3));
    let d: HashTable<&str, i32> = HashTable::with_capacity(4);
    assert_eq!(a.capacity(), 10);
    assert_eq!(b.capacity(), 10);
    assert_eq!(c.capacity(), 10);
    assert_eq!(d.capacity(), 4);
    assert!(traversal(&a).is_empty());
    assert!(traversal(&c).is_empty());
}

#[test]
fn default_hasher_agrees_with_std() {
    let mut state = DefaultHasher::new();
    "abc".hash(&mut state);
    let expected = state.finish();
    let h = DefaultSimpleHasher;
    assert_eq!(SimpleHasher::<&str>::hash(&h, &"abc"), expected);
    assert_eq!(SimpleHasher::<String>::hash(&h, &String::from("abc")), expected);
    assert_ne!(
        SimpleHasher::<&str>::hash(&h, &"abc"),
        SimpleHasher::<&str>::hash(&h, &"abd")
    );
}

#[test]
fn constant_hasher_gives_its_value() {
    let h = ConstantHasher::new(42);
    assert_eq!(SimpleHasher::<&str>::hash(&h, &"anything"), 42);
    assert_eq!(SimpleHasher::<u64>::hash(&h, &7u64), 42);
}

#[test]
fn key_equality_goes_by_content() {
    assert!("abc".key_eq(&"abc"));
    assert!(!"abc".key_eq(&"abd"));
    assert!(String::from("x").key_eq(&String::from("x")));
    assert!(!String::from("x").key_eq(&String::from("y")));
    assert!(7u64.key_eq(&7u64));
    assert!(!7i32.key_eq(&-7i32));
    let owned = String::from("gedalia");
    let mut t = HashTable::new();
    t.insert("gedalia", 1);
    assert_eq!(t.get(&owned.as_str()), Some(&1));
}
