use chainmap::HashKey;
use chainmap::HashMap;

#[test]
fn insert() {
    let mut map = HashMap::new();
    map.insert("foo", 42);
    assert_eq!(map.get(&"foo"), Some(&42));
}

#[test]
fn remove() {
    let mut map = HashMap::new();
    map.insert("foo", 42);
    map.remove(&"foo");
    assert_eq!(map.get(&"foo"), None);
}

#[test]
fn is_empty() {
    let map: HashMap<u8, u8> = HashMap::new();
    assert!(map.is_empty());
}

#[test]
fn len() {
    let mut map = HashMap::new();
    map.insert("foo", 42);
    assert_eq!(map.len(), 1);
}

#[test]
fn contains() {
    let mut map = HashMap::new();
    map.insert("foo", 42);
    assert!(map.contains_key(&"foo"));
}

#[test]
fn iter() {
    let mut map = HashMap::new();
    map.insert("foo", 42);
    map.insert("bar", 43);
    map.insert("buz", 44);
    let mut it = map.iter();
    while let Some((&k, &v)) = it.next() {
        match k {
            "foo" => assert_eq!(v, 42),
            "bar" => assert_eq!(v, 43),
            "buz" => assert_eq!(v, 44),
            _ => unreachable!(),
        }
    }
    let mut count = 0;
    let mut it = map.iter();
    while it.next().is_some() {
        count += 1;
    }
    assert_eq!(count, 3);
}

#[test]
fn round_trip_many_keys() {
    let mut map: HashMap<u32, u32> = HashMap::new();
    for k in 0..1000u32 {
        assert_eq!(map.insert(k, k * 2), None);
        assert_eq!(map.len() as u32, k + 1);
    }
    for k in 0..1000u32 {
        assert_eq!(map.get(&k), Some(&(k * 2)));
    }
    assert_eq!(map.get(&1000), None);
}

#[test]
fn update_replaces_value() {
    let mut map = HashMap::new();
    assert_eq!(map.insert("key", 1), None);
    assert_eq!(map.insert("key", 2), Some(1));
    assert_eq!(map.len(), 1);
    assert_eq!(map.get(&"key"), Some(&2));
}

#[test]
fn remove_returns_value_and_decrements() {
    let mut map = HashMap::new();
    map.insert("a", 10);
    map.insert("b", 20);
    assert_eq!(map.len(), 2);
    assert_eq!(map.remove(&"a"), Some(10));
    assert_eq!(map.len(), 1);
    assert_eq!(map.get(&"a"), None);
    assert_eq!(map.remove(&"a"), None);
    assert_eq!(map.len(), 1);
}

#[test]
fn absent_on_fresh_table() {
    let map: HashMap<&str, i32> = HashMap::new();
    assert_eq!(map.get(&"anything"), None);
    assert_eq!(map.get(&""), None);
    let map2: HashMap<u64, u64> = HashMap::new();
    assert_eq!(map2.get(&0), None);
    assert_eq!(map2.get(&u64::MAX), None);
}

#[test]
fn remove_on_fresh_table() {
    let mut map: HashMap<&str, i32> = HashMap::new();
    assert_eq!(map.remove(&"missing"), None);
    assert!(map.is_empty());
}

#[test]
fn count_tracks_inserts_and_removes() {
    let mut map: HashMap<u8, u8> = HashMap::new();
    map.insert(1, 1);
    map.insert(2, 2);
    map.insert(2, 3);
    map.insert(3, 4);
    assert_eq!(map.len(), 3);
    map.remove(&2);
    assert_eq!(map.len(), 2);
    map.remove(&9);
    assert_eq!(map.len(), 2);
    map.remove(&1);
    map.remove(&3);
    assert_eq!(map.len(), 0);
    assert!(map.is_empty());
}

#[test]
fn iteration_yields_each_entry_once() {
    let mut map: HashMap<u32, u32> = HashMap::new();
    for k in 0..100u32 {
        map.insert(k, 1000 + k);
    }
    let mut seen = [false; 100];
    let mut count = 0;
    let mut it = map.iter();
    while let Some((&k, &v)) = it.next() {
        assert_eq!(v, 1000 + k);
        assert!(!seen[k as usize]);
        seen[k as usize] = true;
        count += 1;
    }
    assert_eq!(count, 100);
}

#[test]
fn iteration_on_empty_table() {
    let map: HashMap<u8, u8> = HashMap::new();
    let mut it = map.iter();
    assert_eq!(it.next(), None);
    assert_eq!(it.next(), None);
}

#[test]
fn scenario_three_keys() {
    let mut map = HashMap::new();
    map.insert("foo", 42);
    map.insert("bar", 43);
    map.insert("buz", 44);
    assert_eq!(map.len(), 3);
    let mut found_foo = false;
    let mut found_bar = false;
    let mut found_buz = false;
    let mut count = 0;
    let mut it = map.iter();
    while let Some((&k, &v)) = it.next() {
        match k {
            "foo" => {
                assert_eq!(v, 42);
                found_foo = true;
            }
            "bar" => {
                assert_eq!(v, 43);
                found_bar = true;
            }
            "buz" => {
                assert_eq!(v, 44);
                found_buz = true;
            }
            _ => unreachable!(),
        }
        count += 1;
    }
    assert_eq!(count, 3);
    assert!(found_foo && found_bar && found_buz);
    assert_eq!(map.get(&"foo"), Some(&42));
    assert_eq!(map.remove(&"bar"), Some(43));
    assert_eq!(map.get(&"bar"), None);
    assert_eq!(map.len(), 2);
}

#[test]
fn string_keys() {
    let mut map: HashMap<String, u32> = HashMap::new();
    map.insert(String::from("alpha"), 1);
    map.insert(String::from("beta"), 2);
    let alpha = format!("al{}", "pha");
    assert_eq!(map.get(&alpha), Some(&1));
    assert_eq!(map.get(&String::from("gamma")), None);
    assert_eq!(map.remove(&String::from("beta")), Some(2));
    assert_eq!(map.len(), 1);
}

#[test]
fn distinct_str_keys_stay_distinct() {
    let mut map: HashMap<&str, u32> = HashMap::new();
    map.insert("", 0);
    map.insert("a", 1);
    map.insert("b", 2);
    map.insert("ab", 3);
    assert_eq!(map.len(), 4);
    assert_eq!(map.get(&""), Some(&0));
    assert_eq!(map.get(&"a"), Some(&1));
    assert_eq!(map.get(&"b"), Some(&2));
    assert_eq!(map.get(&"ab"), Some(&3));
    assert_eq!(map.get(&"ba"), None);
}

#[test]
fn hash_codes_are_deterministic() {
    assert_eq!(7u64.hash_code(), 7u64.hash_code());
    assert_eq!("key".hash_code(), String::from("key").hash_code());
    assert_eq!(5u8.hash_code(), 5u8.hash_code());
    assert_eq!(300u16.hash_code(), 300u16.hash_code());
    assert_eq!(70000u32.hash_code(), 70000u32.hash_code());
    assert_eq!(9usize.hash_code(), 9usize.hash_code());
}

#[test]
fn key_eq_decides_content_equality() {
    assert!(3u64.key_eq(&3u64));
    assert!(!3u64.key_eq(&4u64));
    assert!("abc".key_eq(&"abc"));
    assert!(!"abc".key_eq(&"abd"));
    assert!(String::from("x").key_eq(&String::from("x")));
    assert!(!String::from("x").key_eq(&String::from("y")));
}
