use lru_cache::cache::traits::CacheStorage;
use lru_cache::storage::file::FileStorage;
use lru_cache::Cache;

#[test]
fn test_lru_cache_basic() {
    let mut cache = Cache::new(3);
    cache.put("A", String::from("value_a"));
    cache.put("B", String::from("value_b"));
    cache.put("C", String::from("value_c"));
    cache.put("D", String::from("value_d"));

    assert_eq!(cache.get(&"A"), None);
    assert_eq!(cache.get(&"D"), Some(&String::from("value_d")));
}

#[test]
fn test_lru_cache_generic() {
    let mut cache = Cache::new(2);
    cache.put(1, 100);
    cache.put(2, 200);
    cache.put(3, 300);

    assert_eq!(cache.get(&1), None);
    assert_eq!(cache.get(&2), Some(&200));
}

#[test]
fn test_lru_eviction_order() {
    let mut cache = Cache::new(3);
    cache.put("A", 1);
    cache.put("B", 2);
    cache.put("C", 3);

    assert_eq!(cache.get(&"B"), Some(&2));

    cache.put("D", 4);

    assert_eq!(cache.get(&"A"), None);
    assert_eq!(cache.get(&"B"), Some(&2));
    assert_eq!(cache.get(&"C"), Some(&3));
    assert_eq!(cache.get(&"D"), Some(&4));
}

#[test]
fn test_literal_scenario() {
    let mut cache = Cache::new(3);
    cache.put("A", 1);
    cache.put("B", 2);
    cache.put("C", 3);
    cache.put("D", 4);

    assert_eq!(cache.get(&"A"), None);
    assert_eq!(cache.get(&"B"), Some(&2));
    assert_eq!(cache.get(&"C"), Some(&3));
    assert_eq!(cache.get(&"D"), Some(&4));
}

#[test]
fn test_capacity_invariant() {
    let mut cache = Cache::new(2);
    let keys = ["a", "b", "c", "d", "e"];
    for (i, k) in keys.iter().enumerate() {
        cache.put(*k, i);
        assert!(cache.len() <= cache.capacity());
    }
    assert_eq!(cache.len(), 2);
}

#[test]
fn test_capacity_zero() {
    let mut cache = Cache::new(0);
    cache.put("A", 1);
    assert_eq!(cache.len(), 0);
    assert_eq!(cache.get(&"A"), None);
}

#[test]
fn test_update_in_place() {
    let mut cache = Cache::new(2);
    cache.put("A", 1);
    cache.put("B", 2);
    cache.put("A", 3);
    assert_eq!(cache.len(), 2);
    // The update refreshed "A", so "B" is now the least recently used.
    cache.put("C", 4);
    assert_eq!(cache.get(&"B"), None);
    assert_eq!(cache.get(&"A"), Some(&3));
    assert_eq!(cache.get(&"C"), Some(&4));
}

#[test]
fn test_update_order_refreshes() {
    let mut cache = Cache::new(3);
    cache.put("A", 1);
    cache.put("B", 2);
    cache.put("C", 3);
    cache.update_order(&"A");
    cache.put("D", 4);
    assert_eq!(cache.get(&"B"), None);
    assert_eq!(cache.get(&"A"), Some(&1));
}

#[test]
fn test_entries_in_recency_order() {
    let mut cache = Cache::new(3);
    cache.put(String::from("A"), 1);
    cache.put(String::from("B"), 2);
    assert_eq!(cache.get(&String::from("A")), Some(&1));
    let entries = cache.entries();
    assert_eq!(entries.len(), 2);
    assert_eq!(entries[0], (String::from("B"), 2));
    assert_eq!(entries[1], (String::from("A"), 1));
}

#[test]
fn test_cache_storage_trait() {
    let mut cache = Cache::new(1);
    CacheStorage::put(&mut cache, "A", 1);
    CacheStorage::put(&mut cache, "B", 2);
    assert_eq!(CacheStorage::get(&mut cache, &"A"), None);
    assert_eq!(CacheStorage::get(&mut cache, &"B"), Some(&2));
}

#[test]
fn test_render_basic() {
    let data = vec![
        (String::from("key1"), String::from("42")),
        (String::from("key2"), String::from("84")),
    ];
    let content = FileStorage::render(2, &data);
    assert_eq!(content, "2\nkey1;42\nkey2;84\n");
}

#[test]
fn test_render_empty() {
    let data: Vec<(String, String)> = Vec::new();
    assert_eq!(FileStorage::render(0, &data), "0\n");
    assert_eq!(FileStorage::render(1234567890, &data), "1234567890\n");
}

#[test]
fn test_parse_basic() {
    let (capacity, data) = FileStorage::parse("2\nkey1;42\nkey2;84\n");
    assert_eq!(capacity, 2);
    assert_eq!(
        data,
        vec![
            (String::from("key1"), String::from("42")),
            (String::from("key2"), String::from("84")),
        ]
    );
}

#[test]
fn test_parse_empty() {
    let (capacity, data) = FileStorage::parse("");
    assert_eq!(capacity, 0);
    assert!(data.is_empty());
}

#[test]
fn test_parse_capacity_default() {
    let (capacity, data) = FileStorage::parse("not a number\nk;v\n");
    assert_eq!(capacity, 0);
    assert_eq!(data, vec![(String::from("k"), String::from("v"))]);
}

#[test]
fn test_parse_capacity_overflow_defaults() {
    let (capacity, _) = FileStorage::parse("99999999999999999999999999\n");
    assert_eq!(capacity, 0);
}

#[test]
fn test_parse_capacity_plus_sign() {
    let (capacity, _) = FileStorage::parse("+7\n");
    assert_eq!(capacity, 7);
}

#[test]
fn test_malformed_line_dropped() {
    let (capacity, data) = FileStorage::parse("2\ngood;1\nno separator here\n");
    assert_eq!(capacity, 2);
    assert_eq!(data, vec![(String::from("good"), String::from("1"))]);
}

#[test]
fn test_value_keeps_later_separators() {
    let (_, data) = FileStorage::parse("1\nk;a;b\n");
    assert_eq!(data, vec![(String::from("k"), String::from("a;b"))]);
}

#[test]
fn test_parse_crlf_lines() {
    let (capacity, data) = FileStorage::parse("2\r\nkey;val\r\n");
    assert_eq!(capacity, 2);
    assert_eq!(data, vec![(String::from("key"), String::from("val"))]);
}

#[test]
fn test_parse_cr_stripped_only_before_newline() {
    // "\r\n" ends a line, so the carriage return goes; a final "\r" with no
    // newline after it belongs to the value.
    let (_, terminated) = FileStorage::parse("1\nk;v\r\n");
    assert_eq!(terminated, vec![(String::from("k"), String::from("v"))]);
    let (_, unterminated) = FileStorage::parse("1\nk;v\r");
    assert_eq!(unterminated, vec![(String::from("k"), String::from("v\r"))]);
}

#[test]
fn test_from_pairs_replays_in_order() {
    let pairs = vec![
        (String::from("A"), 1),
        (String::from("B"), 2),
        (String::from("C"), 3),
    ];
    let mut cache = Cache::from_pairs(2, pairs);
    assert_eq!(cache.len(), 2);
    assert_eq!(cache.get(&String::from("A")), None);
    assert_eq!(cache.get(&String::from("B")), Some(&2));
    assert_eq!(cache.get(&String::from("C")), Some(&3));
}

#[test]
fn test_from_pairs_duplicate_keys() {
    let pairs = vec![(String::from("A"), 1), (String::from("A"), 2)];
    let mut cache = Cache::from_pairs(2, pairs);
    assert_eq!(cache.len(), 1);
    assert_eq!(cache.get(&String::from("A")), Some(&2));
}

#[test]
fn test_parse_no_trailing_newline() {
    let (capacity, data) = FileStorage::parse("1\nk;v");
    assert_eq!(capacity, 1);
    assert_eq!(data, vec![(String::from("k"), String::from("v"))]);
}

#[test]
fn test_render_parse_round_trip() {
    let data = vec![
        (String::from("alpha"), String::from("one")),
        (String::from("beta"), String::from("two")),
        (String::from("gamma"), String::from("three")),
    ];
    let content = FileStorage::render(3, &data);
    let (capacity, loaded) = FileStorage::parse(&content);
    assert_eq!(capacity, 3);
    assert_eq!(loaded, data);
}

#[test]
fn test_save_load_rebuilds_cache() {
    let mut cache = Cache::new(2);
    cache.put(String::from("X"), String::from("test"));

    let content = FileStorage::render(cache.capacity(), cache.entries());
    let (_, loaded) = FileStorage::parse(&content);

    let mut rebuilt = Cache::new(2);
    for (key, value) in loaded {
        rebuilt.put(key, value);
    }
    assert_eq!(rebuilt.get(&String::from("X")), Some(&String::from("test")));
}

#[test]
fn test_save_load_keeps_recency_order() {
    let mut cache = Cache::new(2);
    cache.put(String::from("old"), String::from("1"));
    cache.put(String::from("new"), String::from("2"));

    let content = FileStorage::render(cache.capacity(), cache.entries());
    let (capacity, loaded) = FileStorage::parse(&content);

    let mut rebuilt = Cache::new(capacity);
    for (key, value) in loaded {
        rebuilt.put(key, value);
    }
    // Replaying in file order makes the last line the most recently used:
    // inserting one more key evicts "old", not "new".
    rebuilt.put(String::from("extra"), String::from("3"));
    assert_eq!(rebuilt.get(&String::from("old")), None);
    assert_eq!(rebuilt.get(&String::from("new")), Some(&String::from("2")));
}
