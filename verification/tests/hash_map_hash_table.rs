use bounded_tables::error::TableError;
use bounded_tables::hash_map_hash_table::HashMapHashTable;

#[test]
fn hash_map_hash_table_test_insert_and_get() {
    let mut table = HashMapHashTable::new(10);
    table.insert("key1".to_string(), 10).unwrap();
    assert_eq!(table.get("key1"), Some(10));
}

#[test]
fn hash_map_hash_table_test_remove() {
    let mut table = HashMapHashTable::new(10);
    table.insert("key1".to_string(), 10).unwrap();
    table.remove("key1");
    assert_eq!(table.get("key1"), None);
}

#[test]
fn hash_map_hash_table_test_get_first_and_last() {
    let mut table = HashMapHashTable::new(10);
    table.insert("key1".to_string(), 10).unwrap();
    table.insert("key2".to_string(), 20).unwrap();
    assert_eq!(table.get_first(), Some(("key1", 10)));
    assert_eq!(table.get_last(), Some(("key2", 20)));
}

#[test]
fn hash_map_hash_table_test_over_capacity() {
    let mut table = HashMapHashTable::new(2);
    table.insert("key1".to_string(), 1).unwrap();
    table.insert("key2".to_string(), 2).unwrap();
    assert!(table.insert("key3".to_string(), 3).is_err());
}

#[test]
fn hash_map_capacity_two_scenario() {
    let mut table = HashMapHashTable::new(2);
    assert_eq!(table.insert("key1".to_string(), 1), Ok(()));
    assert_eq!(table.insert("key2".to_string(), 2), Ok(()));
    assert_eq!(table.insert("key3".to_string(), 3), Err(TableError::Full));
    assert_eq!(table.get_first(), Some(("key1", 1)));
    assert_eq!(table.get_last(), Some(("key2", 2)));
    table.remove("key1");
    assert_eq!(table.get_first(), Some(("key2", 2)));
    assert_eq!(table.get("key1"), None);
}

#[test]
fn hash_map_new_table_is_empty() {
    let table = HashMapHashTable::new(3);
    assert_eq!(table.get_first(), None);
    assert_eq!(table.get_last(), None);
    assert_eq!(table.get("key1"), None);
}

#[test]
fn hash_map_update_counts_as_most_recent() {
    let mut table = HashMapHashTable::new(10);
    table.insert("key1".to_string(), 10).unwrap();
    table.insert("key2".to_string(), 20).unwrap();
    table.insert("key1".to_string(), 30).unwrap();
    assert_eq!(table.get("key1"), Some(30));
    assert_eq!(table.get_last(), Some(("key1", 30)));
    assert_eq!(table.get_first(), Some(("key1", 30)));
    table.insert("key2".to_string(), 40).unwrap();
    assert_eq!(table.get_last(), Some(("key2", 40)));
    assert_eq!(table.get_first(), Some(("key1", 30)));
}

#[test]
fn hash_map_update_keeps_place_in_order_of_entry() {
    let mut table = HashMapHashTable::new(3);
    table.insert("a".to_string(), 1).unwrap();
    table.insert("b".to_string(), 2).unwrap();
    table.insert("b".to_string(), 3).unwrap();
    assert_eq!(table.get_first(), Some(("a", 1)));
    assert_eq!(table.get_last(), Some(("b", 3)));
    table.remove("a");
    assert_eq!(table.get_first(), Some(("b", 3)));
    assert_eq!(table.get_last(), Some(("b", 3)));
}

#[test]
fn hash_map_last_after_removal_is_latest_write_that_remains() {
    let mut table = HashMapHashTable::new(5);
    table.insert("a".to_string(), 1).unwrap();
    table.insert("b".to_string(), 2).unwrap();
    table.insert("a".to_string(), 3).unwrap();
    table.insert("c".to_string(), 4).unwrap();
    assert_eq!(table.get_last(), Some(("c", 4)));
    table.remove("c");
    assert_eq!(table.get_last(), Some(("a", 3)));
    assert_eq!(table.get_first(), Some(("a", 3)));
    table.remove("a");
    assert_eq!(table.get_last(), Some(("b", 2)));
    assert_eq!(table.get_first(), Some(("b", 2)));
    table.remove("b");
    assert_eq!(table.get_last(), None);
    assert_eq!(table.get_first(), None);
}

#[test]
fn hash_map_rejected_insert_leaves_endpoints() {
    let mut table = HashMapHashTable::new(2);
    table.insert("a".to_string(), 1).unwrap();
    table.insert("b".to_string(), 2).unwrap();
    table.insert("a".to_string(), 3).unwrap();
    assert_eq!(table.insert("c".to_string(), 4), Err(TableError::Full));
    assert_eq!(table.get_first(), Some(("a", 3)));
    assert_eq!(table.get_last(), Some(("a", 3)));
}

#[test]
fn hash_map_update_at_capacity_succeeds() {
    let mut table = HashMapHashTable::new(2);
    table.insert("a".to_string(), 1).unwrap();
    table.insert("b".to_string(), 2).unwrap();
    assert_eq!(table.insert("b".to_string(), 20), Ok(()));
    assert_eq!(table.insert("c".to_string(), 3), Err(TableError::Full));
    assert_eq!(table.get("b"), Some(20));
    assert_eq!(table.get("c"), None);
    table.remove("a");
    assert_eq!(table.insert("c".to_string(), 3), Ok(()));
    assert_eq!(table.get_first(), Some(("b", 20)));
    assert_eq!(table.get_last(), Some(("c", 3)));
}

#[test]
fn hash_map_remove_from_middle_and_ends() {
    let mut table = HashMapHashTable::new(5);
    for (i, key) in ["a", "b", "c", "d"].iter().enumerate() {
        table.insert(key.to_string(), i as i32).unwrap();
    }
    table.remove("b");
    assert_eq!(table.get_first(), Some(("a", 0)));
    assert_eq!(table.get_last(), Some(("d", 3)));
    table.remove("d");
    assert_eq!(table.get_last(), Some(("c", 2)));
    table.remove("a");
    assert_eq!(table.get_first(), Some(("c", 2)));
    table.remove("c");
    assert_eq!(table.get_first(), None);
    assert_eq!(table.get_last(), None);
}

#[test]
fn hash_map_remove_absent_key_changes_nothing() {
    let mut table = HashMapHashTable::new(5);
    table.insert("a".to_string(), 1).unwrap();
    table.insert("b".to_string(), 2).unwrap();
    table.remove("zzz");
    assert_eq!(table.get_first(), Some(("a", 1)));
    assert_eq!(table.get_last(), Some(("b", 2)));
    assert_eq!(table.get("a"), Some(1));
}

#[test]
fn hash_map_reinserted_key_goes_to_the_back() {
    let mut table = HashMapHashTable::new(5);
    table.insert("a".to_string(), 1).unwrap();
    table.insert("b".to_string(), 2).unwrap();
    table.remove("a");
    table.insert("a".to_string(), 3).unwrap();
    assert_eq!(table.get_first(), Some(("b", 2)));
    assert_eq!(table.get_last(), Some(("a", 3)));
}

#[test]
fn hash_map_table_without_room() {
    let mut table = HashMapHashTable::new(0);
    assert_eq!(table.insert("a".to_string(), 1), Err(TableError::Full));
    assert_eq!(table.get("a"), None);
    table.remove("a");
    assert_eq!(table.get_first(), None);
}
