use bounded_tables::digest::digest_str;
use bounded_tables::error::TableError;
use bounded_tables::vector_hash_table::VectorHashTable;

#[test]
fn vector_hash_table_test_insert_and_get() {
    let mut table = VectorHashTable::new(10);
    table.insert("key1".to_string(), 10).unwrap();
    assert_eq!(table.get("key1"), Some(10));
}

#[test]
fn vector_hash_table_test_remove() {
    let mut table = VectorHashTable::new(10);
    table.insert("key1".to_string(), 10).unwrap();
    table.remove("key1");
    assert_eq!(table.get("key1"), None);
}

#[test]
fn vector_hash_table_test_over_capacity() {
    let mut table = VectorHashTable::new(2);
    table.insert("key1".to_string(), 1).unwrap();
    table.insert("key2".to_string(), 2).unwrap();
    assert!(table.insert("key3".to_string(), 3).is_err());
}

#[test]
fn vector_round_trip_and_update() {
    let mut table = VectorHashTable::new(8);
    for i in 0..8 {
        assert_eq!(table.insert(format!("k{}", i), i), Ok(()));
    }
    for i in 0..8 {
        assert_eq!(table.get(&format!("k{}", i)), Some(i));
    }
    assert_eq!(table.insert("k3".to_string(), 33), Ok(()));
    assert_eq!(table.get("k3"), Some(33));
    assert_eq!(table.insert("k8".to_string(), 8), Err(TableError::Full));
    assert_eq!(table.get("k8"), None);
    for i in 0..8 {
        if i != 3 {
            assert_eq!(table.get(&format!("k{}", i)), Some(i));
        }
    }
}

#[test]
fn vector_full_table_makes_room_after_removal() {
    let mut table = VectorHashTable::new(2);
    table.insert("key1".to_string(), 1).unwrap();
    table.insert("key2".to_string(), 2).unwrap();
    assert_eq!(table.insert("key3".to_string(), 3), Err(TableError::Full));
    assert_eq!(table.get("key3"), None);
    assert_eq!(table.get("key1"), Some(1));
    assert_eq!(table.get("key2"), Some(2));
    table.remove("key3");
    assert_eq!(table.get("key1"), Some(1));
    assert_eq!(table.get("key2"), Some(2));
}

#[test]
fn vector_table_without_slots() {
    let mut table = VectorHashTable::new(0);
    assert_eq!(table.insert("key1".to_string(), 1), Err(TableError::Full));
    assert_eq!(table.get("key1"), None);
    table.remove("key1");
    assert_eq!(table.get("key1"), None);
}

#[test]
fn vector_table_with_one_slot() {
    let mut table = VectorHashTable::new(1);
    assert_eq!(table.hash("anything"), 0);
    assert_eq!(table.insert("a".to_string(), 1), Ok(()));
    assert_eq!(table.insert("b".to_string(), 2), Err(TableError::Full));
    assert_eq!(table.insert("a".to_string(), 3), Ok(()));
    assert_eq!(table.get("a"), Some(3));
    assert_eq!(table.get("b"), None);
    table.remove("a");
    assert_eq!(table.get("a"), None);
    assert_eq!(table.insert("b".to_string(), 2), Ok(()));
    assert_eq!(table.get("b"), Some(2));
}

#[test]
fn vector_probe_collides_and_wraps() {
    let mut table = VectorHashTable::new(4);
    assert_eq!(table.insert_from(3, "x".to_string(), 1), Ok(()));
    assert_eq!(table.insert_from(3, "y".to_string(), 2), Ok(()));
    assert_eq!(table.insert_from(3, "z".to_string(), 3), Ok(()));
    assert_eq!(table.get_from(3, "x"), Some(1));
    assert_eq!(table.get_from(0, "y"), Some(2));
    assert_eq!(table.get_from(1, "z"), Some(3));
    assert_eq!(table.get_from(2, "z"), None);
    assert_eq!(table.get_from(3, "z"), Some(3));
    assert_eq!(table.insert_from(3, "w".to_string(), 4), Ok(()));
    assert_eq!(table.get_from(2, "w"), Some(4));
    assert_eq!(table.insert_from(3, "v".to_string(), 5), Err(TableError::Full));
    assert_eq!(table.get_from(3, "v"), None);
}

#[test]
fn vector_removal_leaves_no_marker() {
    let mut table = VectorHashTable::new(4);
    table.insert_from(1, "x".to_string(), 1).unwrap();
    table.insert_from(1, "y".to_string(), 2).unwrap();
    table.remove_from(1, "x");
    assert_eq!(table.get_from(1, "x"), None);
    assert_eq!(table.get_from(1, "y"), None);
    assert_eq!(table.get_from(2, "y"), Some(2));
}

#[test]
fn vector_home_slot_is_digest_modulo_size() {
    let table = VectorHashTable::new(10);
    for key in ["key1", "key2", "", "a longer key with spaces"] {
        let slot = table.hash(key);
        assert!(slot < 10);
        assert_eq!(slot, (digest_str(key) as usize) % 10);
    }
}

#[test]
fn vector_keys_are_compared_by_content() {
    let mut table = VectorHashTable::new(4);
    table.insert_from(0, "ab".to_string(), 1).unwrap();
    table.insert_from(0, "a".to_string(), 2).unwrap();
    table.insert_from(0, "\u{e9}".to_string(), 3).unwrap();
    assert_eq!(table.get_from(0, "ab"), Some(1));
    assert_eq!(table.get_from(0, "a"), Some(2));
    assert_eq!(table.get_from(0, "\u{e9}"), Some(3));
    assert_eq!(table.get_from(0, "e"), None);
}
