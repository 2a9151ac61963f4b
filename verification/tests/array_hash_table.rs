use bounded_tables::array_hash_table::{padded_copy, ArrayHashTable, CAPACITY, MAX_KEY_LEN};
use bounded_tables::digest::digest_bytes;
use bounded_tables::error::TableError;

#[test]
fn array_hash_table_test_insert_and_get() {
    let mut table = ArrayHashTable::new();
    table.insert(b"key1", 10).unwrap();
    table.insert(b"key2", 20).unwrap();
    assert_eq!(table.get(b"key1"), Some(10));
    assert_eq!(table.get(b"key2"), Some(20));
}

#[test]
fn array_hash_table_test_remove() {
    let mut table = ArrayHashTable::new();
    table.insert(b"key1", 10).unwrap();
    table.remove(b"key1");
    assert!(table.get(b"key1").is_none());
}

#[test]
fn array_hash_table_test_get_first_and_last() {
    let mut table = ArrayHashTable::new();
    table.insert(b"key1", 10).unwrap();
    table.insert(b"key2", 20).unwrap();
    assert_eq!(table.get_first(), Some((&b"key1"[..], 10)));
    assert_eq!(table.get_last(), Some((&b"key2"[..], 20)));
}

#[test]
fn test_update_existing_key() {
    let mut table = ArrayHashTable::new();
    table.insert(b"key1", 10).unwrap();
    table.insert(b"key1", 30).unwrap();
    assert_eq!(table.get(b"key1"), Some(30));
    assert_eq!(table.get_first(), Some((&b"key1"[..], 30)));
    assert_eq!(table.get_last(), Some((&b"key1"[..], 30)));
}

#[test]
fn test_insert_over_capacity() {
    let mut table = ArrayHashTable::new();
    for i in 0..CAPACITY {
        assert!(table.insert(format!("key{}", i).as_bytes(), i as i32).is_ok());
    }
    assert!(table.insert(b"overflow_key", 9999).is_err());
}

#[test]
fn test_max_key_length() {
    let mut table = ArrayHashTable::new();
    let long_key = [b'a'; MAX_KEY_LEN + 1];
    assert!(table.insert(&long_key, 100).is_err());
}

#[test]
fn array_round_trip_many_keys() {
    let mut table = ArrayHashTable::new();
    for i in 0..500 {
        table.insert(format!("k{}", i).as_bytes(), i).unwrap();
    }
    for i in 0..500 {
        assert_eq!(table.get(format!("k{}", i).as_bytes()), Some(i));
    }
    assert_eq!(table.get(b"absent"), None);
}

#[test]
fn array_new_table_is_empty() {
    let table = ArrayHashTable::new();
    assert_eq!(table.get_first(), None);
    assert_eq!(table.get_last(), None);
    assert_eq!(table.get(b"key1"), None);
    assert_eq!(table.get(b""), None);
}

#[test]
fn array_update_moves_last_but_not_first() {
    let mut table = ArrayHashTable::new();
    table.insert(b"a", 1).unwrap();
    table.insert(b"b", 2).unwrap();
    table.insert(b"c", 3).unwrap();
    table.insert(b"a", 4).unwrap();
    assert_eq!(table.get(b"a"), Some(4));
    assert_eq!(table.get_first(), Some((&b"a"[..], 4)));
    assert_eq!(table.get_last(), Some((&b"a"[..], 4)));
    table.insert(b"b", 5).unwrap();
    assert_eq!(table.get_first(), Some((&b"a"[..], 4)));
    assert_eq!(table.get_last(), Some((&b"b"[..], 5)));
}

#[test]
fn array_insert_remove_get_is_none() {
    let mut table = ArrayHashTable::new();
    table.insert(b"key1", 10).unwrap();
    table.insert(b"key2", 20).unwrap();
    table.remove(b"key2");
    assert_eq!(table.get(b"key2"), None);
    assert_eq!(table.get(b"key1"), Some(10));
}

#[test]
fn array_remove_absent_key_changes_nothing() {
    let mut table = ArrayHashTable::new();
    table.remove(b"ghost");
    assert_eq!(table.get_first(), None);
    assert_eq!(table.get_last(), None);
    table.insert(b"key1", 10).unwrap();
    table.insert(b"key2", 20).unwrap();
    table.remove(b"ghost");
    assert_eq!(table.get_first(), Some((&b"key1"[..], 10)));
    assert_eq!(table.get_last(), Some((&b"key2"[..], 20)));
    assert_eq!(table.get(b"key1"), Some(10));
    assert_eq!(table.get(b"key2"), Some(20));
}

#[test]
fn array_remove_of_inner_entry_keeps_endpoints() {
    let mut table = ArrayHashTable::new();
    table.insert(b"key1", 1).unwrap();
    table.insert(b"key2", 2).unwrap();
    table.insert(b"key3", 3).unwrap();
    table.remove(b"key2");
    assert_eq!(table.get_first(), Some((&b"key1"[..], 1)));
    assert_eq!(table.get_last(), Some((&b"key3"[..], 3)));
}

#[test]
fn array_remove_of_only_entry_clears_endpoints() {
    let mut table = ArrayHashTable::new();
    table.insert(b"key1", 1).unwrap();
    table.remove(b"key1");
    assert_eq!(table.get_first(), None);
    assert_eq!(table.get_last(), None);
    table.insert(b"key2", 2).unwrap();
    assert_eq!(table.get_first(), Some((&b"key2"[..], 2)));
    assert_eq!(table.get_last(), Some((&b"key2"[..], 2)));
}

#[test]
fn array_remove_of_endpoint_with_two_entries_leaves_the_other() {
    let mut table = ArrayHashTable::new();
    table.insert(b"key1", 1).unwrap();
    table.insert(b"key2", 2).unwrap();
    table.remove(b"key1");
    assert_eq!(table.get_first(), Some((&b"key2"[..], 2)));
    assert_eq!(table.get_last(), Some((&b"key2"[..], 2)));
    assert_eq!(table.get(b"key1"), None);
}

#[test]
fn array_remove_of_endpoint_rescans_by_slot_index() {
    let mut table = ArrayHashTable::new();
    table.insert_from(5, b"a", 1).unwrap();
    table.insert_from(1, b"b", 2).unwrap();
    table.insert_from(9, b"c", 3).unwrap();
    assert_eq!(table.get_first(), Some((&b"a"[..], 1)));
    assert_eq!(table.get_last(), Some((&b"c"[..], 3)));
    table.remove_from(9, b"c");
    // The scan takes the lowest and the highest occupied slot.
    assert_eq!(table.get_first(), Some((&b"b"[..], 2)));
    assert_eq!(table.get_last(), Some((&b"a"[..], 1)));
}

#[test]
fn array_probe_moves_to_next_slot_on_collision() {
    let mut table = ArrayHashTable::new();
    table.insert_from(7, b"x", 1).unwrap();
    table.insert_from(7, b"y", 2).unwrap();
    table.insert_from(7, b"z", 3).unwrap();
    assert_eq!(table.get_from(7, b"x"), Some(1));
    assert_eq!(table.get_from(7, b"y"), Some(2));
    assert_eq!(table.get_from(7, b"z"), Some(3));
    // "y" sits in slot 8 and "z" in slot 9.
    assert_eq!(table.get_from(8, b"y"), Some(2));
    assert_eq!(table.get_from(9, b"z"), Some(3));
    assert_eq!(table.get_from(8, b"x"), None);
    assert_eq!(table.get_from(10, b"z"), None);
}

#[test]
fn array_probe_wraps_at_the_end() {
    let mut table = ArrayHashTable::new();
    table.insert_from(CAPACITY - 1, b"x", 1).unwrap();
    table.insert_from(CAPACITY - 1, b"y", 2).unwrap();
    assert_eq!(table.get_from(CAPACITY - 1, b"y"), Some(2));
    assert_eq!(table.get_from(0, b"y"), Some(2));
    table.remove_from(CAPACITY - 1, b"y");
    assert_eq!(table.get_from(0, b"y"), None);
    // "y" sat in slot 0, the lowest; the scan now finds only "x".
    assert_eq!(table.get_first(), Some((&b"x"[..], 1)));
    assert_eq!(table.get_last(), Some((&b"x"[..], 1)));
}

#[test]
fn array_removal_leaves_no_marker() {
    let mut table = ArrayHashTable::new();
    table.insert_from(3, b"x", 1).unwrap();
    table.insert_from(3, b"y", 2).unwrap();
    table.remove_from(3, b"x");
    // The probe for "y" now ends at the emptied slot 3.
    assert_eq!(table.get_from(3, b"y"), None);
    assert_eq!(table.get_from(4, b"y"), Some(2));
    // A new insertion of "y" from slot 3 takes the emptied slot.
    table.insert_from(3, b"y", 5).unwrap();
    assert_eq!(table.get_from(3, b"y"), Some(5));
    assert_eq!(table.get_from(4, b"y"), Some(2));
}

#[test]
fn array_full_table_rejects_new_key_and_accepts_update() {
    let mut table = ArrayHashTable::new();
    for i in 0..CAPACITY {
        assert_eq!(table.insert(format!("key{}", i).as_bytes(), i as i32), Ok(()));
    }
    assert_eq!(table.insert(b"overflow_key", 9999), Err(TableError::Full));
    assert_eq!(table.get(b"overflow_key"), None);
    assert_eq!(table.insert(b"key17", -17), Ok(()));
    assert_eq!(table.get(b"key17"), Some(-17));
    assert_eq!(table.get_last(), Some((&b"key17"[..], -17)));
    assert_eq!(table.get_first(), Some((&b"key0"[..], 0)));
    table.remove(b"key12133");
    assert_eq!(table.insert(b"overflow_key", 9999), Ok(()));
    assert_eq!(table.get(b"overflow_key"), Some(9999));
}

#[test]
fn array_lookup_in_full_table_ends() {
    let mut table = ArrayHashTable::new();
    for i in 0..CAPACITY {
        table.insert(format!("key{}", i).as_bytes(), i as i32).unwrap();
    }
    assert_eq!(table.get(b"absent"), None);
    table.remove(b"absent");
    assert_eq!(table.get(b"key12133"), Some(12133));
}

#[test]
fn array_key_of_maximum_length_is_accepted() {
    let mut table = ArrayHashTable::new();
    let key = [b'a'; MAX_KEY_LEN];
    assert_eq!(table.insert(&key, 100), Ok(()));
    assert_eq!(table.get(&key), Some(100));
    assert_eq!(table.get_first(), Some((&key[..], 100)));
    let shorter = [b'a'; MAX_KEY_LEN - 1];
    assert_eq!(table.get(&shorter), None);
}

#[test]
fn array_key_beyond_maximum_length_is_rejected() {
    let mut table = ArrayHashTable::new();
    table.insert(b"key1", 1).unwrap();
    let key = [b'a'; MAX_KEY_LEN + 1];
    assert_eq!(table.insert(&key, 100), Err(TableError::KeyTooLong));
    assert_eq!(table.insert_from(0, &key, 100), Err(TableError::KeyTooLong));
    assert_eq!(table.get(&key), None);
    assert_eq!(table.get_first(), Some((&b"key1"[..], 1)));
    assert_eq!(table.get_last(), Some((&b"key1"[..], 1)));
}

#[test]
fn array_keys_are_compared_without_padding() {
    let mut table = ArrayHashTable::new();
    table.insert_from(0, b"ab", 1).unwrap();
    table.insert_from(0, b"ab\0", 2).unwrap();
    table.insert_from(0, b"a", 3).unwrap();
    table.insert_from(0, b"", 4).unwrap();
    assert_eq!(table.get_from(0, b"ab"), Some(1));
    assert_eq!(table.get_from(0, b"ab\0"), Some(2));
    assert_eq!(table.get_from(0, b"a"), Some(3));
    assert_eq!(table.get_from(0, b""), Some(4));
    assert_eq!(table.get_from(0, b"abc"), None);
}

#[test]
fn array_home_slot_is_digest_modulo_capacity() {
    let table = ArrayHashTable::new();
    for key in [&b"key1"[..], &b"key2"[..], &b""[..], &b"overflow_key"[..]] {
        let slot = table.hash(key);
        assert!(slot < CAPACITY);
        assert_eq!(slot, (digest_bytes(key) as usize) % CAPACITY);
        assert_eq!(slot, table.hash(key));
    }
}

#[test]
fn array_insert_probes_from_home_slot() {
    let mut table = ArrayHashTable::new();
    table.insert(b"key1", 10).unwrap();
    let home = table.hash(b"key1");
    assert_eq!(table.get_from(home, b"key1"), Some(10));
    table.remove_from(home, b"key1");
    assert_eq!(table.get(b"key1"), None);
}

#[test]
fn padded_copy_fills_the_front_only() {
    let mut buffer = [7u8; MAX_KEY_LEN];
    padded_copy(b"abc", &mut buffer);
    assert_eq!(&buffer[..3], b"abc");
    assert!(buffer[3..].iter().all(|b| *b == 7));
    padded_copy(b"", &mut buffer);
    assert_eq!(&buffer[..3], b"abc");
    let full = [1u8; MAX_KEY_LEN];
    padded_copy(&full, &mut buffer);
    assert_eq!(buffer, full);
}
