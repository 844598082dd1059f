use docdb_rs::storage_engine::byte_map::{compare_bytes, ByteMap, KeyOrder};

#[test]
fn compare_bytes_orders_lexicographically() {
    assert_eq!(compare_bytes(b"a", b"b"), KeyOrder::Less);
    assert_eq!(compare_bytes(b"ab", b"a"), KeyOrder::Greater);
    assert_eq!(compare_bytes(b"", b"a"), KeyOrder::Less);
    assert_eq!(compare_bytes(b"abc", b"abc"), KeyOrder::Equal);
    assert_eq!(compare_bytes(&[255], &[0, 0]), KeyOrder::Greater);
}

#[test]
fn byte_map_hands_entries_back_in_key_order() {
    let mut m: ByteMap<u32> = ByteMap::new();
    m.insert(b"sstable2".to_vec(), 2);
    m.insert(b"sstable1.1".to_vec(), 11);
    m.insert(b"sstable1".to_vec(), 1);
    m.insert(b"sstable2".to_vec(), 22);
    assert_eq!(m.len(), 3);
    assert_eq!(m.get(b"sstable2"), Some(&22));
    assert_eq!(m.remove(b"sstable1.1"), Some(11));
    assert_eq!(m.remove(b"sstable1.1"), None);
    m.insert(b"a".to_vec(), 0);
    let entries = m.take_entries();
    let keys: Vec<Vec<u8>> = entries.iter().map(|e| e.0.clone()).collect();
    assert_eq!(keys, vec![b"a".to_vec(), b"sstable1".to_vec(), b"sstable2".to_vec()]);
    assert_eq!(m.len(), 0);
}
