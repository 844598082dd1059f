use docdb_rs::storage_engine::memory::MemoryStorage;
use docdb_rs::storage_engine::StorageEngine;

#[test]
fn memory_put_then_get_returns_value() {
    let mut storage = MemoryStorage::new();
    storage.put(b"hello".to_vec(), b"world".to_vec()).unwrap();
    assert_eq!(storage.get(b"hello").unwrap(), Some(b"world".to_vec()));
}

#[test]
fn put_then_delete_returns_none() {
    let mut storage = MemoryStorage::new();
    storage.put(b"hello".to_vec(), b"world".to_vec()).unwrap();
    storage.delete(b"hello".to_vec()).unwrap();
    assert_eq!(storage.get(b"hello").unwrap(), None);
}

#[test]
fn get_missing_key() {
    let storage = MemoryStorage::new();
    assert_eq!(storage.get(b"hello").unwrap(), None);
}

#[test]
fn memory_put_overwrites_value() {
    let mut storage = MemoryStorage::new();
    storage.put(b"k".to_vec(), b"one".to_vec()).unwrap();
    storage.put(b"k".to_vec(), b"two".to_vec()).unwrap();
    assert_eq!(storage.get(b"k").unwrap(), Some(b"two".to_vec()));
}

#[test]
fn memory_keys_are_independent() {
    let mut storage = MemoryStorage::new();
    storage.put(b"b".to_vec(), b"2".to_vec()).unwrap();
    storage.put(b"a".to_vec(), b"1".to_vec()).unwrap();
    storage.put(b"ab".to_vec(), b"3".to_vec()).unwrap();
    storage.put(b"".to_vec(), b"empty".to_vec()).unwrap();
    storage.delete(b"a".to_vec()).unwrap();
    assert_eq!(storage.get(b"a").unwrap(), None);
    assert_eq!(storage.get(b"ab").unwrap(), Some(b"3".to_vec()));
    assert_eq!(storage.get(b"b").unwrap(), Some(b"2".to_vec()));
    assert_eq!(storage.get(b"").unwrap(), Some(b"empty".to_vec()));
}

#[test]
fn memory_delete_missing_key_is_ok() {
    let mut storage = MemoryStorage::new();
    storage.put(b"x".to_vec(), b"y".to_vec()).unwrap();
    assert!(storage.delete(b"z".to_vec()).is_ok());
    assert_eq!(storage.get(b"x").unwrap(), Some(b"y".to_vec()));
}
