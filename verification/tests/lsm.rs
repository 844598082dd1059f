use docdb_rs::storage_engine::lsm::{
    sstable_path_for_id, GetStep, LsmStorage, SsTableRecord, Sstable, ValueEntry, WalEntry,
    MEMTABLE_CAPACITY,
};
use docdb_rs::storage_engine::StorageError;

/// The files an engine has written: its write-ahead log and its sstables.
struct Disk {
    wal: Vec<WalEntry>,
    sstables: Vec<(String, Vec<SsTableRecord>)>,
}

fn copy_record(r: &SsTableRecord) -> SsTableRecord {
    SsTableRecord {
        key: r.key.clone(),
        entry: match &r.entry {
            ValueEntry::Put(v) => ValueEntry::Put(v.clone()),
            ValueEntry::Tombstone => ValueEntry::Tombstone,
        },
    }
}

fn put(core: &mut LsmStorage, disk: &mut Disk, key: &[u8], value: &[u8]) {
    disk.wal.push(LsmStorage::wal_entry_for_put(&key.to_vec(), &value.to_vec()));
    if let Some(flush) = core.apply_put(key.to_vec(), value.to_vec(), Ok(())).unwrap() {
        disk.sstables.push((flush.path, flush.records));
    }
}

fn delete(core: &mut LsmStorage, disk: &mut Disk, key: &[u8]) {
    disk.wal.push(LsmStorage::wal_entry_for_delete(&key.to_vec()));
    core.apply_delete(key.to_vec(), Ok(())).unwrap();
}

fn read_lines(disk: &Disk, id: u64) -> Vec<Result<SsTableRecord, StorageError>> {
    let path = sstable_path_for_id(id);
    match disk.sstables.iter().find(|(p, _)| *p == path) {
        Some((_, records)) => records.iter().map(|r| Ok(copy_record(r))).collect(),
        None => vec![Err(StorageError::Io(std::io::Error::other("no such sstable")))],
    }
}

fn get(core: &LsmStorage, disk: &Disk, key: &[u8]) -> Option<Vec<u8>> {
    let mut step = core.start_get(key);
    loop {
        match step {
            GetStep::Done(answer) => return answer.unwrap(),
            GetStep::ReadSstable(id) => {
                step = LsmStorage::continue_get(key, id, read_lines(disk, id));
            }
        }
    }
}

fn keys_of(records: &[SsTableRecord]) -> Vec<Vec<u8>> {
    records.iter().map(|r| r.key.clone()).collect()
}

#[test]
fn lsm_put_then_get_returns_value() {
    let mut storage = LsmStorage::new();
    let mut disk = Disk { wal: Vec::new(), sstables: Vec::new() };
    put(&mut storage, &mut disk, b"sstable1", b"world");
    put(&mut storage, &mut disk, b"sstable1.1", b"sstable1.1");
    put(&mut storage, &mut disk, b"sstable2", b"world");
    put(&mut storage, &mut disk, b"sstable2.1", b"world");
    put(&mut storage, &mut disk, b"sstable3", b"world");
    delete(&mut storage, &mut disk, b"sstable3");
    assert_eq!(get(&storage, &disk, b"sstable3"), Some(b"world".to_vec()));
    assert_eq!(get(&storage, &disk, b"sstable1"), Some(b"world".to_vec()));
    assert_eq!(get(&storage, &disk, b"sstable2.1"), Some(b"world".to_vec()));
}

#[test]
fn lsm_flushes_full_memtable_in_key_order() {
    let mut core = LsmStorage::new();
    let mut disk = Disk { wal: Vec::new(), sstables: Vec::new() };
    put(&mut core, &mut disk, b"sstable1", b"world");
    put(&mut core, &mut disk, b"sstable1.1", b"sstable1.1");
    put(&mut core, &mut disk, b"sstable2", b"world");
    put(&mut core, &mut disk, b"sstable2.1", b"world");
    put(&mut core, &mut disk, b"sstable3", b"world");
    delete(&mut core, &mut disk, b"sstable3");
    assert_eq!(disk.wal.len(), 6);
    assert_eq!(disk.sstables.len(), 2);
    assert_eq!(disk.sstables[0].0, "sstables/1.sst");
    assert_eq!(keys_of(&disk.sstables[0].1), vec![b"sstable1".to_vec(), b"sstable1.1".to_vec()]);
    assert_eq!(disk.sstables[1].0, "sstables/2.sst");
    assert_eq!(keys_of(&disk.sstables[1].1), vec![b"sstable2".to_vec(), b"sstable2.1".to_vec()]);
    assert_eq!(core.next_table_id(), 3);
    assert_eq!(get(&core, &disk, b"sstable1.1"), Some(b"sstable1.1".to_vec()));
    assert_eq!(get(&core, &disk, b"missing"), None);
}

#[test]
fn lsm_delete_of_flushed_key_keeps_reads() {
    let mut core = LsmStorage::new();
    let mut disk = Disk { wal: Vec::new(), sstables: Vec::new() };
    put(&mut core, &mut disk, b"k", b"v");
    put(&mut core, &mut disk, b"x", b"1");
    put(&mut core, &mut disk, b"y", b"2");
    delete(&mut core, &mut disk, b"k");
    assert_eq!(get(&core, &disk, b"k"), Some(b"v".to_vec()));
    assert!(matches!(disk.wal.last(), Some(WalEntry::Delete { key }) if key == b"k"));
}

#[test]
fn lsm_deletion_mark_in_sstable_passes_read_on() {
    let rec = |k: &[u8], e: ValueEntry| SsTableRecord { key: k.to_vec(), entry: e };
    let mut core = LsmStorage::new();
    core.add_sstable().unwrap();
    core.add_sstable().unwrap();
    let disk = Disk {
        wal: Vec::new(),
        sstables: vec![
            ("sstables/1.sst".to_string(), vec![rec(b"k", ValueEntry::Put(b"old".to_vec()))]),
            ("sstables/2.sst".to_string(), vec![rec(b"k", ValueEntry::Tombstone)]),
        ],
    };
    assert_eq!(get(&core, &disk, b"k"), Some(b"old".to_vec()));
}

#[test]
fn lsm_newer_sstable_wins() {
    let mut core = LsmStorage::new();
    let mut disk = Disk { wal: Vec::new(), sstables: Vec::new() };
    put(&mut core, &mut disk, b"k", b"old");
    put(&mut core, &mut disk, b"a", b"1");
    put(&mut core, &mut disk, b"k", b"new");
    put(&mut core, &mut disk, b"b", b"2");
    put(&mut core, &mut disk, b"c", b"3");
    assert_eq!(disk.sstables.len(), 2);
    assert_eq!(get(&core, &disk, b"k"), Some(b"new".to_vec()));
}

#[test]
fn lsm_failed_wal_write_changes_nothing() {
    let mut core = LsmStorage::new();
    let failed = Err(StorageError::Io(std::io::Error::other("disk full")));
    assert!(core.apply_put(b"k".to_vec(), b"v".to_vec(), failed).is_err());
    match core.start_get(b"k") {
        GetStep::Done(Ok(None)) => {}
        other => panic!("unexpected {:?}", other),
    }
    let failed = Err(StorageError::Io(std::io::Error::other("disk full")));
    assert!(core.apply_delete(b"k".to_vec(), failed).is_err());
    assert!(!core.is_full());
}

#[test]
fn lsm_is_full_at_capacity() {
    let mut core = LsmStorage::new();
    for i in 0..MEMTABLE_CAPACITY {
        assert!(!core.is_full());
        assert!(core.apply_put(vec![i as u8], b"v".to_vec(), Ok(())).unwrap().is_none());
    }
    assert!(core.is_full());
}

#[test]
fn lsm_start_get_reads_newest_sstable_first() {
    let mut core = LsmStorage::new();
    match core.start_get(b"k") {
        GetStep::Done(Ok(None)) => {}
        other => panic!("unexpected {:?}", other),
    }
    core.add_sstable().unwrap();
    core.add_sstable().unwrap();
    match core.start_get(b"k") {
        GetStep::ReadSstable(2) => {}
        other => panic!("unexpected {:?}", other),
    }
}

#[test]
fn lsm_search_sstable_stops_at_first_record_or_error() {
    let rec = |k: &[u8], e: ValueEntry| Ok(SsTableRecord { key: k.to_vec(), entry: e });
    let lines = vec![rec(b"a", ValueEntry::Put(b"1".to_vec())), rec(b"b", ValueEntry::Tombstone)];
    assert_eq!(LsmStorage::search_sstable(b"a", lines).unwrap(), Some(b"1".to_vec()));
    let lines = vec![rec(b"a", ValueEntry::Put(b"1".to_vec())), rec(b"b", ValueEntry::Tombstone)];
    assert_eq!(LsmStorage::search_sstable(b"b", lines).unwrap(), None);
    let lines = vec![
        rec(b"a", ValueEntry::Put(b"1".to_vec())),
        Err(StorageError::Io(std::io::Error::other("bad line"))),
        rec(b"c", ValueEntry::Put(b"3".to_vec())),
    ];
    assert!(LsmStorage::search_sstable(b"c", lines).is_err());
    let lines = vec![
        rec(b"a", ValueEntry::Put(b"1".to_vec())),
        Err(StorageError::Io(std::io::Error::other("bad line"))),
    ];
    assert_eq!(LsmStorage::search_sstable(b"a", lines).unwrap(), Some(b"1".to_vec()));
}

#[test]
fn lsm_continue_get_goes_to_older_tables() {
    match LsmStorage::continue_get(b"k", 3, Vec::new()) {
        GetStep::ReadSstable(2) => {}
        other => panic!("unexpected {:?}", other),
    }
    match LsmStorage::continue_get(b"k", 1, Vec::new()) {
        GetStep::Done(Ok(None)) => {}
        other => panic!("unexpected {:?}", other),
    }
    let lines = vec![Err(StorageError::Io(std::io::Error::other("unreadable")))];
    match LsmStorage::continue_get(b"k", 3, lines) {
        GetStep::Done(Err(_)) => {}
        other => panic!("unexpected {:?}", other),
    }
}

#[test]
fn sstable_paths_are_numbered() {
    assert_eq!(sstable_path_for_id(1), "sstables/1.sst");
    assert_eq!(sstable_path_for_id(10), "sstables/10.sst");
    assert_eq!(sstable_path_for_id(0), "sstables/0.sst");
    assert_eq!(sstable_path_for_id(u64::MAX), "sstables/18446744073709551615.sst");
}

#[test]
fn create_next_sstable_path_advances_without_recording() {
    let mut core = LsmStorage::new();
    assert_eq!(core.create_next_sstable_path().unwrap(), "sstables/1.sst");
    assert_eq!(core.add_sstable().unwrap(), "sstables/2.sst");
    assert_eq!(core.next_table_id(), 3);
    let table = Sstable::new("sstables/7.sst".to_string());
    assert_eq!(table.file_path, "sstables/7.sst");
}

#[test]
fn flush_memtable_hands_back_sorted_records() {
    let mut core = LsmStorage::new();
    core.apply_put(b"b".to_vec(), b"2".to_vec(), Ok(())).unwrap();
    core.apply_put(b"a".to_vec(), b"1".to_vec(), Ok(())).unwrap();
    let flush = core.flush_memtable().unwrap();
    assert_eq!(flush.path, "sstables/1.sst");
    assert_eq!(keys_of(&flush.records), vec![b"a".to_vec(), b"b".to_vec()]);
    assert!(matches!(&flush.records[0].entry, ValueEntry::Put(v) if v == b"1"));
    assert!(matches!(&flush.records[1].entry, ValueEntry::Put(v) if v == b"2"));
    assert!(!core.is_full());
    match core.start_get(b"b") {
        GetStep::ReadSstable(1) => {}
        other => panic!("unexpected {:?}", other),
    }
}

#[test]
fn wal_entries_record_the_operation() {
    match LsmStorage::wal_entry_for_put(&b"k".to_vec(), &b"v".to_vec()) {
        WalEntry::Put { key, value: ValueEntry::Put(v) } => {
            assert_eq!(key, b"k".to_vec());
            assert_eq!(v, b"v".to_vec());
        }
        other => panic!("unexpected {:?}", other),
    }
    match LsmStorage::wal_entry_for_delete(&b"k".to_vec()) {
        WalEntry::Delete { key } => assert_eq!(key, b"k".to_vec()),
        other => panic!("unexpected {:?}", other),
    }
}
