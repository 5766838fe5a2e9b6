use toylsm::memtable::{MemTable, MemTableEntry};
use toylsm::sstable::SSTable;
use toylsm::wal::{WALEntry, WALIterator, WAL};

#[test]
fn add_to_sstable() {
    let mut sstable = SSTable::new(String::from("/home/takashi/toylsm/test/1.wal"), &vec![]);
    let key = &[1];
    let val = &[2];
    let key_2 = &[3];
    let timestamp = 1000;
    sstable.set(key, val, timestamp);
    sstable.set(key_2, val, timestamp + 1);
    sstable.flush();

    let mut expected_memtable = MemTable::new();
    expected_memtable.set(key, val, timestamp);
    expected_memtable.set(key_2, val, timestamp + 1);
    assert_eq!(sstable.memtable, expected_memtable);
    assert_eq!(sstable.len(), 2);
}

fn segment(build: impl Fn(&mut WAL)) -> Vec<u8> {
    let mut wal = WAL::new(String::from("old.wal"));
    build(&mut wal);
    wal.flush()
}

#[test]
fn recovery_consolidates_set_then_delete() {
    let s1 = segment(|w| w.set(&[4], &[65], 100));
    let s2 = segment(|w| w.delete(&[4], 200));
    let mut store = SSTable::new(String::from("300.wal"), &vec![s1, s2]);
    assert_eq!(store.get(&[4]), None);
    assert!(store.is_empty());
    let mut it = WALIterator::new(store.flush());
    assert_eq!(it.next(), Some(WALEntry { key: vec![4], value: Some(vec![65]), timestamp: 100 }));
    assert_eq!(it.next(), Some(WALEntry { key: vec![4], value: None, timestamp: 200 }));
    assert_eq!(it.next(), None);
}

#[test]
fn recovery_keeps_the_newest_value() {
    let s1 = segment(|w| {
        w.set(&[1], &[1], 1);
        w.set(&[2], &[2], 2);
    });
    let s2 = segment(|w| w.set(&[1], &[9], 3));
    let store = SSTable::new(String::from("new.wal"), &vec![s1, s2]);
    assert_eq!(store.len(), 2);
    assert_eq!(
        store.get(&[1]),
        Some(MemTableEntry { key: vec![1], value: Some(vec![9]), timestamp: 3 })
    );
    assert_eq!(store.path(), "new.wal");
}

#[test]
fn recovery_from_nothing_is_empty() {
    let mut store = SSTable::new(String::from("fresh.wal"), &vec![]);
    assert_eq!(store.len(), 0);
    assert!(store.is_empty());
    assert!(store.flush().is_empty());
}

#[test]
fn two_sets_then_flush() {
    let mut store = SSTable::new(String::from("5.wal"), &vec![]);
    store.set(&[1], &[2], 1000);
    store.set(&[3], &[2], 1001);
    let bytes = store.flush();
    assert_eq!(
        store.get(&[1]),
        Some(MemTableEntry { key: vec![1], value: Some(vec![2]), timestamp: 1000 })
    );
    assert_eq!(store.len(), 2);
    let mut expected = WAL::new(String::from("e.wal"));
    expected.set(&[1], &[2], 1000);
    expected.set(&[3], &[2], 1001);
    assert_eq!(bytes, expected.flush());
    assert_eq!(bytes.len(), 2 * (1 + 8 + 8 + 1 + 1 + 16));
}

#[test]
fn store_delete_logs_a_tombstone() {
    let mut store = SSTable::new(String::from("6.wal"), &vec![]);
    store.set(&[1], &[2], 1);
    store.delete(&[1], 2);
    store.delete(&[8], 3);
    assert_eq!(store.get(&[1]), None);
    assert_eq!(store.len(), 0);
    let mut it = WALIterator::new(store.flush());
    assert!(it.next().is_some());
    assert_eq!(it.next(), Some(WALEntry { key: vec![1], value: None, timestamp: 2 }));
    assert_eq!(it.next(), Some(WALEntry { key: vec![8], value: None, timestamp: 3 }));
    assert_eq!(it.next(), None);
}
