use toylsm::memtable::{MemTable, MemTableEntry};

fn insert(memtable: &mut MemTable, key: &[u8], value: &[u8], timestamp: u128) {
    memtable.set(key, value, timestamp);
}

#[test]
fn it_works() {
    let mut memtable = MemTable::new();
    let key = &[1];
    let value = &[2];
    let timestamp = 1000;
    insert(&mut memtable, key, value, timestamp);
    assert_eq!(
        memtable.get(&[1]),
        Some(MemTableEntry {
            key: key.to_vec(),
            value: Some(value.to_vec()),
            timestamp
        })
    );
    assert_eq!(memtable.len(), 1);
}

#[test]
fn insert_and_delete() {
    let mut memtable = MemTable::new();
    let key = &[1];
    let value = &[2];
    let timestamp = 1000;
    insert(&mut memtable, key, value, timestamp);
    memtable.delete(key);
    assert_eq!(memtable.get(&[1]), None);
    assert_eq!(memtable.len(), 0);
}

#[test]
fn set_then_get_round_trip() {
    let mut memtable = MemTable::new();
    memtable.set(&[7, 8, 9], &[], 42);
    assert_eq!(
        memtable.get(&[7, 8, 9]),
        Some(MemTableEntry { key: vec![7, 8, 9], value: Some(vec![]), timestamp: 42 })
    );
    assert_eq!(memtable.get_value_by_key(&[7, 8]), None);
    assert!(!memtable.is_empty());
}

#[test]
fn delete_lowers_size_by_one() {
    let mut memtable = MemTable::new();
    memtable.set(&[1], &[1], 1);
    memtable.set(&[2], &[2], 2);
    assert_eq!(memtable.len(), 2);
    memtable.delete(&[2]);
    assert_eq!(memtable.len(), 1);
    assert_eq!(memtable.get(&[2]), None);
}

#[test]
fn delete_of_absent_key_changes_nothing() {
    let mut memtable = MemTable::new();
    memtable.set(&[1], &[1], 1);
    memtable.delete(&[9]);
    assert_eq!(memtable.len(), 1);
    assert!(memtable.get(&[1]).is_some());
}

#[test]
fn overwrite_keeps_the_later_value() {
    let mut memtable = MemTable::new();
    memtable.set(&[5], &[1], 10);
    memtable.set(&[5], &[2, 3], 11);
    assert_eq!(memtable.len(), 1);
    assert_eq!(
        memtable.get(&[5]),
        Some(MemTableEntry { key: vec![5], value: Some(vec![2, 3]), timestamp: 11 })
    );
}

#[test]
fn insert_stores_a_tombstone_entry() {
    let mut memtable = MemTable::default();
    assert!(memtable.is_empty());
    memtable.insert(MemTableEntry { key: vec![4], value: None, timestamp: 3 });
    assert_eq!(memtable.get(&[4]), Some(MemTableEntry { key: vec![4], value: None, timestamp: 3 }));
}

#[test]
fn indexes_from_different_orders_are_equal() {
    let mut a = MemTable::new();
    a.set(&[1], &[10], 1);
    a.set(&[2], &[20], 2);
    a.set(&[3], &[30], 3);
    a.delete(&[3]);
    let mut b = MemTable::new();
    b.set(&[2], &[20], 2);
    b.set(&[1], &[10], 1);
    assert_eq!(a, b);
}

#[test]
fn indexes_with_different_slots_differ() {
    let mut a = MemTable::new();
    a.set(&[1], &[10], 1);
    let mut b = MemTable::new();
    b.set(&[1], &[10], 2);
    assert_ne!(a, b);
    let mut c = MemTable::new();
    c.set(&[1], &[11], 1);
    assert_ne!(a, c);
    let mut d = MemTable::new();
    d.set(&[2], &[10], 1);
    assert_ne!(a, d);
    let e = MemTable::new();
    assert_ne!(a, e);
}

#[test]
fn entries_come_in_ascending_key_order() {
    let mut memtable = MemTable::new();
    memtable.set(&[3], &[30], 3);
    memtable.set(&[1, 5], &[15], 2);
    memtable.set(&[1], &[10], 1);
    memtable.set(&[3], &[31], 4);
    let entries = memtable.entries();
    assert_eq!(
        entries,
        vec![
            MemTableEntry { key: vec![1], value: Some(vec![10]), timestamp: 1 },
            MemTableEntry { key: vec![1, 5], value: Some(vec![15]), timestamp: 2 },
            MemTableEntry { key: vec![3], value: Some(vec![31]), timestamp: 4 },
        ]
    );
    assert!(MemTable::new().entries().is_empty());
}
