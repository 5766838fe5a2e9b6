use toylsm::bytes::{bytes_eq, copy_bytes};
use toylsm::wal::{decode_record, read_le, WALEntry, WALIterator, WAL};

fn set_bytes_1_2_1000() -> Vec<u8> {
    let mut v = vec![0u8];
    v.extend_from_slice(&1u64.to_le_bytes());
    v.extend_from_slice(&1u64.to_le_bytes());
    v.push(1);
    v.push(2);
    v.extend_from_slice(&1000u128.to_le_bytes());
    v
}

fn all_entries(bytes: Vec<u8>) -> Vec<WALEntry> {
    let mut it = WALIterator::new(bytes);
    let mut out = Vec::new();
    while let Some(e) = it.next() {
        out.push(e);
    }
    out
}

#[test]
fn set_record_layout() {
    let mut wal = WAL::new(String::from("1.wal"));
    wal.set(&[1], &[2], 1000);
    assert_eq!(wal.flush(), set_bytes_1_2_1000());
    assert_eq!(wal.path(), "1.wal");
}

#[test]
fn delete_record_layout() {
    let mut wal = WAL::new(String::from("1.wal"));
    wal.delete(&[9, 8], 0x0102);
    let mut expected = vec![1u8];
    expected.extend_from_slice(&2u64.to_le_bytes());
    expected.extend_from_slice(&[9, 8]);
    expected.extend_from_slice(&0x0102u128.to_le_bytes());
    assert_eq!(wal.flush(), expected);
}

#[test]
fn flush_empties_the_buffer() {
    let mut wal = WAL::new(String::from("x.wal"));
    wal.set(&[1], &[2], 3);
    assert!(!wal.flush().is_empty());
    assert!(wal.flush().is_empty());
}

#[test]
fn log_round_trip() {
    let mut wal = WAL::new(String::from("2.wal"));
    wal.set(&[1, 2], &[3], 5);
    wal.delete(&[1, 2], 6);
    wal.set(&[], &[4, 4, 4], u128::MAX);
    wal.delete(&[7], 0);
    let entries = all_entries(wal.flush());
    assert_eq!(
        entries,
        vec![
            WALEntry { key: vec![1, 2], value: Some(vec![3]), timestamp: 5 },
            WALEntry { key: vec![1, 2], value: None, timestamp: 6 },
            WALEntry { key: vec![], value: Some(vec![4, 4, 4]), timestamp: u128::MAX },
            WALEntry { key: vec![7], value: None, timestamp: 0 },
        ]
    );
}

#[test]
fn truncated_last_record_is_dropped() {
    let mut wal = WAL::new(String::from("3.wal"));
    wal.set(&[1], &[2], 10);
    wal.set(&[3], &[4], 11);
    let mut bytes = wal.flush();
    bytes.pop();
    let entries = all_entries(bytes);
    assert_eq!(entries, vec![WALEntry { key: vec![1], value: Some(vec![2]), timestamp: 10 }]);
}

#[test]
fn unknown_tag_ends_the_records() {
    let mut bytes = set_bytes_1_2_1000();
    bytes.push(7);
    bytes.extend_from_slice(&set_bytes_1_2_1000());
    assert_eq!(all_entries(bytes).len(), 1);
}

#[test]
fn oversized_length_field_ends_the_records() {
    let mut bytes = vec![0u8];
    bytes.extend_from_slice(&u64::MAX.to_le_bytes());
    bytes.extend_from_slice(&u64::MAX.to_le_bytes());
    bytes.extend_from_slice(&[0u8; 16]);
    assert_eq!(decode_record(&bytes, 0), None);
}

#[test]
fn decode_record_reports_next_position() {
    let mut bytes = vec![0xAAu8];
    bytes.extend_from_slice(&set_bytes_1_2_1000());
    let (entry, next) = decode_record(&bytes, 1).unwrap();
    assert_eq!(entry, WALEntry { key: vec![1], value: Some(vec![2]), timestamp: 1000 });
    assert_eq!(next, bytes.len());
    assert_eq!(decode_record(&bytes, next), None);
}

#[test]
fn empty_segment_has_no_records() {
    assert!(all_entries(Vec::new()).is_empty());
}

#[test]
fn little_endian_reads() {
    let bytes = [0x01u8, 0x02, 0x03, 0xFF];
    assert_eq!(read_le(&bytes, 0, 2), 0x0201);
    assert_eq!(read_le(&bytes, 1, 3), 0xFF0302);
    assert_eq!(read_le(&bytes, 4, 0), 0);
}

#[test]
fn byte_helpers() {
    assert!(bytes_eq(&[1, 2], &[1, 2]));
    assert!(!bytes_eq(&[1, 2], &[1, 3]));
    assert!(!bytes_eq(&[1], &[1, 2]));
    assert_eq!(copy_bytes(&[5, 6]), vec![5, 6]);
}
