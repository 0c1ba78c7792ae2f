use parsecdb::wal::{delete_record, insert_record, recover, WalEntry, WalError};

fn log_of(records: &[Vec<u8>]) -> Vec<u8> {
    records.iter().flatten().copied().collect()
}

#[test]
fn insert_record_layout() {
    let bytes = insert_record(0x0102030405060708, &[1.5f32.to_bits(), 0x0A0B0C0D]);
    assert_eq!(
        bytes,
        vec![
            0xAB, 0x01, 0x08, 0x07, 0x06, 0x05, 0x04, 0x03, 0x02, 0x01, 0x00, 0x00, 0xC0, 0x3F,
            0x0D, 0x0C, 0x0B, 0x0A
        ]
    );
}

#[test]
fn delete_record_layout() {
    assert_eq!(delete_record(258), vec![0xAB, 0x02, 2, 1, 0, 0, 0, 0, 0, 0]);
}

#[test]
fn replay_gives_back_the_appended_records() {
    let log = log_of(&[
        insert_record(1, &[10, 20]),
        delete_record(9),
        insert_record(u64::MAX, &[0xFFFF_FFFF, 0]),
    ]);
    let entries = recover(&log, 2).unwrap();
    assert_eq!(entries.len(), 3);
    match &entries[0] {
        WalEntry::Insert { id, vector } => {
            assert_eq!(*id, 1);
            assert_eq!(vector, &vec![10, 20]);
        }
        _ => panic!("expected an insert"),
    }
    assert!(matches!(entries[1], WalEntry::Delete { id: 9 }));
    match &entries[2] {
        WalEntry::Insert { id, vector } => {
            assert_eq!(*id, u64::MAX);
            assert_eq!(vector, &vec![0xFFFF_FFFF, 0]);
        }
        _ => panic!("expected an insert"),
    }
}

#[test]
fn empty_log_and_a_lone_trailing_byte_replay_cleanly() {
    assert!(recover(&[], 3).unwrap().is_empty());
    let mut log = delete_record(5);
    log.push(0xAB);
    let entries = recover(&log, 3).unwrap();
    assert_eq!(entries.len(), 1);
    assert!(matches!(entries[0], WalEntry::Delete { id: 5 }));
}

#[test]
fn missing_magic_number_is_an_error() {
    let mut log = delete_record(5);
    log[0] = 0x00;
    assert_eq!(recover(&log, 1).unwrap_err(), WalError::MissingMagicNumber);
}

#[test]
fn unknown_entry_type_is_an_error() {
    let mut log = delete_record(5);
    log[1] = 0x07;
    assert_eq!(recover(&log, 1).unwrap_err(), WalError::UnknownEntryType);
}

#[test]
fn truncated_records_are_an_error() {
    let full = insert_record(3, &[1, 2, 3]);
    assert_eq!(recover(&full[..full.len() - 1], 3).unwrap_err(), WalError::UnexpectedEof);
    assert_eq!(recover(&full[..5], 3).unwrap_err(), WalError::UnexpectedEof);
    // a record shorter than the dimension says is refused as well
    assert_eq!(recover(&full, 4).unwrap_err(), WalError::UnexpectedEof);
}
