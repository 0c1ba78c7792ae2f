use parsecdb::buffer::{SnapshotError, SoABuffer};
use parsecdb::error::ParsecError;

#[test]
fn buffer_stores_vectors_in_order() {
    let mut b = SoABuffer::new(2, 4);
    assert!(b.is_empty());
    assert_eq!(b.dimension(), 2);
    b.insert(42, &[1, 2]).unwrap();
    b.insert(7, &[3, 4]).unwrap();
    assert_eq!(b.len(), 2);
    assert!(!b.is_empty());
    assert_eq!(b.get_vector(0).unwrap(), &[1, 2]);
    assert_eq!(b.get_vector(1).unwrap(), &[3, 4]);
    assert!(b.get_vector(2).is_none());
    assert_eq!(b.get_id(0), Some(42));
    assert_eq!(b.get_id(1), Some(7));
    assert_eq!(b.get_id(2), None);
}

#[test]
fn buffer_refuses_wrong_dimension() {
    let mut b = SoABuffer::new(3, 1);
    assert_eq!(
        b.insert(1, &[1, 2, 3, 4]),
        Err(ParsecError::DimensionMismatch { expected: 3, found: 4 })
    );
    assert_eq!(b.len(), 0);
}

#[test]
fn buffer_snapshot_layout() {
    let mut b = SoABuffer::new(2, 1);
    b.insert(7, &[1, 0x0200_0000]).unwrap();
    let bytes = b.encode();
    let mut expected = vec![24, 0, 0, 0, 0, 0, 0, 0];
    expected.extend_from_slice(&[2, 0, 0, 0, 0, 0, 0, 0]);
    expected.extend_from_slice(&[1, 0, 0, 0, 0, 0, 0, 0]);
    expected.extend_from_slice(&[7, 0, 0, 0, 0, 0, 0, 0]);
    expected.extend_from_slice(&[1, 0, 0, 0, 0, 0, 0, 2]);
    assert_eq!(bytes, expected);
}

#[test]
fn buffer_snapshot_roundtrip() {
    let mut b = SoABuffer::new(3, 2);
    b.insert(5, &[1, 2, 3]).unwrap();
    b.insert(6, &[4, 5, 6]).unwrap();
    let mut bytes = b.encode();
    let used_len = bytes.len();
    bytes.extend_from_slice(&[9, 9, 9]);
    let (c, used) = SoABuffer::decode(&bytes).unwrap();
    assert_eq!(used, used_len);
    assert_eq!(c.dimension(), 3);
    assert_eq!(c.len(), 2);
    assert_eq!(c.get_id(1), Some(6));
    assert_eq!(c.get_vector(0).unwrap(), &[1, 2, 3]);
    assert_eq!(c.get_vector(1).unwrap(), &[4, 5, 6]);
}

#[test]
fn buffer_snapshot_errors() {
    assert_eq!(SoABuffer::decode(&[1, 2, 3]).unwrap_err(), SnapshotError::UnexpectedEof);
    // metadata announced longer than the bytes
    assert_eq!(
        SoABuffer::decode(&[100, 0, 0, 0, 0, 0, 0, 0, 1]).unwrap_err(),
        SnapshotError::UnexpectedEof
    );
    // eight bytes of metadata cannot hold the pair
    let mut bytes = vec![8, 0, 0, 0, 0, 0, 0, 0];
    bytes.extend_from_slice(&[1, 0, 0, 0, 0, 0, 0, 0]);
    assert_eq!(SoABuffer::decode(&bytes).unwrap_err(), SnapshotError::CorruptMetadata);
    // the coordinates are missing
    let mut b = SoABuffer::new(2, 1);
    b.insert(7, &[1, 2]).unwrap();
    let enc = b.encode();
    assert_eq!(
        SoABuffer::decode(&enc[..enc.len() - 1]).unwrap_err(),
        SnapshotError::UnexpectedEof
    );
}
