use bytes::Bytes;
use todb::key::{InternalKey, OpType, INTERNAL_KEY_TRAILER_LEN};

#[test]
fn test_encode_decode() {
    let user_key = Bytes::from("hello");
    let ik = InternalKey::from_user_key(user_key, 42, OpType::Put);
    assert_eq!(ik.raw_key(), Bytes::from("hello"));
    assert_eq!(ik.sequence(), 42);
    assert_eq!(ik.op_type(), OpType::Put);
}

#[test]
fn test_ordering_user_key() {
    let a = InternalKey::from_user_key(Bytes::from("a"), 100, OpType::Put);
    let b = InternalKey::from_user_key(Bytes::from("b"), 1, OpType::Put);
    assert!(a < b);
}

#[test]
fn test_ordering_sequence_desc() {
    let old = InternalKey::from_user_key(Bytes::from("k"), 10, OpType::Put);
    let new = InternalKey::from_user_key(Bytes::from("k"), 20, OpType::Put);
    assert!(new < old);
}

#[test]
fn test_delete_type() {
    let ik = InternalKey::from_user_key(Bytes::from("x"), 1, OpType::Delete);
    assert_eq!(ik.op_type(), OpType::Delete);
}

#[test]
fn internal_key_layout_and_reparse() {
    let ik = InternalKey::from_user_key(Bytes::from("ab"), 0x1_0000_0005, OpType::Delete);
    let bytes = ik.as_bytes().clone();
    assert_eq!(bytes.len(), 2 + INTERNAL_KEY_TRAILER_LEN);
    assert_eq!(&bytes[..2], b"ab");
    assert_eq!(&bytes[2..18], &[0u8; 16]);
    // The sequence is cut to its low 32 bits.
    assert_eq!(&bytes[18..22], &5u32.to_be_bytes());
    assert_eq!(bytes[22], 1);
    let again = InternalKey::new(bytes);
    assert_eq!(again.sequence(), 5);
    assert_eq!(again.op_type(), OpType::Delete);
    assert!(again == ik);
    assert!(again.partial_cmp(&ik) == Some(std::cmp::Ordering::Equal));
}

#[test]
fn internal_key_any_nonzero_op_byte_is_delete() {
    let mut raw = vec![b'k'];
    raw.extend_from_slice(&[0u8; 20]);
    raw.push(7);
    let ik = InternalKey::new(Bytes::from(raw));
    assert_eq!(ik.op_type(), OpType::Delete);
    assert_eq!(ik.raw_key(), Bytes::from("k"));
}
