//! The self-delimiting wire encoding: round trips and rejection of corrupt
//! input.

use radixtree::encoding::{make_header_byte, nodes_from_bytes, slice_to_bytes};
use radixtree::node::TreeNode;
use radixtree::store::{BlobStore, MemStore, StoreError};

#[test]
fn serialize_parse_round_trip() {
    let mut store = MemStore::default();
    let mut a = TreeNode::single(b"alpha", b"1");
    let mut b = TreeNode::single(b"beta", b"2");
    a.attach(&mut store).unwrap();
    b.attach(&mut store).unwrap();
    let nodes = vec![a, b];
    let bytes = slice_to_bytes(&nodes);
    let parsed = nodes_from_bytes(bytes.as_slice()).unwrap();
    assert_eq!(parsed.len(), 2);
    assert_eq!(parsed[0].prefix().load(&store).unwrap(), b"alpha".to_vec());
    assert_eq!(parsed[0].value().load(&store).unwrap(), Some(b"1".to_vec()));
    assert_eq!(parsed[1].prefix().load(&store).unwrap(), b"beta".to_vec());
    assert_eq!(parsed[1].value().load(&store).unwrap(), Some(b"2".to_vec()));
    // Re-serializing the parse yields the same bytes.
    let again = slice_to_bytes(&parsed);
    assert_eq!(again, bytes);
}

#[test]
fn parse_rejects_truncated_input() {
    // An inline header announcing more bytes than remain.
    let bad = vec![make_header_byte(1, 5), 1, 2];
    assert!(matches!(
        nodes_from_bytes(bad.as_slice()),
        Err(StoreError::MalformedEncoding)
    ));
}

#[test]
fn parse_rejects_shared_tag() {
    // The shared-heap variant never appears in serialized form.
    let bad = vec![make_header_byte(2, 8), 0, 0, 0, 0, 0, 0, 0, 1];
    assert!(matches!(
        nodes_from_bytes(bad.as_slice()),
        Err(StoreError::MalformedEncoding)
    ));
}

#[test]
fn parse_rejects_absent_prefix() {
    // A node triple must start with a present prefix slot.
    let bad = vec![0u8, 0u8, 0u8];
    assert!(matches!(
        nodes_from_bytes(bad.as_slice()),
        Err(StoreError::MalformedEncoding)
    ));
}

#[test]
fn empty_sequence_parses_empty() {
    let parsed = nodes_from_bytes(&[]).unwrap();
    assert!(parsed.is_empty());
}
