//! The path accumulator and the iterator handles.

use radixtree::builder::{AtPrefix, InPlaceBuilderRef, InPlaceFlexRefSeqBuilder};
use radixtree::encoding::nodes_from_bytes;
use radixtree::merge::TakeRight;
use radixtree::node::TreeNode;
use radixtree::store::{BlobStore, MemStore};
use radixtree::tree::{IterKey, Tree};

#[test]
fn iter_key_append_pop() {
    let mut k = IterKey::new(b"ab");
    assert_eq!(k.to_vec(), b"ab".to_vec());
    k.append(b"cd");
    assert_eq!(k.to_vec(), b"abcd".to_vec());
    k.pop(2);
    assert_eq!(k.to_vec(), b"ab".to_vec());
    k.pop(5);
    assert_eq!(k.to_vec(), Vec::<u8>::new());
}

#[test]
fn iterator_is_exhausted_after_end() {
    let mut t = Tree::single(b"a", b"1");
    t.outer_combine_with(&Tree::single(b"b", b"2"), &TakeRight);
    let mut it = t.iter();
    assert!(it.next().is_some());
    assert!(it.next().is_some());
    assert!(it.next().is_none());
    assert!(it.next().is_none());
}

#[test]
fn first_last_entry_with_accumulator() {
    let mut t = Tree::single(b"a", b"1");
    t.outer_combine_with(&Tree::single(b"ab", b"2"), &TakeRight);
    let (k, v) = t.first_entry(IterKey::new(b"pre")).unwrap();
    assert_eq!(k.to_vec(), b"prea".to_vec());
    assert_eq!(v.to_vec(), b"1".to_vec());
    let (k, v) = t.last_entry(IterKey::new(b"")).unwrap();
    assert_eq!(k.to_vec(), b"ab".to_vec());
    assert_eq!(v.to_vec(), b"2".to_vec());
    let e = Tree::empty();
    assert!(e.first_entry(IterKey::new(b"")).is_none());
    assert!(e.last_entry(IterKey::new(b"")).is_none());
}

#[test]
fn builder_cursor_rewrites_a_triple() {
    // Serialize one triple, then rewrite its prefix and value in place
    // through the typed cursor.
    let mut store = MemStore::default();
    let mut n = TreeNode::single(b"old", b"v");
    n.attach(&mut store).unwrap();
    let bytes = TreeNode::slice_to_bytes(&vec![n]).unwrap();
    let mut b = InPlaceFlexRefSeqBuilder::new(bytes);
    assert_eq!(b.source_count(), 3);
    assert_eq!(b.target_count(), 0);
    let cursor = InPlaceBuilderRef::<AtPrefix>::at_prefix(&mut b);
    let cursor = cursor.push_prefix_ref(b"new").unwrap();
    let cursor = cursor.push_value_opt(Some(b"w")).unwrap();
    cursor.move_children().unwrap();
    assert_eq!(b.total_count(), 3);
    let out = b.into_inner();
    let parsed = nodes_from_bytes(out.as_slice()).unwrap();
    assert_eq!(parsed.len(), 1);
    assert_eq!(parsed[0].prefix().load(&store).unwrap(), b"new".to_vec());
    assert_eq!(parsed[0].value().load(&store).unwrap(), Some(b"w".to_vec()));
}

#[test]
fn builder_cursor_reports_truncated_source() {
    let mut b = InPlaceFlexRefSeqBuilder::new(Vec::new());
    let cursor = InPlaceBuilderRef::<AtPrefix>::at_prefix(&mut b);
    assert!(cursor.move_prefix().is_err());
}
