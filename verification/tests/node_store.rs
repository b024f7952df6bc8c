//! Node construction and moving node data in and out of a backing store.

use radixtree::merge::TakeRight;
use radixtree::node::TreeNode;
use radixtree::store::{BlobStore, MemStore, StoreError};
use radixtree::tree::Tree;

#[test]
fn tree_node_create() {
    let store = MemStore::default();
    let node = TreeNode::leaf(b"abcd");
    assert!(node.prefix().load(&store).unwrap() == Vec::<u8>::new());
    assert!(node.value().load(&store).unwrap() == Some(b"abcd".to_vec()));
    assert!(node.children().load(&store).unwrap().is_empty());
    println!("{:?}", node);
    let node = TreeNode::leaf(b"abcdefgh");
    println!("{:?}", node);
    let node = TreeNode::single(b"abcd", b"ijklmnop");
    println!("{:?}", node);
    let node = TreeNode::single(b"abcdefgh", b"ijklmnop");
    println!("{:?}", node);
    let node = TreeNode::new(b"a", None, vec![node]);
    println!("{:?}", node);
}

#[test]
fn tree_node_attach_detach() {
    let mut store = MemStore::default();
    let node = TreeNode::single(b"abcdefgh", b"ijklmnop");
    let mut node = TreeNode::new(b"a", None, vec![node]);
    println!("{:?}", node);
    node.attach(&mut store).unwrap();
    println!("{:?}", node);
    node.detach(&store, true).unwrap();
    println!("{:?}", node);
    println!("{:?}", store);
    // The round trip restores what the node held.
    assert!(node.prefix().load(&store).unwrap() == b"a".to_vec());
    assert!(node.value().load(&store).unwrap() == None);
    let kids = node.children().load(&store).unwrap();
    assert!(kids.len() == 1);
    assert!(kids[0].prefix().load(&store).unwrap() == b"abcdefgh".to_vec());
    assert!(kids[0].value().load(&store).unwrap() == Some(b"ijklmnop".to_vec()));
}

#[test]
fn attach_detach_long_buffers() {
    // Prefixes and values beyond the inline limit must travel through the
    // store and come back unchanged.
    let mut store = MemStore::default();
    let long_key: Vec<u8> = (0..200u8).collect();
    let long_val: Vec<u8> = (0..255u8).rev().collect();
    let mut node = TreeNode::single(&long_key, &long_val);
    node.attach(&mut store).unwrap();
    node.detach(&store, true).unwrap();
    assert_eq!(node.prefix().load(&store).unwrap(), long_key);
    assert_eq!(node.value().load(&store).unwrap(), Some(long_val));
}

#[test]
fn store_read_failure() {
    let store = MemStore::default();
    assert_eq!(store.read(1), Err(StoreError::StoreReadFailure));
    let mut store = MemStore::default();
    let id = store.append(b"abc").unwrap();
    assert_eq!(store.read(id).unwrap(), b"abc".to_vec());
    assert_eq!(store.read(id + 1), Err(StoreError::StoreReadFailure));
}

#[test]
fn node_is_empty_forms() {
    let e = TreeNode::empty();
    assert!(e.is_empty());
    let l = TreeNode::leaf(b"v");
    assert!(!l.is_empty());
    let s = TreeNode::single(b"k", b"v");
    assert!(!s.is_empty());
}

#[test]
fn attach_of_serializable_node_needs_no_store() {
    // A node whose slots already fit the wire format performs no append.
    let mut store = MemStore::default();
    let mut node = TreeNode::single(b"k", b"v");
    node.attach(&mut store).unwrap();
    assert!(store.read(1).is_err());
    // And detaching a fully resident node always succeeds.
    let mut resident = TreeNode::single(b"a", b"b");
    resident.detach(&store, true).unwrap();
}

#[test]
fn tree_clone_is_independent() {
    let mut a = Tree::single(b"x", b"1");
    let b = a.clone();
    a.outer_combine_with(&Tree::single(b"y", b"2"), &TakeRight);
    assert_eq!(a.get(b"y"), Some(b"2".to_vec()));
    assert_eq!(b.get(b"y"), None);
    assert_eq!(b.get(b"x"), Some(b"1".to_vec()));
}

#[test]
fn lookup_through_the_store() {
    // A tree whose node lives partly in the store answers lookups by
    // reading the stored slots back.
    let mut store = MemStore::default();
    let mut resident = Tree::single(b"abcdefgh", b"ijklmnop");
    resident.outer_combine_with(&Tree::single(b"abcdzzzz", b"q"), &TakeRight);
    let mut node = resident.node.deep_clone();
    node.attach(&mut store).unwrap();
    let t = Tree { node, store };
    assert_eq!(t.try_get(b"abcdefgh").unwrap(), Some(b"ijklmnop".to_vec()));
    assert_eq!(t.try_get(b"abcdzzzz").unwrap(), Some(b"q".to_vec()));
    assert_eq!(t.try_get(b"abcd").unwrap(), None);
    assert!(t.try_contains_key(b"abcdzzzz").unwrap());
    assert_eq!(t.try_first_value().unwrap(), Some(b"ijklmnop".to_vec()));
    assert_eq!(t.try_last_value().unwrap(), Some(b"q".to_vec()));
    let mut it = t.try_iter().unwrap();
    let mut seen = Vec::new();
    while let Some((k, v)) = it.next() {
        seen.push((k.to_vec(), v.to_vec()));
    }
    assert_eq!(
        seen,
        vec![
            (b"abcdefgh".to_vec(), b"ijklmnop".to_vec()),
            (b"abcdzzzz".to_vec(), b"q".to_vec()),
        ]
    );
}

#[test]
fn missing_identifier_is_an_error_and_merge_keeps_state() {
    // The same attached node against an empty store: every identifier is
    // missing, so the fallible surface reports the failure, and the
    // in-place merge leaves the tree untouched.
    let mut store = MemStore::default();
    let mut resident = Tree::single(b"abcdefgh", b"ijklmnop");
    resident.outer_combine_with(&Tree::single(b"abcdzzzz", b"q"), &TakeRight);
    let mut node = resident.node;
    node.attach(&mut store).unwrap();
    let mut t = Tree {
        node,
        store: MemStore::default(),
    };
    assert!(t.try_get(b"abcdefgh").is_err());
    assert!(t.try_iter().is_err());
    let other = Tree::single(b"x", b"y");
    assert!(t.try_outer_combine(&other, &TakeRight).is_err());
    assert!(t.try_outer_combine_with(&other, &TakeRight).is_err());
    // Still the same stored node: give it its store back and it answers.
    let healed = Tree {
        node: t.node.deep_clone(),
        store,
    };
    assert_eq!(healed.try_get(b"abcdefgh").unwrap(), Some(b"ijklmnop".to_vec()));
}

#[test]
fn attach_keeps_already_stored_slots() {
    // Attaching twice is harmless: slots already held by identifier are
    // left as they stand, and the node still denotes the same tree.
    let mut store = MemStore::default();
    let inner = TreeNode::single(b"abcdefgh", b"ijklmnop");
    let mut node = TreeNode::new(b"a", None, vec![inner]);
    node.attach(&mut store).unwrap();
    let before = format!("{:?}", node);
    node.attach(&mut store).unwrap();
    assert_eq!(format!("{:?}", node), before);
    node.detach(&store, true).unwrap();
    assert_eq!(node.prefix().load(&store).unwrap(), b"a".to_vec());
    let kids = node.children().load(&store).unwrap();
    assert_eq!(kids.len(), 1);
    assert_eq!(
        kids[0].value().load(&store).unwrap(),
        Some(b"ijklmnop".to_vec())
    );
}

#[test]
fn unsplit_compresses_whole_chains() {
    // A chain of value-less single-child nodes collapses into one prefix.
    let store = MemStore::default();
    let leafish = TreeNode::single(b"c", b"v");
    let mid = TreeNode::new(b"b", None, vec![leafish]);
    let mut root = TreeNode::new(b"a", None, vec![mid]);
    root.unsplit();
    assert_eq!(root.prefix().load(&store).unwrap(), b"abc".to_vec());
    assert_eq!(root.value().load(&store).unwrap(), Some(b"v".to_vec()));
    assert!(root.children().load(&store).unwrap().is_empty());
    // A node that carries its own value is left alone.
    let kid = TreeNode::single(b"y", b"2");
    let mut valued = TreeNode::new(b"x", Some(b"1".as_slice()), vec![kid]);
    valued.unsplit();
    assert_eq!(valued.prefix().load(&store).unwrap(), b"x".to_vec());
    assert_eq!(valued.value().load(&store).unwrap(), Some(b"1".to_vec()));
}
