//! Tree construction, lookup, iteration, and the outer-combine merges.

use std::collections::BTreeMap;

use radixtree::merge::{TakeLeft, TakeRight};
use radixtree::tree::Tree;

fn mk_tree(pairs: &[(&[u8], &[u8])]) -> Tree {
    let mut t = Tree::empty();
    for (k, v) in pairs {
        t.outer_combine_with(&Tree::single(k, v), &TakeRight);
    }
    t
}

fn to_btree_map(t: &Tree) -> BTreeMap<Vec<u8>, Vec<u8>> {
    let mut out = BTreeMap::new();
    let mut it = t.iter();
    while let Some((k, v)) = it.next() {
        out.insert(k.to_vec(), v.to_vec());
    }
    out
}

fn reference_union(
    a: &BTreeMap<Vec<u8>, Vec<u8>>,
    b: &BTreeMap<Vec<u8>, Vec<u8>>,
) -> BTreeMap<Vec<u8>, Vec<u8>> {
    let mut r = a.clone();
    for (k, v) in b {
        r.insert(k.clone(), v.clone());
    }
    r
}

#[test]
fn union_with1() {
    let a: BTreeMap<Vec<u8>, Vec<u8>> = vec![(vec![1], vec![]), (vec![2], vec![])]
        .into_iter()
        .collect();
    let b: BTreeMap<Vec<u8>, Vec<u8>> = vec![(vec![1, 2], vec![]), (vec![2], vec![])]
        .into_iter()
        .collect();
    let mut at = mk_tree(&[(&[1], &[]), (&[2], &[])]);
    let bt = mk_tree(&[(&[1, 2], &[]), (&[2], &[])]);
    at.outer_combine_with(&bt, &TakeRight);
    let rbu = to_btree_map(&at);
    let rbu_reference = reference_union(&a, &b);
    assert_eq!(rbu, rbu_reference);
}

#[test]
fn union_with2() {
    let a: BTreeMap<Vec<u8>, Vec<u8>> = vec![(vec![], vec![])].into_iter().collect();
    let b: BTreeMap<Vec<u8>, Vec<u8>> = vec![(vec![], vec![0])].into_iter().collect();
    let mut at = mk_tree(&[(&[], &[])]);
    let bt = mk_tree(&[(&[], &[0])]);
    at.outer_combine_with(&bt, &TakeRight);
    let rbu = to_btree_map(&at);
    let rbu_reference = reference_union(&a, &b);
    assert_eq!(rbu, rbu_reference);
}

#[test]
fn union_with3() {
    let a: BTreeMap<Vec<u8>, Vec<u8>> = vec![(vec![], vec![])].into_iter().collect();
    let b: BTreeMap<Vec<u8>, Vec<u8>> = vec![(vec![], vec![]), (vec![1], vec![])]
        .into_iter()
        .collect();
    let mut at = mk_tree(&[(&[], &[])]);
    let bt = mk_tree(&[(&[], &[]), (&[1], &[])]);
    at.outer_combine_with(&bt, &TakeRight);
    let rbu = to_btree_map(&at);
    let rbu_reference = reference_union(&a, &b);
    assert_eq!(rbu, rbu_reference);
}

#[test]
fn union_smoke() {
    println!("disjoint");
    let a = Tree::single(b"a".as_ref(), b"1".as_ref());
    let b = Tree::single(b"b".as_ref(), b"2".as_ref());
    let mut r = a;
    r.outer_combine_with(&b, &TakeRight);
    for (k, v) in to_btree_map(&r) {
        println!("{:?} {:?}", k, v);
    }

    println!("same prefix");
    let a = Tree::single(b"ab".as_ref(), b"1".as_ref());
    let b = Tree::single(b"ab".as_ref(), b"2".as_ref());
    let mut r = a;
    r.outer_combine_with(&b, &TakeRight);
    for (k, v) in to_btree_map(&r) {
        println!("{:?} {:?}", k, v);
    }

    println!("a prefix of b");
    let a = Tree::single(b"a".as_ref(), b"1".as_ref());
    let b = Tree::single(b"ab".as_ref(), b"2".as_ref());
    let mut r = a;
    r.outer_combine_with(&b, &TakeRight);
    for (k, v) in to_btree_map(&r) {
        println!("{:?} {:?}", k, v);
    }

    println!("b prefix of a");
    let a = Tree::single(b"ab".as_ref(), b"1".as_ref());
    let b = Tree::single(b"a".as_ref(), b"2".as_ref());
    let mut r = a;
    r.outer_combine_with(&b, &TakeRight);
    for (k, v) in to_btree_map(&r) {
        println!("{:?} {:?}", k, v);
    }
}

#[test]
fn combine_scenario_disjoint_singles() {
    let mut a = Tree::single(b"a", b"1");
    let b = Tree::single(b"b", b"2");
    a.outer_combine_with(&b, &TakeRight);
    let got: Vec<(Vec<u8>, Vec<u8>)> = to_btree_map(&a).into_iter().collect();
    assert_eq!(
        got,
        vec![(b"a".to_vec(), b"1".to_vec()), (b"b".to_vec(), b"2".to_vec())]
    );
}

#[test]
fn combine_scenario_equal_keys() {
    let mut a = Tree::single(b"ab", b"1");
    let b = Tree::single(b"ab", b"2");
    a.outer_combine_with(&b, &TakeRight);
    let got: Vec<(Vec<u8>, Vec<u8>)> = to_btree_map(&a).into_iter().collect();
    assert_eq!(got, vec![(b"ab".to_vec(), b"2".to_vec())]);
}

#[test]
fn combine_scenario_nested_keys() {
    let mut a = Tree::single(b"a", b"1");
    let b = Tree::single(b"ab", b"2");
    a.outer_combine_with(&b, &TakeRight);
    let got: Vec<(Vec<u8>, Vec<u8>)> = to_btree_map(&a).into_iter().collect();
    assert_eq!(
        got,
        vec![(b"a".to_vec(), b"1".to_vec()), (b"ab".to_vec(), b"2".to_vec())]
    );
}

#[test]
fn combine_scenario_overlapping_prefixes() {
    let a_pairs: &[(&[u8], &[u8])] = &[(b"1", b""), (b"2", b"")];
    let b_pairs: &[(&[u8], &[u8])] = &[(b"12", b""), (b"2", b"")];
    let mut at = mk_tree(a_pairs);
    let bt = mk_tree(b_pairs);
    let a_map = to_btree_map(&at);
    let b_map = to_btree_map(&bt);
    at.outer_combine_with(&bt, &TakeRight);
    assert_eq!(to_btree_map(&at), reference_union(&a_map, &b_map));
}

#[test]
fn combine_left_bias() {
    let a = Tree::single(b"k", b"left");
    let b = Tree::single(b"k", b"right");
    let r = a.outer_combine(&b, &TakeLeft);
    assert_eq!(r.get(b"k"), Some(b"left".to_vec()));
    let r2 = a.outer_combine(&b, &TakeRight);
    assert_eq!(r2.get(b"k"), Some(b"right".to_vec()));
}

#[test]
fn combine_idempotent() {
    let mut once = mk_tree(&[(b"ape", b"1"), (b"apple", b"2"), (b"b", b"3")]);
    let other = mk_tree(&[(b"ap", b"9"), (b"apple", b"x")]);
    once.outer_combine_with(&other, &TakeRight);
    let mut twice = once.outer_combine(&other, &TakeRight);
    assert_eq!(to_btree_map(&once), to_btree_map(&twice));
    twice.outer_combine_with(&other, &TakeRight);
    assert_eq!(to_btree_map(&once), to_btree_map(&twice));
}

#[test]
fn combine_identity() {
    let a = mk_tree(&[(b"", b"root"), (b"x", b"1"), (b"xy", b"2")]);
    let e = Tree::empty();
    let r = a.outer_combine(&e, &TakeRight);
    assert_eq!(to_btree_map(&a), to_btree_map(&r));
    let l = e.outer_combine(&a, &TakeRight);
    assert_eq!(to_btree_map(&a), to_btree_map(&l));
}

#[test]
fn roundtrip_sorted_mapping() {
    let pairs: Vec<(Vec<u8>, Vec<u8>)> = vec![
        (b"".to_vec(), b"e".to_vec()),
        (b"a".to_vec(), b"1".to_vec()),
        (b"ab".to_vec(), b"2".to_vec()),
        (b"abc".to_vec(), b"3".to_vec()),
        (b"b".to_vec(), b"4".to_vec()),
        (b"ba".to_vec(), b"5".to_vec()),
    ];
    let mut t = Tree::empty();
    for (k, v) in &pairs {
        t.outer_combine_with(&Tree::single(k, v), &TakeRight);
    }
    let mut got: Vec<(Vec<u8>, Vec<u8>)> = Vec::new();
    let mut it = t.iter();
    while let Some((k, v)) = it.next() {
        got.push((k.to_vec(), v.to_vec()));
    }
    assert_eq!(got, pairs);
}

#[test]
fn get_and_contains() {
    let t = mk_tree(&[(b"app", b"1"), (b"apple", b"2"), (b"banana", b"3")]);
    assert_eq!(t.get(b"app"), Some(b"1".to_vec()));
    assert_eq!(t.get(b"apple"), Some(b"2".to_vec()));
    assert_eq!(t.get(b"banana"), Some(b"3".to_vec()));
    assert_eq!(t.get(b"ap"), None);
    assert_eq!(t.get(b"appl"), None);
    assert_eq!(t.get(b"bananas"), None);
    assert_eq!(t.get(b""), None);
    assert!(t.contains_key(b"app"));
    assert!(!t.contains_key(b"ap"));
    let e = Tree::empty();
    assert_eq!(e.get(b""), None);
    assert!(!e.contains_key(b"a"));
}

#[test]
fn first_and_last() {
    let t = mk_tree(&[(b"b", b"2"), (b"a", b"1"), (b"c", b"3")]);
    assert_eq!(t.first_value(), Some(b"1".to_vec()));
    assert_eq!(t.last_value(), Some(b"3".to_vec()));
    let e = Tree::empty();
    assert_eq!(e.first_value(), None);
    assert_eq!(e.last_value(), None);
    let nested = mk_tree(&[(b"a", b"1"), (b"ab", b"2"), (b"abc", b"3")]);
    assert_eq!(nested.first_value(), Some(b"1".to_vec()));
    assert_eq!(nested.last_value(), Some(b"3".to_vec()));
}

#[test]
fn values_iteration() {
    let t = mk_tree(&[(b"b", b"2"), (b"a", b"1"), (b"c", b"3")]);
    let mut vs = t.values();
    let mut got: Vec<Vec<u8>> = Vec::new();
    while let Some(v) = vs.next() {
        got.push(v.to_vec());
    }
    assert_eq!(got, vec![b"1".to_vec(), b"2".to_vec(), b"3".to_vec()]);
}

#[test]
fn try_variants_agree() {
    let mut t = mk_tree(&[(b"a", b"1"), (b"b", b"2")]);
    assert_eq!(t.try_get(b"a").unwrap(), Some(b"1".to_vec()));
    assert!(t.try_contains_key(b"b").unwrap());
    assert_eq!(t.try_first_value().unwrap(), Some(b"1".to_vec()));
    assert_eq!(t.try_last_value().unwrap(), Some(b"2".to_vec()));
    let other = mk_tree(&[(b"b", b"9"), (b"c", b"3")]);
    let u = t.try_outer_combine(&other, &TakeRight).unwrap();
    assert_eq!(u.get(b"b"), Some(b"9".to_vec()));
    t.try_outer_combine_with(&other, &TakeRight).unwrap();
    assert_eq!(t.get(b"b"), Some(b"9".to_vec()));
    assert_eq!(t.get(b"c"), Some(b"3".to_vec()));
}

#[test]
fn combine_dropping_rule_can_empty_the_tree() {
    let mut a = Tree::single(b"k", b"1");
    let b = Tree::single(b"k", b"2");
    a.outer_combine_with(&b, &radixtree::merge::TakeNeither);
    assert_eq!(to_btree_map(&a), BTreeMap::new());
    assert_eq!(a.get(b"k"), None);
}

#[test]
fn filter_prefix_subtrees() {
    let t = mk_tree(&[
        (b"app", b"1"),
        (b"apple", b"2"),
        (b"apricot", b"3"),
        (b"banana", b"4"),
    ]);
    let ap = t.try_filter_prefix(b"ap").unwrap();
    let got: Vec<(Vec<u8>, Vec<u8>)> = to_btree_map(&ap).into_iter().collect();
    assert_eq!(
        got,
        vec![
            (b"app".to_vec(), b"1".to_vec()),
            (b"apple".to_vec(), b"2".to_vec()),
            (b"apricot".to_vec(), b"3".to_vec()),
        ]
    );
    let exact = t.try_filter_prefix(b"banana").unwrap();
    assert_eq!(exact.get(b"banana"), Some(b"4".to_vec()));
    let none = t.try_filter_prefix(b"zebra").unwrap();
    assert!(to_btree_map(&none).is_empty());
    let all = t.try_filter_prefix(b"").unwrap();
    assert_eq!(to_btree_map(&all), to_btree_map(&t));
}

#[test]
fn smoke() {
    let a = Tree::single(b"aaaa", b"b");
    let b = Tree::single(b"aa", b"d");
    let r = a.outer_combine(&b, &TakeRight);
    assert_eq!(r.get(b"aaaa"), Some(b"b".to_vec()));
    assert_eq!(r.get(b"aa"), Some(b"d".to_vec()));

    let mut t = Tree::empty();
    for i in 0u64..100 {
        let txt = i.to_string();
        let bs = txt.as_bytes();
        t = t.outer_combine(&Tree::single(bs, bs), &TakeRight);
    }
    let mut it = t.iter();
    let mut count = 0usize;
    let mut prev: Option<Vec<u8>> = None;
    while let Some((k, v)) = it.next() {
        let kb = k.to_vec();
        assert_eq!(v.to_vec(), kb);
        if let Some(p) = &prev {
            assert!(p < &kb);
        }
        prev = Some(kb);
        count += 1;
    }
    assert_eq!(count, 100);
    for i in 0u64..100 {
        let txt = i.to_string();
        assert_eq!(t.get(txt.as_bytes()), Some(txt.as_bytes().to_vec()));
    }
}

#[test]
fn try_entry_accessors() {
    let t = mk_tree(&[(b"a", b"1"), (b"ab", b"2"), (b"b", b"3")]);
    let mut vs = t.try_values().unwrap();
    let mut got = Vec::new();
    while let Some(v) = vs.next() {
        got.push(v.to_vec());
    }
    assert_eq!(got, vec![b"1".to_vec(), b"2".to_vec(), b"3".to_vec()]);
    let (k, v) = t
        .try_first_entry(radixtree::tree::IterKey::new(b"pre"))
        .unwrap()
        .unwrap();
    assert_eq!(k.to_vec(), b"prea".to_vec());
    assert_eq!(v.to_vec(), b"1".to_vec());
    let (k, v) = t
        .try_last_entry(radixtree::tree::IterKey::new(b""))
        .unwrap()
        .unwrap();
    assert_eq!(k.to_vec(), b"b".to_vec());
    assert_eq!(v.to_vec(), b"3".to_vec());
    let e = Tree::empty();
    assert!(e.try_first_entry(radixtree::tree::IterKey::new(b"")).unwrap().is_none());
    assert!(e.try_last_entry(radixtree::tree::IterKey::new(b"")).unwrap().is_none());
}
