//! The tree handle: one root node, a backing-store handle, and the public
//! surface: construction, lookup, ordered iteration, first and last entries,
//! and the outer-combine merges.
//!
//! The view of a tree is the ordered sequence of its `(key, value)` entries.

use vstd::prelude::*;

use crate::find::{contains_key_node, get_node, node_get};
use crate::flexref::copy_bytes;
use crate::merge::{merged, opt_bytes, outer_combine_nodes, ValueCombiner};
use crate::node::{
    append_bytes, kids, kids_entries, lemma_kids_entries_unfold, lemma_kids_wf_all,
    lemma_kids_wf_from, lemma_node_entries_wf, lemma_prepend_compose, node_canonical_root,
    node_entries, node_is_empty, node_under, node_wf, own_entries, prepend_keys, Kids, TreeNode,
};
use crate::persist::resolves;
use crate::store::{BlobStore, NoStore, StoreError};

verus! {

/// A growable path accumulator: the key handed out by the iterator.
pub struct IterKey {
    bytes: Vec<u8>,
}

impl View for IterKey {
    type V = Seq<u8>;

    closed spec fn view(&self) -> Seq<u8> {
        self.bytes@
    }
}

impl IterKey {
    /// An accumulator holding the given root path.
    pub fn new(root: &[u8]) -> (r: Self)
        ensures
            r@ == root@,
    {
        IterKey { bytes: vstd::slice::slice_to_vec(root) }
    }

    /// Append bytes to the path.
    pub fn append(&mut self, data: &[u8])
        ensures
            final(self)@ == old(self)@ + data@,
    {
        append_bytes(&mut self.bytes, data);
    }

    /// Drop the last `n` bytes of the path, or all of them if fewer remain.
    pub fn pop(&mut self, n: usize)
        ensures
            final(self)@ == old(self)@.take(
                if n <= old(self)@.len() {
                    old(self)@.len() - n
                } else {
                    0
                },
            ),
    {
        let keep = if n <= self.bytes.len() {
            self.bytes.len() - n
        } else {
            0
        };
        self.bytes.truncate(keep);
    }

    /// The accumulated path.
    pub fn as_bytes(&self) -> (r: &Vec<u8>)
        ensures
            r@ == self@,
    {
        &self.bytes
    }

    /// The accumulated path as an owned buffer.
    pub fn to_vec(&self) -> (r: Vec<u8>)
        ensures
            r@ == self@,
    {
        copy_bytes(&self.bytes)
    }
}

/// An owned value handed out by the iterators.
pub struct TreeValueRefWrapper {
    data: Vec<u8>,
}

impl View for TreeValueRefWrapper {
    type V = Seq<u8>;

    closed spec fn view(&self) -> Seq<u8> {
        self.data@
    }
}

impl TreeValueRefWrapper {
    /// Wrap an owned value.
    pub fn new(data: Vec<u8>) -> (r: Self)
        ensures
            r@ == data@,
    {
        TreeValueRefWrapper { data }
    }

    /// The value bytes.
    pub fn as_bytes(&self) -> (r: &Vec<u8>)
        ensures
            r@ == self@,
    {
        &self.data
    }

    /// The value bytes as an owned buffer.
    pub fn to_vec(&self) -> (r: Vec<u8>)
        ensures
            r@ == self@,
    {
        copy_bytes(&self.data)
    }
}

/// Collect every entry of the subtree rooted at `n` into `out`, keys below
/// `path`, in ascending key order.
fn collect_node(n: &TreeNode, path: &Vec<u8>, out: &mut Vec<(IterKey, TreeValueRefWrapper)>)
    requires
        node_wf(*n),
    ensures
        final(out)@.len() == old(out)@.len() + node_entries(*n).len(),
        final(out)@.take(old(out)@.len() as int) == old(out)@,
        forall|i: int|
            0 <= i < node_entries(*n).len() ==> ((#[trigger] final(out)@[old(out)@.len() + i]).0@
                == path@ + node_entries(*n)[i].0 && final(out)@[old(out)@.len() + i].1@
                == node_entries(*n)[i].1),
    decreases *n,
{
    proof {
        lemma_node_entries_wf(*n);
    }
    let ghost base = out@.len() as int;
    let ghost under = node_under(*n);
    let mut path2 = copy_bytes(path);
    append_bytes(&mut path2, n.prefix.bytes().as_slice());
    let ghost ownlen: int = own_entries(*n).len() as int;
    if n.value.is_some() {
        match n.value.value_opt() {
            Some(v) => {
                out.push((IterKey { bytes: copy_bytes(&path2) }, TreeValueRefWrapper { data: v }));
            },
            None => {
                proof {
                    assert(false);
                }
            },
        }
    }
    match &n.children.kids {
        Kids::Owned(kv) => {
            proof {
                lemma_kids_wf_all(kv@, 0);
            }
            let mut i: usize = 0;
            #[verifier::loop_isolation(false)]
            while i < kv.len()
                invariant
                    i <= kv.len(),
                    out@.len() == base + ownlen + kids_entries(kv@, 0).len() - kids_entries(
                        kv@,
                        i as int,
                    ).len(),
                    out@.len() >= base + ownlen,
                    out@.take(base) == old(out)@,
                    forall|t: int|
                        base <= t < out@.len() ==> ((#[trigger] out@[t]).0@ == path2@ + under[t
                            - base].0 && out@[t].1@ == under[t - base].1),
                    kids_entries(kv@, i as int).len() <= kids_entries(kv@, 0).len(),
                    kids_entries(kv@, 0).take(
                        kids_entries(kv@, 0).len() - kids_entries(kv@, i as int).len(),
                    ) + kids_entries(kv@, i as int) == kids_entries(kv@, 0),
                decreases kv.len() - i,
            {
                proof {
                    lemma_kids_wf_from(kv@, 0, i as int);
                    crate::node::lemma_kids_entries_wf(kv@, i as int);
                    crate::node::lemma_kids_entries_wf(kv@, i + 1);
                    lemma_kids_entries_unfold(kv@, i as int);
                }
                let ghost before = out@;
                collect_node(&kv[i], &path2, out);
                proof {
                    let ce = node_entries(kv@[i as int]);
                    let k0 = kids_entries(kv@, 0);
                    let done_old = k0.len() - kids_entries(kv@, i as int).len();
                    let done_new = k0.len() - kids_entries(kv@, i + 1).len();
                    assert(done_new == done_old + ce.len());
                    assert(out@.take(base) =~= old(out)@);
                    assert forall|t: int| base <= t < out@.len() implies ((#[trigger] out@[t]).0@
                        == path2@ + under[t - base].0 && out@[t].1@ == under[t - base].1) by {
                        if t < before.len() {
                            assert(out@[t] == before[t]);
                        } else {
                            let ti = t - before.len();
                            assert(out@[before.len() + ti].0@ == path2@ + ce[ti].0);
                            assert(out@[before.len() + ti].1@ == ce[ti].1);
                            assert(under[t - base] == k0[t - base - ownlen]);
                            assert(k0[t - base - ownlen] == ce[ti]);
                        }
                    }
                    assert(k0.take(done_new) + kids_entries(kv@, i + 1) =~= k0) by {
                        assert(k0.take(done_old) + kids_entries(kv@, i as int) == k0);
                    }
                }
                i = i + 1;
            }
            proof {
                assert(kids_entries(kv@, i as int).len() == 0);
            }
        },
        _ => {},
    }
    proof {
        assert(out@.len() == base + node_entries(*n).len());
        assert forall|i: int| 0 <= i < node_entries(*n).len() implies ((#[trigger] out@[base
            + i]).0@ == path@ + node_entries(*n)[i].0 && out@[base + i].1@ == node_entries(
            *n,
        )[i].1) by {
            assert(out@[base + i].0@ == path2@ + under[i].0);
            assert(path2@ =~= path@ + n.prefix@);
            assert((path@ + n.prefix@) + under[i].0 =~= path@ + (n.prefix@ + under[i].0));
            assert(node_entries(*n)[i] == (n.prefix@ + under[i].0, under[i].1));
        }
    }
}

/// A depth-first iterator over the entries of a tree, in ascending
/// lexicographic key order. The entries are collected when the handle is
/// made; the handle owns them and yields them one by one.
pub struct Iter {
    items: Vec<(IterKey, TreeValueRefWrapper)>,
    pos: usize,
}

impl Iter {
    /// The entries not yet yielded.
    pub closed spec fn remaining(&self) -> Seq<(Seq<u8>, Seq<u8>)> {
        let p = if self.pos <= self.items@.len() {
            self.pos as int
        } else {
            self.items@.len() as int
        };
        self.items@.skip(p).map_values(|e: (IterKey, TreeValueRefWrapper)| (e.0@, e.1@))
    }

    /// Yield the next entry, or `None` at the end.
    pub fn next(&mut self) -> (r: Option<(IterKey, TreeValueRefWrapper)>)
        ensures
            (match r {
                Some(kv) => old(self).remaining().len() > 0 && kv.0@ == old(self).remaining()[0].0
                    && kv.1@ == old(self).remaining()[0].1
                    && final(self).remaining() == old(self).remaining().drop_first(),
                None => old(self).remaining().len() == 0
                    && final(self).remaining() == old(self).remaining(),
            }),
    {
        if self.pos < self.items.len() {
            let k = IterKey { bytes: copy_bytes(&self.items[self.pos].0.bytes) };
            let v = TreeValueRefWrapper { data: copy_bytes(&self.items[self.pos].1.data) };
            self.pos = self.pos + 1;
            proof {
                assert(final(self).remaining() =~= old(self).remaining().drop_first());
            }
            Some((k, v))
        } else {
            proof {
                assert(self.items@.skip(self.items@.len() as int) =~= Seq::<(
                    IterKey,
                    TreeValueRefWrapper,
                )>::empty());
            }
            None
        }
    }
}

/// A depth-first iterator over the values of a tree, in ascending key
/// order, collected when the handle is made, as in [`Iter`].
pub struct Values {
    items: Vec<(IterKey, TreeValueRefWrapper)>,
    pos: usize,
}

impl Values {
    /// The values not yet yielded.
    pub closed spec fn remaining(&self) -> Seq<Seq<u8>> {
        let p = if self.pos <= self.items@.len() {
            self.pos as int
        } else {
            self.items@.len() as int
        };
        self.items@.skip(p).map_values(|e: (IterKey, TreeValueRefWrapper)| e.1@)
    }

    /// Yield the next value, or `None` at the end.
    pub fn next(&mut self) -> (r: Option<TreeValueRefWrapper>)
        ensures
            (match r {
                Some(v) => old(self).remaining().len() > 0 && v@ == old(self).remaining()[0]
                    && final(self).remaining() == old(self).remaining().drop_first(),
                None => old(self).remaining().len() == 0
                    && final(self).remaining() == old(self).remaining(),
            }),
    {
        if self.pos < self.items.len() {
            let v = TreeValueRefWrapper { data: copy_bytes(&self.items[self.pos].1.data) };
            self.pos = self.pos + 1;
            proof {
                assert(final(self).remaining() =~= old(self).remaining().drop_first());
            }
            Some(v)
        } else {
            proof {
                assert(self.items@.skip(self.items@.len() as int) =~= Seq::<(
                    IterKey,
                    TreeValueRefWrapper,
                )>::empty());
            }
            None
        }
    }
}

/// The root handle: one root node and its backing store. Even an empty tree
/// has a root node, in the canonical empty-leaf form.
pub struct Tree<S: BlobStore = NoStore> {
    pub node: TreeNode,
    pub store: S,
}

impl<S: BlobStore> View for Tree<S> {
    type V = Seq<(Seq<u8>, Seq<u8>)>;

    /// The ordered entries of the tree.
    open spec fn view(&self) -> Seq<(Seq<u8>, Seq<u8>)> {
        node_entries(self.node)
    }
}

impl<S: BlobStore> Tree<S> {
    /// The tree is fully resident, canonical, and ordered.
    pub open spec fn wf(&self) -> bool {
        node_wf(self.node) && node_canonical_root(self.node)
    }
}

impl Clone for Tree<NoStore> {
    /// An independent tree holding the same entries.
    fn clone(&self) -> (r: Self)
        ensures
            self.wf() ==> r.wf() && r@ == self@,
    {
        let node = self.node.deep_clone();
        proof {
            crate::node::lemma_mirror_node(self.node, node);
            if self.wf() {
                crate::node::lemma_wf_resident(self.node);
            }
        }
        Tree { node, store: NoStore }
    }
}

impl Tree<NoStore> {
    /// The empty tree.
    pub fn empty() -> (r: Self)
        ensures
            r.wf(),
            r@ == Seq::<(Seq<u8>, Seq<u8>)>::empty(),
    {
        Tree { node: TreeNode::empty(), store: NoStore }
    }

    /// The tree holding exactly one key-value pair.
    pub fn single(key: &[u8], value: &[u8]) -> (r: Self)
        ensures
            r.wf(),
            r@ == seq![(key@, value@)],
    {
        Tree { node: TreeNode::single(key, value), store: NoStore }
    }

    /// The value bound to `key`, if any.
    pub fn get(&self, key: &[u8]) -> (r: Option<Vec<u8>>)
        requires
            self.wf(),
        ensures
            opt_bytes(r) == node_get(self.node, key@),
    {
        get_node(&self.node, key)
    }

    /// Whether `key` is bound.
    pub fn contains_key(&self, key: &[u8]) -> (r: bool)
        requires
            self.wf(),
        ensures
            r == (node_get(self.node, key@) is Some),
    {
        contains_key_node(&self.node, key)
    }

    /// Iterate the entries in ascending key order.
    pub fn iter(&self) -> (r: Iter)
        requires
            self.wf(),
        ensures
            r.remaining() == self@,
    {
        let mut items: Vec<(IterKey, TreeValueRefWrapper)> = Vec::new();
        let path: Vec<u8> = Vec::new();
        collect_node(&self.node, &path, &mut items);
        proof {
            assert(items@.skip(0) =~= items@);
            let r = Iter { items, pos: 0 };
            assert forall|i: int| 0 <= i < self@.len() implies r.remaining()[i] == self@[i] by {
                assert(items@[0 + i].0@ == Seq::<u8>::empty() + self@[i].0);
                assert(items@[0 + i].1@ == self@[i].1);
                assert(Seq::<u8>::empty() + self@[i].0 =~= self@[i].0);
            }
            assert(r.remaining() =~= self@);
        }
        Iter { items, pos: 0 }
    }

    /// Iterate the values in ascending key order.
    pub fn values(&self) -> (r: Values)
        requires
            self.wf(),
        ensures
            r.remaining() == self@.map_values(|e: (Seq<u8>, Seq<u8>)| e.1),
    {
        let mut items: Vec<(IterKey, TreeValueRefWrapper)> = Vec::new();
        let path: Vec<u8> = Vec::new();
        collect_node(&self.node, &path, &mut items);
        proof {
            assert(items@.skip(0) =~= items@);
            let r = Values { items, pos: 0 };
            let want = self@.map_values(|e: (Seq<u8>, Seq<u8>)| e.1);
            assert forall|i: int| 0 <= i < self@.len() implies r.remaining()[i] == want[i] by {
                assert(items@[0 + i].1@ == self@[i].1);
            }
            assert(r.remaining() =~= want);
        }
        Values { items, pos: 0 }
    }

    /// The value under the smallest key, if any.
    pub fn first_value(&self) -> (r: Option<Vec<u8>>)
        requires
            self.wf(),
        ensures
            (match r {
                Some(v) => self@.len() > 0 && v@ == self@[0].1,
                None => self@.len() == 0,
            }),
    {
        self.node.first_value()
    }

    /// The value under the largest key, if any.
    pub fn last_value(&self) -> (r: Option<Vec<u8>>)
        requires
            self.wf(),
        ensures
            (match r {
                Some(v) => self@.len() > 0 && v@ == self@.last().1,
                None => self@.len() == 0,
            }),
    {
        self.node.last_value()
    }

    /// The smallest entry, its key below the given path accumulator.
    pub fn first_entry(&self, prefix: IterKey) -> (r: Option<(IterKey, TreeValueRefWrapper)>)
        requires
            self.wf(),
        ensures
            (match r {
                Some(kv) => self@.len() > 0 && kv.0@ == prefix@ + self@[0].0 && kv.1@
                    == self@[0].1,
                None => self@.len() == 0,
            }),
    {
        match self.node.first_entry(prefix.to_vec()) {
            Some((k, v)) => Some((IterKey { bytes: k }, TreeValueRefWrapper { data: v })),
            None => None,
        }
    }

    /// The largest entry, its key below the given path accumulator.
    pub fn last_entry(&self, prefix: IterKey) -> (r: Option<(IterKey, TreeValueRefWrapper)>)
        requires
            self.wf(),
        ensures
            (match r {
                Some(kv) => self@.len() > 0 && kv.0@ == prefix@ + self@.last().0 && kv.1@
                    == self@.last().1,
                None => self@.len() == 0,
            }),
    {
        match self.node.last_entry(prefix.to_vec()) {
            Some((k, v)) => Some((IterKey { bytes: k }, TreeValueRefWrapper { data: v })),
            None => None,
        }
    }

    /// The union of two trees: keys of either side appear in the result; on a
    /// key collision the rule decides, and may drop the pair.
    pub fn outer_combine<C: ValueCombiner>(&self, that: &Tree<NoStore>, f: &C) -> (r: Tree<
        NoStore,
    >)
        requires
            self.wf(),
            that.wf(),
        ensures
            r.wf(),
            r@ == merged(*f, self@, that@),
    {
        Tree { node: outer_combine_nodes(&self.node, &that.node, f), store: NoStore }
    }

    /// The union merge, rewriting this tree in place.
    pub fn outer_combine_with<C: ValueCombiner>(&mut self, that: &Tree<NoStore>, f: &C)
        requires
            old(self).wf(),
            that.wf(),
        ensures
            final(self).wf(),
            final(self)@ == merged(*f, old(self)@, that@),
    {
        let ghost a = old(self).node;
        let ghost b = that.node;
        let outcome = self.try_outer_combine_with(that, f);
        match outcome {
            Ok(()) => {
                proof {
                    crate::node::lemma_wf_resident(a);
                    crate::node::lemma_wf_resident(b);
                    crate::persist::lemma_resolves_self(a, old(self).store.contents());
                    crate::persist::lemma_resolves_self(b, that.store.contents());
                }
            },
            Err(_) => {
                proof {
                    assert(false);
                }
            },
        }
    }
}

/// Make a fully resident, canonical working copy of a node, reading every
/// stored slot through the store. On success the copy carries exactly the
/// entries of any well-formed tree the node resolves to; failure means the
/// node was not resident and a read failed or the stored data was corrupt.
fn resolve_copy<S: BlobStore>(node: &TreeNode, store: &S) -> (r: Result<TreeNode, StoreError>)
    ensures
        r is Ok ==> (exists|t: TreeNode| resolves(*node, store.contents(), t) && node_wf(t)),
        (match r {
            Ok(c) => node_wf(c) && node_canonical_root(c) && (forall|t: TreeNode|
                resolves(*node, store.contents(), t) && node_wf(t) ==> node_entries(c)
                    == node_entries(t)),
            Err(_) => !(crate::node::node_resident(*node) && node_wf(*node)),
        }),
{
    let mut copy = node.deep_clone();
    let ghost pre = copy;
    proof {
        crate::node::lemma_mirror_node(*node, pre);
        crate::node::lemma_mirror_sym(*node, pre);
    }
    match copy.detach(store, true) {
        Err(e) => {
            proof {
                if crate::node::node_resident(*node) && node_wf(*node) {
                    assert(crate::node::node_resident(pre));
                    assert(false);
                }
            }
            Err(e)
        },
        Ok(()) => {
            proof {
                // What the clone resolved to, the original resolves to.
                crate::persist::lemma_resolves_mirror_source(pre, *node, store.contents(), copy);
            }
            if copy.check_wf() {
                if copy.is_empty() {
                    let out = TreeNode::empty();
                    proof {
                        assert(resolves(*node, store.contents(), copy) && node_wf(copy));
                        assert(node_entries(copy) =~= prepend_keys(copy.prefix@, node_under(copy)));
                        assert(node_under(copy) =~= Seq::<(Seq<u8>, Seq<u8>)>::empty());
                        assert(node_entries(copy) =~= Seq::<(Seq<u8>, Seq<u8>)>::empty());
                        assert forall|t: TreeNode|
                            resolves(*node, store.contents(), t) && node_wf(t) implies node_entries(
                            out,
                        ) == node_entries(t) by {
                            crate::persist::lemma_resolution_agrees(*node, store.contents(), copy, t);
                        }
                    }
                    Ok(out)
                } else {
                    proof {
                        assert(resolves(*node, store.contents(), copy) && node_wf(copy));
                        assert forall|t: TreeNode|
                            resolves(*node, store.contents(), t) && node_wf(t) implies node_entries(
                            copy,
                        ) == node_entries(t) by {
                            crate::persist::lemma_resolution_agrees(*node, store.contents(), copy, t);
                        }
                    }
                    Ok(copy)
                }
            } else {
                proof {
                    if crate::node::node_resident(*node) && node_wf(*node) {
                        crate::persist::lemma_resolves_self(*node, store.contents());
                        crate::persist::lemma_resolution_agrees(*node, store.contents(), copy, *node);
                    }
                }
                Err(StoreError::MalformedEncoding)
            }
        },
    }
}

/// The store-reading surface: each operation resolves the tree's stored
/// slots through the backing store, fails when a needed identifier is
/// missing or its bytes are corrupt, and otherwise answers exactly for
/// every well-formed tree this one denotes. A fully resident, well-formed
/// tree — everything the infallible surface builds — is proven to succeed.
impl<S: BlobStore> Tree<S> {
    /// The value bound to `key`, if any, read through the store.
    pub fn try_get(&self, key: &[u8]) -> (r: Result<Option<Vec<u8>>, StoreError>)
        ensures
            self.wf() ==> r is Ok,
            r is Ok ==> (exists|t: TreeNode| resolves(self.node, self.store.contents(), t)
                && node_wf(t)),
            (match r {
                Ok(v) => forall|t: TreeNode|
                    resolves(self.node, self.store.contents(), t) && node_wf(t)
                        ==> opt_bytes(v) == node_get(t, key@),
                Err(_) => !self.wf(),
            }),
    {
        proof {
            if self.wf() {
                crate::node::lemma_wf_resident(self.node);
            }
        }
        match resolve_copy(&self.node, &self.store) {
            Err(e) => Err(e),
            Ok(c) => {
                let out = get_node(&c, key);
                proof {
                    assert forall|t: TreeNode|
                        resolves(self.node, self.store.contents(), t) && node_wf(t) implies
                        opt_bytes(out) == node_get(t, key@) by {
                        crate::find::lemma_get_from_entries(c, t, key@);
                    }
                }
                Ok(out)
            },
        }
    }

    /// Whether `key` is bound, read through the store.
    pub fn try_contains_key(&self, key: &[u8]) -> (r: Result<bool, StoreError>)
        ensures
            self.wf() ==> r is Ok,
            r is Ok ==> (exists|t: TreeNode| resolves(self.node, self.store.contents(), t)
                && node_wf(t)),
            (match r {
                Ok(b) => forall|t: TreeNode|
                    resolves(self.node, self.store.contents(), t) && node_wf(t) ==> b == (node_get(
                        t,
                        key@,
                    ) is Some),
                Err(_) => !self.wf(),
            }),
    {
        proof {
            if self.wf() {
                crate::node::lemma_wf_resident(self.node);
            }
        }
        match resolve_copy(&self.node, &self.store) {
            Err(e) => Err(e),
            Ok(c) => {
                let out = contains_key_node(&c, key);
                proof {
                    assert forall|t: TreeNode|
                        resolves(self.node, self.store.contents(), t) && node_wf(t) implies out == (
                        node_get(t, key@) is Some) by {
                        crate::find::lemma_get_from_entries(c, t, key@);
                    }
                }
                Ok(out)
            },
        }
    }

    /// Iterate the entries in ascending key order, read through the store.
    pub fn try_iter(&self) -> (r: Result<Iter, StoreError>)
        ensures
            self.wf() ==> r is Ok,
            r is Ok ==> (exists|t: TreeNode| resolves(self.node, self.store.contents(), t)
                && node_wf(t)),
            (match r {
                Ok(it) => forall|t: TreeNode|
                    resolves(self.node, self.store.contents(), t) && node_wf(t) ==> it.remaining()
                        == node_entries(t),
                Err(_) => !self.wf(),
            }),
    {
        proof {
            if self.wf() {
                crate::node::lemma_wf_resident(self.node);
            }
        }
        match resolve_copy(&self.node, &self.store) {
            Err(e) => Err(e),
            Ok(c) => {
                let mut items: Vec<(IterKey, TreeValueRefWrapper)> = Vec::new();
                let path: Vec<u8> = Vec::new();
                collect_node(&c, &path, &mut items);
                proof {
                    assert(items@.skip(0) =~= items@);
                    let it = Iter { items, pos: 0 };
                    assert forall|i: int| 0 <= i < node_entries(c).len() implies it.remaining()[i]
                        == node_entries(c)[i] by {
                        assert(items@[0 + i].0@ == Seq::<u8>::empty() + node_entries(c)[i].0);
                        assert(items@[0 + i].1@ == node_entries(c)[i].1);
                        assert(Seq::<u8>::empty() + node_entries(c)[i].0 =~= node_entries(c)[i].0);
                    }
                    assert(it.remaining() =~= node_entries(c));
                }
                Ok(Iter { items, pos: 0 })
            },
        }
    }

    /// Iterate the values in ascending key order, read through the store.
    pub fn try_values(&self) -> (r: Result<Values, StoreError>)
        ensures
            self.wf() ==> r is Ok,
            r is Ok ==> (exists|t: TreeNode| resolves(self.node, self.store.contents(), t)
                && node_wf(t)),
            (match r {
                Ok(vs) => forall|t: TreeNode|
                    resolves(self.node, self.store.contents(), t) && node_wf(t) ==> vs.remaining()
                        == node_entries(t).map_values(|e: (Seq<u8>, Seq<u8>)| e.1),
                Err(_) => !self.wf(),
            }),
    {
        proof {
            if self.wf() {
                crate::node::lemma_wf_resident(self.node);
            }
        }
        match resolve_copy(&self.node, &self.store) {
            Err(e) => Err(e),
            Ok(c) => {
                let mut items: Vec<(IterKey, TreeValueRefWrapper)> = Vec::new();
                let path: Vec<u8> = Vec::new();
                collect_node(&c, &path, &mut items);
                proof {
                    assert(items@.skip(0) =~= items@);
                    let vs = Values { items, pos: 0 };
                    let want = node_entries(c).map_values(|e: (Seq<u8>, Seq<u8>)| e.1);
                    assert forall|i: int| 0 <= i < node_entries(c).len() implies vs.remaining()[i]
                        == want[i] by {
                        assert(items@[0 + i].1@ == node_entries(c)[i].1);
                    }
                    assert(vs.remaining() =~= want);
                }
                Ok(Values { items, pos: 0 })
            },
        }
    }

    /// The value under the smallest key, read through the store.
    pub fn try_first_value(&self) -> (r: Result<Option<Vec<u8>>, StoreError>)
        ensures
            self.wf() ==> r is Ok,
            r is Ok ==> (exists|t: TreeNode| resolves(self.node, self.store.contents(), t)
                && node_wf(t)),
            (match r {
                Ok(v) => forall|t: TreeNode|
                    resolves(self.node, self.store.contents(), t) && node_wf(t) ==> (match v {
                        Some(bs) => node_entries(t).len() > 0 && bs@ == node_entries(t)[0].1,
                        None => node_entries(t).len() == 0,
                    }),
                Err(_) => !self.wf(),
            }),
    {
        proof {
            if self.wf() {
                crate::node::lemma_wf_resident(self.node);
            }
        }
        match resolve_copy(&self.node, &self.store) {
            Err(e) => Err(e),
            Ok(c) => Ok(c.first_value()),
        }
    }

    /// The value under the largest key, read through the store.
    pub fn try_last_value(&self) -> (r: Result<Option<Vec<u8>>, StoreError>)
        ensures
            self.wf() ==> r is Ok,
            r is Ok ==> (exists|t: TreeNode| resolves(self.node, self.store.contents(), t)
                && node_wf(t)),
            (match r {
                Ok(v) => forall|t: TreeNode|
                    resolves(self.node, self.store.contents(), t) && node_wf(t) ==> (match v {
                        Some(bs) => node_entries(t).len() > 0 && bs@ == node_entries(t).last().1,
                        None => node_entries(t).len() == 0,
                    }),
                Err(_) => !self.wf(),
            }),
    {
        proof {
            if self.wf() {
                crate::node::lemma_wf_resident(self.node);
            }
        }
        match resolve_copy(&self.node, &self.store) {
            Err(e) => Err(e),
            Ok(c) => Ok(c.last_value()),
        }
    }

    /// The smallest entry below the given path accumulator, read through the
    /// store.
    pub fn try_first_entry(&self, prefix: IterKey) -> (r: Result<
        Option<(IterKey, TreeValueRefWrapper)>,
        StoreError,
    >)
        ensures
            self.wf() ==> r is Ok,
            r is Ok ==> (exists|t: TreeNode| resolves(self.node, self.store.contents(), t)
                && node_wf(t)),
            (match r {
                Ok(kv) => forall|t: TreeNode|
                    resolves(self.node, self.store.contents(), t) && node_wf(t) ==> (match kv {
                        Some(p) => node_entries(t).len() > 0 && p.0@ == prefix@ + node_entries(
                            t,
                        )[0].0 && p.1@ == node_entries(t)[0].1,
                        None => node_entries(t).len() == 0,
                    }),
                Err(_) => !self.wf(),
            }),
    {
        proof {
            if self.wf() {
                crate::node::lemma_wf_resident(self.node);
            }
        }
        match resolve_copy(&self.node, &self.store) {
            Err(e) => Err(e),
            Ok(c) => {
                match c.first_entry(prefix.to_vec()) {
                    Some((k, v)) => Ok(
                        Some((IterKey { bytes: k }, TreeValueRefWrapper { data: v })),
                    ),
                    None => Ok(None),
                }
            },
        }
    }

    /// The largest entry below the given path accumulator, read through the
    /// store.
    pub fn try_last_entry(&self, prefix: IterKey) -> (r: Result<
        Option<(IterKey, TreeValueRefWrapper)>,
        StoreError,
    >)
        ensures
            self.wf() ==> r is Ok,
            r is Ok ==> (exists|t: TreeNode| resolves(self.node, self.store.contents(), t)
                && node_wf(t)),
            (match r {
                Ok(kv) => forall|t: TreeNode|
                    resolves(self.node, self.store.contents(), t) && node_wf(t) ==> (match kv {
                        Some(p) => node_entries(t).len() > 0 && p.0@ == prefix@ + node_entries(
                            t,
                        ).last().0 && p.1@ == node_entries(t).last().1,
                        None => node_entries(t).len() == 0,
                    }),
                Err(_) => !self.wf(),
            }),
    {
        proof {
            if self.wf() {
                crate::node::lemma_wf_resident(self.node);
            }
        }
        match resolve_copy(&self.node, &self.store) {
            Err(e) => Err(e),
            Ok(c) => {
                match c.last_entry(prefix.to_vec()) {
                    Some((k, v)) => Ok(
                        Some((IterKey { bytes: k }, TreeValueRefWrapper { data: v })),
                    ),
                    None => Ok(None),
                }
            },
        }
    }

    /// The subtree of entries whose keys start with `prefix`, read through
    /// the store; keys kept in full.
    pub fn try_filter_prefix(&self, prefix: &[u8]) -> (r: Result<Tree<NoStore>, StoreError>)
        ensures
            self.wf() ==> r is Ok,
            r is Ok ==> (exists|t: TreeNode| resolves(self.node, self.store.contents(), t)
                && node_wf(t)),
            (match r {
                Ok(sub) => sub.wf() && (forall|t: TreeNode|
                    resolves(self.node, self.store.contents(), t) && node_wf(t) ==> sub@
                        == crate::filter::entries_with_prefix(node_entries(t), prefix@)),
                Err(_) => !self.wf(),
            }),
    {
        proof {
            if self.wf() {
                crate::node::lemma_wf_resident(self.node);
            }
        }
        match resolve_copy(&self.node, &self.store) {
            Err(e) => Err(e),
            Ok(c) => Ok(
                Tree { node: crate::filter::filter_prefix_node(&c, prefix), store: NoStore },
            ),
        }
    }

    /// The union of two trees, each read through its own store; the result
    /// is a fresh resident tree.
    pub fn try_outer_combine<S2: BlobStore, C: ValueCombiner>(
        &self,
        that: &Tree<S2>,
        f: &C,
    ) -> (r: Result<Tree<NoStore>, StoreError>)
        ensures
            self.wf() && that.wf() ==> r is Ok,
            r is Ok ==> (exists|t: TreeNode| resolves(self.node, self.store.contents(), t)
                && node_wf(t)) && (exists|t: TreeNode| resolves(that.node, that.store.contents(), t)
                && node_wf(t)),
            (match r {
                Ok(u) => u.wf() && (forall|ta: TreeNode, tb: TreeNode|
                    resolves(self.node, self.store.contents(), ta) && node_wf(ta) && resolves(
                        that.node,
                        that.store.contents(),
                        tb,
                    ) && node_wf(tb) ==> u@ == merged(*f, node_entries(ta), node_entries(tb))),
                Err(_) => !(self.wf() && that.wf()),
            }),
    {
        proof {
            if self.wf() {
                crate::node::lemma_wf_resident(self.node);
            }
            if that.wf() {
                crate::node::lemma_wf_resident(that.node);
            }
        }
        let ca = match resolve_copy(&self.node, &self.store) {
            Ok(c) => c,
            Err(e) => {
                return Err(e);
            },
        };
        let cb = match resolve_copy(&that.node, &that.store) {
            Ok(c) => c,
            Err(e) => {
                return Err(e);
            },
        };
        Ok(Tree { node: outer_combine_nodes(&ca, &cb, f), store: NoStore })
    }

    /// The union merge, rewriting this tree in place, both trees read
    /// through their stores. On failure this tree is left exactly as it was.
    pub fn try_outer_combine_with<S2: BlobStore, C: ValueCombiner>(
        &mut self,
        that: &Tree<S2>,
        f: &C,
    ) -> (r: Result<(), StoreError>)
        ensures
            old(self).wf() && that.wf() ==> r is Ok,
            r is Ok ==> (exists|t: TreeNode| resolves(old(self).node, old(self).store.contents(), t)
                && node_wf(t)) && (exists|t: TreeNode| resolves(that.node, that.store.contents(), t)
                && node_wf(t)),
            (match r {
                Ok(()) => final(self).wf() && final(self).store == old(self).store && (forall|
                    ta: TreeNode,
                    tb: TreeNode,
                |
                    resolves(old(self).node, old(self).store.contents(), ta) && node_wf(ta)
                        && resolves(that.node, that.store.contents(), tb) && node_wf(tb)
                        ==> final(self)@ == merged(*f, node_entries(ta), node_entries(tb))),
                Err(_) => *final(self) == *old(self),
            }),
    {
        proof {
            if old(self).wf() {
                crate::node::lemma_wf_resident(old(self).node);
            }
            if that.wf() {
                crate::node::lemma_wf_resident(that.node);
            }
        }
        let ca = match resolve_copy(&self.node, &self.store) {
            Ok(c) => c,
            Err(e) => {
                return Err(e);
            },
        };
        let cb = match resolve_copy(&that.node, &that.store) {
            Ok(c) => c,
            Err(e) => {
                return Err(e);
            },
        };
        let mut merged_node = ca;
        crate::inplace::outer_combine_with_nodes(&mut merged_node, &cb, f);
        // Renormalize a root that came out empty to the canonical empty-leaf
        // form.
        if merged_node.is_empty() {
            proof {
                assert(node_entries(merged_node) =~= prepend_keys(
                    merged_node.prefix@,
                    node_under(merged_node),
                ));
                assert(node_under(merged_node) =~= Seq::<(Seq<u8>, Seq<u8>)>::empty());
                assert(node_entries(merged_node) =~= Seq::<(Seq<u8>, Seq<u8>)>::empty());
            }
            merged_node = TreeNode::empty();
        }
        self.node = merged_node;
        Ok(())
    }
}

} // verus!
