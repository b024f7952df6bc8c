//! Prefix-subtree extraction: the tree of exactly those entries whose key
//! starts with a given byte string, keys kept in full.

use vstd::prelude::*;

use crate::merge::common_prefix;
use crate::node::{
    append_bytes, kids, kids_entries, kids_sorted, kids_wf, lemma_kids_entries_unfold,
    lemma_kids_entries_wf, lemma_kids_wf_all, lemma_kids_wf_from, lemma_mirror_node,
    lemma_node_entries_wf, lemma_prepend_compose, lemma_shorten_model, lemma_wf_resident,
    node_canonical_root, node_entries, node_is_empty, node_under, node_wf, prepend_keys, Kids,
    TreeChildren, TreeNode, TreePrefix,
};

verus! {

/// The key starts with the byte string `p`.
pub open spec fn key_starts_with(k: Seq<u8>, p: Seq<u8>) -> bool {
    k.len() >= p.len() && k.take(p.len() as int) == p
}

/// The entries whose keys start with `p`, in their original order.
pub open spec fn entries_with_prefix(
    es: Seq<(Seq<u8>, Seq<u8>)>,
    p: Seq<u8>,
) -> Seq<(Seq<u8>, Seq<u8>)>
    decreases es.len(),
{
    if es.len() == 0 {
        Seq::empty()
    } else {
        (if key_starts_with(es[0].0, p) {
            seq![es[0]]
        } else {
            Seq::empty()
        }) + entries_with_prefix(es.drop_first(), p)
    }
}

/// The filter distributes over concatenation.
pub proof fn lemma_ewp_app(xs: Seq<(Seq<u8>, Seq<u8>)>, ys: Seq<(Seq<u8>, Seq<u8>)>, p: Seq<u8>)
    ensures
        entries_with_prefix(xs + ys, p) == entries_with_prefix(xs, p) + entries_with_prefix(
            ys,
            p,
        ),
    decreases xs.len(),
{
    if xs.len() == 0 {
        assert(xs + ys =~= ys);
        assert(entries_with_prefix(xs, p) + entries_with_prefix(ys, p) =~= entries_with_prefix(
            ys,
            p,
        ));
    } else {
        assert((xs + ys)[0] == xs[0]);
        assert((xs + ys).drop_first() =~= xs.drop_first() + ys);
        lemma_ewp_app(xs.drop_first(), ys, p);
        assert(entries_with_prefix(xs + ys, p) =~= entries_with_prefix(xs, p)
            + entries_with_prefix(ys, p));
    }
}

/// When every key starts with `p` the filter keeps everything.
pub proof fn lemma_ewp_all(es: Seq<(Seq<u8>, Seq<u8>)>, p: Seq<u8>)
    requires
        forall|i: int| 0 <= i < es.len() ==> key_starts_with(#[trigger] es[i].0, p),
    ensures
        entries_with_prefix(es, p) == es,
    decreases es.len(),
{
    if es.len() > 0 {
        lemma_ewp_all(es.drop_first(), p);
        assert(entries_with_prefix(es, p) =~= es);
    }
}

/// When no key starts with `p` the filter keeps nothing.
pub proof fn lemma_ewp_none(es: Seq<(Seq<u8>, Seq<u8>)>, p: Seq<u8>)
    requires
        forall|i: int| 0 <= i < es.len() ==> !key_starts_with(#[trigger] es[i].0, p),
    ensures
        entries_with_prefix(es, p) == Seq::<(Seq<u8>, Seq<u8>)>::empty(),
    decreases es.len(),
{
    if es.len() > 0 {
        lemma_ewp_none(es.drop_first(), p);
        assert(entries_with_prefix(es, p) =~= Seq::<(Seq<u8>, Seq<u8>)>::empty());
    }
}

/// A shared leading byte string factors out of the filter.
pub proof fn lemma_ewp_prepend(es: Seq<(Seq<u8>, Seq<u8>)>, q: Seq<u8>, rest: Seq<u8>)
    ensures
        entries_with_prefix(prepend_keys(q, es), q + rest) == prepend_keys(
            q,
            entries_with_prefix(es, rest),
        ),
    decreases es.len(),
{
    let pes = prepend_keys(q, es);
    if es.len() == 0 {
        assert(entries_with_prefix(pes, q + rest) =~= prepend_keys(
            q,
            entries_with_prefix(es, rest),
        ));
    } else {
        assert(pes[0] == (q + es[0].0, es[0].1));
        assert(pes.drop_first() =~= prepend_keys(q, es.drop_first()));
        lemma_ewp_prepend(es.drop_first(), q, rest);
        // The head is kept on one side exactly when it is kept on the other.
        assert(key_starts_with(q + es[0].0, q + rest) == key_starts_with(es[0].0, rest)) by {
            if key_starts_with(es[0].0, rest) {
                assert((q + es[0].0).take((q + rest).len() as int) =~= q + es[0].0.take(
                    rest.len() as int,
                ));
            }
            if key_starts_with(q + es[0].0, q + rest) {
                assert(es[0].0.take(rest.len() as int) =~= (q + es[0].0).take(
                    (q + rest).len() as int,
                ).skip(q.len() as int));
                assert((q + rest).skip(q.len() as int) =~= rest);
            }
        }
        assert(entries_with_prefix(pes, q + rest) =~= prepend_keys(
            q,
            entries_with_prefix(es, rest),
        ));
    }
}

/// Children whose leading byte differs from `rest`'s contribute nothing.
pub proof fn lemma_ewp_kids_none(s: Seq<TreeNode>, j: int, rest: Seq<u8>)
    requires
        kids_wf(s, j),
        kids_sorted(s),
        0 <= j,
        rest.len() > 0,
        forall|l: int| j <= l < s.len() ==> (#[trigger] s[l].prefix@)[0] != rest[0],
    ensures
        entries_with_prefix(kids_entries(s, j), rest) == Seq::<(Seq<u8>, Seq<u8>)>::empty(),
    decreases s.len() - j,
{
    if j < s.len() {
        crate::node::lemma_kids_wf_from(s, j, j + 1);
        lemma_node_entries_wf(s[j]);
        lemma_ewp_kids_none(s, j + 1, rest);
        let ce = node_entries(s[j]);
        assert forall|i: int| 0 <= i < ce.len() implies !key_starts_with(
            #[trigger] ce[i].0,
            rest,
        ) by {
            assert(ce[i].0.take(s[j].prefix@.len() as int) == s[j].prefix@);
            assert(ce[i].0[0] == s[j].prefix@[0]);
            if key_starts_with(ce[i].0, rest) {
                assert(ce[i].0.take(rest.len() as int) == rest);
                assert(ce[i].0[0] == rest[0]);
            }
        }
        lemma_ewp_none(ce, rest);
        lemma_kids_entries_unfold(s, j);
        lemma_ewp_app(ce, kids_entries(s, j + 1), rest);
        assert(entries_with_prefix(kids_entries(s, j), rest) =~= Seq::<(Seq<u8>, Seq<u8>)>::empty());
    } else {
        assert(kids_entries(s, j) =~= Seq::<(Seq<u8>, Seq<u8>)>::empty());
    }
}

/// The subtree of entries whose keys start with `key`, keys kept in full: an
/// exact match or an ancestor of a subtree keeps that whole subtree; a miss
/// yields the empty tree.
pub fn filter_prefix_node(n: &TreeNode, key: &[u8]) -> (r: TreeNode)
    requires
        node_wf(*n),
        node_canonical_root(*n),
    ensures
        node_wf(r),
        node_canonical_root(r),
        node_entries(r) == entries_with_prefix(node_entries(*n), key@),
        !node_is_empty(r) ==> r.prefix@.len() >= key@.len() && r.prefix@.take(key@.len() as int)
            == key@,
    decreases *n,
{
    proof {
        lemma_wf_resident(*n);
        lemma_node_entries_wf(*n);
    }
    let p = n.prefix.bytes();
    let m = common_prefix(p.as_slice(), key);
    if m == key.len() {
        // The search string ends inside or exactly at this node's prefix:
        // the whole subtree matches.
        let r = n.deep_clone();
        proof {
            lemma_mirror_node(*n, r);
            assert(key@ =~= n.prefix@.take(m as int));
            assert forall|i: int| 0 <= i < node_entries(*n).len() implies key_starts_with(
                (#[trigger] node_entries(*n)[i]).0,
                key@,
            ) by {
                let k = node_entries(*n)[i].0;
                assert(k.take(n.prefix@.len() as int) == n.prefix@);
                assert(k.take(m as int) =~= k.take(n.prefix@.len() as int).take(m as int));
                assert(n.prefix@.take(m as int) =~= key@);
                assert(k.take(m as int) =~= key@);
            }
            lemma_ewp_all(node_entries(*n), key@);
            if !node_is_empty(r) {
                assert(r.prefix@.take(key@.len() as int) =~= key@);
            }
        }
        r
    } else if m == p.len() {
        // The search string extends below this node: descend into the one
        // child that can hold it.
        let c = *vstd::slice::slice_index_get(key, m);
        let ghost rest = key@.skip(m as int);
        proof {
            assert(rest.len() > 0 && rest[0] == c) by {
                assert(rest[0] == key@[m as int]);
            }
            assert(n.prefix@ =~= key@.take(m as int));
            assert(key@ =~= n.prefix@ + rest);
            // The node's own entry, keyed by the bare prefix, is too short to
            // start with the search string.
            let ua = node_under(*n);
            lemma_prepend_compose(n.prefix@, rest, entries_with_prefix(ua, rest));
        }
        match &n.children.kids {
            Kids::Owned(v) => {
                proof {
                    lemma_kids_wf_all(v@, 0);
                    lemma_kids_entries_wf(v@, 0);
                }
                let mut i: usize = 0;
                let mut found: Option<TreeNode> = None;
                #[verifier::loop_isolation(false)]
                while i < v.len()
                    invariant
                        i <= v.len(),
                        found is None,
                        entries_with_prefix(kids_entries(v@, 0), rest) == entries_with_prefix(
                            kids_entries(v@, i as int),
                            rest,
                        ),
                    decreases v.len() - i,
                {
                    let first = v[i].prefix.first();
                    if first == c {
                        let sub = filter_prefix_node(&v[i], vstd::slice::slice_subrange(
                            key,
                            m,
                            key.len(),
                        ));
                        proof {
                            lemma_kids_wf_from(v@, 0, i as int);
                            crate::node::lemma_kids_wf_from(v@, 0, i + 1);
                            lemma_kids_entries_unfold(v@, i as int);
                            lemma_ewp_app(
                                node_entries(v@[i as int]),
                                kids_entries(v@, i + 1),
                                rest,
                            );
                            assert forall|l: int| i + 1 <= l < v@.len() implies (
                            #[trigger] v@[l].prefix@)[0] != rest[0] by {
                                assert(v@[i as int].prefix@[0] < v@[l].prefix@[0]);
                            }
                            lemma_ewp_kids_none(v@, i + 1, rest);
                            assert(entries_with_prefix(kids_entries(v@, 0), rest)
                                =~= node_entries(sub));
                        }
                        found = Some(sub);
                        break ;
                    } else if first > c {
                        proof {
                            lemma_kids_wf_from(v@, 0, i as int);
                            assert forall|l: int| i <= l < v@.len() implies (
                            #[trigger] v@[l].prefix@)[0] != rest[0] by {
                                if l > i {
                                    assert(v@[i as int].prefix@[0] < v@[l].prefix@[0]);
                                }
                            }
                            lemma_ewp_kids_none(v@, i as int, rest);
                        }
                        break ;
                    }
                    proof {
                        lemma_kids_wf_from(v@, 0, i as int);
                        crate::node::lemma_kids_wf_from(v@, 0, i + 1);
                        lemma_node_entries_wf(v@[i as int]);
                        let ce = node_entries(v@[i as int]);
                        assert forall|l: int| 0 <= l < ce.len() implies !key_starts_with(
                            (#[trigger] ce[l]).0,
                            rest,
                        ) by {
                            assert(ce[l].0.take(v@[i as int].prefix@.len() as int) == v@[
                            i as int].prefix@);
                            assert(ce[l].0[0] == v@[i as int].prefix@[0]);
                            if key_starts_with(ce[l].0, rest) {
                                assert(ce[l].0.take(rest.len() as int) == rest);
                                assert(ce[l].0[0] == rest[0]);
                            }
                        }
                        lemma_ewp_none(ce, rest);
                        lemma_kids_entries_unfold(v@, i as int);
                        lemma_ewp_app(ce, kids_entries(v@, i + 1), rest);
                    }
                    i = i + 1;
                }
                proof {
                    if i == v.len() && found is None {
                        assert(kids_entries(v@, i as int) =~= Seq::<(Seq<u8>, Seq<u8>)>::empty());
                    }
                }
                match found {
                    Some(sub) => {
                        if sub.is_empty() {
                            proof {
                                lemma_filter_assemble(*n, rest, Seq::empty());
                            }
                            TreeNode::empty()
                        } else {
                            // Merge this node's prefix with the filtered
                            // child, keeping the full key on its prefix.
                            let mut full = crate::flexref::copy_bytes(p);
                            append_bytes(&mut full, sub.prefix.bytes().as_slice());
                            let r = TreeNode {
                                prefix: TreePrefix::from_vec(full),
                                value: sub.value,
                                children: sub.children,
                            };
                            proof {
                                let twin = TreeNode {
                                    prefix: sub.prefix,
                                    value: r.value,
                                    children: r.children,
                                };
                                crate::node::lemma_mirror_refl(sub);
                                assert(twin == sub);
                                lemma_shorten_model(sub, r);
                                assert(node_under(r) == node_under(sub));
                                lemma_prepend_compose(n.prefix@, sub.prefix@, node_under(sub));
                                assert(r.prefix@ =~= n.prefix@ + sub.prefix@);
                                assert(node_entries(r) =~= prepend_keys(
                                    n.prefix@,
                                    node_entries(sub),
                                ));
                                lemma_filter_assemble(*n, rest, node_entries(sub));
                                assert(r.prefix@.take(key@.len() as int) =~= key@) by {
                                    assert(sub.prefix@.take(rest.len() as int) == rest);
                                    assert(key@ =~= n.prefix@ + rest);
                                    assert((n.prefix@ + sub.prefix@).take(key@.len() as int)
                                        =~= n.prefix@ + sub.prefix@.take(rest.len() as int));
                                }
                            }
                            r
                        }
                    },
                    None => {
                        proof {
                            lemma_filter_assemble(*n, rest, Seq::empty());
                        }
                        TreeNode::empty()
                    },
                }
            },
            _ => {
                proof {
                    assert(kids(*n).len() == 0);
                    assert(kids_entries(kids(*n), 0) =~= Seq::<(Seq<u8>, Seq<u8>)>::empty());
                    lemma_filter_assemble(*n, rest, Seq::empty());
                }
                TreeNode::empty()
            },
        }
    } else {
        // The search string diverges from this node's prefix: nothing below
        // here starts with it.
        proof {
            assert forall|i: int| 0 <= i < node_entries(*n).len() implies !key_starts_with(
                (#[trigger] node_entries(*n)[i]).0,
                key@,
            ) by {
                let k = node_entries(*n)[i].0;
                assert(k.take(n.prefix@.len() as int) == n.prefix@);
                if key_starts_with(k, key@) {
                    assert(k.take(key@.len() as int) == key@);
                    assert(k[m as int] == n.prefix@[m as int]) by {
                        assert(k.take(n.prefix@.len() as int)[m as int] == n.prefix@[m as int]);
                    }
                    assert(k[m as int] == key@[m as int]) by {
                        assert(k.take(key@.len() as int)[m as int] == key@[m as int]);
                    }
                }
            }
            lemma_ewp_none(node_entries(*n), key@);
        }
        TreeNode::empty()
    }
}

/// Filtering a node whose prefix the search string extends keeps exactly the
/// filtered child entries, re-keyed below the node's prefix.
pub proof fn lemma_filter_assemble(n: TreeNode, rest: Seq<u8>, sub: Seq<(Seq<u8>, Seq<u8>)>)
    requires
        node_wf(n),
        rest.len() > 0,
        entries_with_prefix(kids_entries(kids(n), 0), rest) == sub,
    ensures
        entries_with_prefix(node_entries(n), n.prefix@ + rest) == prepend_keys(n.prefix@, sub),
{
    let ua = node_under(n);
    lemma_ewp_prepend(ua, n.prefix@, rest);
    match n.value.opt() {
        Some(x) => {
            assert(ua =~= seq![(Seq::<u8>::empty(), x)] + kids_entries(kids(n), 0));
            assert(!key_starts_with(Seq::<u8>::empty(), rest));
            lemma_ewp_app(seq![(Seq::<u8>::empty(), x)], kids_entries(kids(n), 0), rest);
            lemma_ewp_none(seq![(Seq::<u8>::empty(), x)], rest);
            assert(entries_with_prefix(ua, rest) =~= sub);
        },
        None => {
            assert(ua =~= kids_entries(kids(n), 0));
        },
    }
}

} // verus!
