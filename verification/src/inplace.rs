//! The in-place form of the outer-combine merge: it rewrites the first
//! tree's nodes in place, reading the second tree, instead of allocating a
//! fresh tree. Unmatched siblings of the first tree stay where they are;
//! siblings of the second tree are spliced in; colliding siblings are merged
//! in place, and dropped when the merge comes back empty.

use vstd::prelude::*;

use crate::lex::{lemma_lex_first_byte, lex_lt};
use crate::merge::{
    common_prefix, lemma_merged_empty, lemma_merged_lt_left, lemma_merged_lt_right,
    lemma_merged_prepend, lemma_merged_split, merged, own_entries_of, ValueCombiner,
};
use crate::node::{
    kids, kids_entries, kids_size, kids_sorted, kids_wf, lemma_kids_entries_take_split, lemma_skip_succ,
    lemma_kids_entries_unfold, lemma_kids_entries_wf, lemma_kids_entries_push, lemma_kids_size_le,
    lemma_kids_suffix, lemma_kids_wf_all, lemma_kids_wf_from, lemma_kids_wf_from_all,
    lemma_kids_mirror_refl, lemma_mirror_node, lemma_node_entries_wf, lemma_prepend_compose,
    lemma_shorten_model, lemma_wf_resident, node_canonical_root, node_entries, node_is_empty,
    node_mirror, node_resident, node_size, node_under, node_wf, prepend_keys, Kids, TreeChildren,
    TreeNode, TreePrefix, TreeValue,
};

verus! {

/// Merge the children of the second tree into a child sequence in place.
#[verifier::rlimit(100)]
fn outer_combine_children_with<C: ValueCombiner>(ac: &mut TreeChildren, bc: &TreeChildren, c: &C)
    requires
        old(ac).is_resident(),
        kids_wf(old(ac).nodes(), 0),
        kids_sorted(old(ac).nodes()),
        kids_wf(bc.nodes(), 0),
        kids_sorted(bc.nodes()),
    ensures
        final(ac).is_resident(),
        kids_wf(final(ac).nodes(), 0),
        kids_sorted(final(ac).nodes()),
        kids_entries(final(ac).nodes(), 0) == merged(
            *c,
            kids_entries(old(ac).nodes(), 0),
            kids_entries(bc.nodes(), 0),
        ),
    decreases kids_size(old(ac).nodes(), 0) + kids_size(bc.nodes(), 0) + 1,
{
    let ghost orig = old(ac).nodes();
    let ghost kb0 = kids_entries(bc.nodes(), 0);
    proof {
        lemma_kids_wf_all(orig, 0);
    }
    match &bc.kids {
        Kids::Owned(bjs) => {
            proof {
                lemma_kids_wf_all(bjs@, 0);
            }
            let mut taken = TreeChildren { kids: Kids::Empty };
            core::mem::swap(ac, &mut taken);
            let mut v: Vec<TreeNode> = match taken.kids {
                Kids::Owned(vv) => vv,
                Kids::Empty => Vec::new(),
                Kids::Stored(_) => vstd::pervasive::unreached(),
            };
            proof {
                assert(v@ =~= orig);
            }
            let mut i: usize = 0;
            let mut j: usize = 0;
            let ghost mut k: int = 0;
            #[verifier::loop_isolation(false)]
            while i < v.len() || j < bjs.len()
                invariant
                    i <= v.len(),
                    j <= bjs.len(),
                    0 <= k <= orig.len(),
                    v@.skip(i as int) == orig.skip(k),
                    merged(*c, kids_entries(orig, 0), kb0) == kids_entries(v@.take(i as int), 0)
                        + merged(*c, kids_entries(orig, k), kids_entries(bjs@, j as int)),
                    forall|t: int|
                        0 <= t < i ==> node_wf(#[trigger] v@[t]) && v@[t].prefix@.len() > 0
                            && !node_is_empty(v@[t]),
                    forall|t: int, u: int|
                        0 <= t < u < i ==> (#[trigger] v@[t].prefix@[0])
                            < (#[trigger] v@[u].prefix@[0]),
                    forall|t: int, l: int|
                        0 <= t < i && k <= l < orig.len() ==> (#[trigger] v@[t].prefix@[0])
                            < (#[trigger] orig[l].prefix@[0]),
                    forall|t: int, l: int|
                        0 <= t < i && j <= l < bjs@.len() ==> (#[trigger] v@[t].prefix@[0])
                            < (#[trigger] bjs@[l].prefix@[0]),
                decreases v.len() - i + bjs.len() - j,
            {
                proof {
                    assert(v@.skip(i as int).len() == v@.len() - i);
                    assert(orig.skip(k).len() == orig.len() - k);
                    assert(v@.len() - i == orig.len() - k);
                    if i < v.len() {
                        assert(k < orig.len());
                        assert(v@.skip(i as int)[0] == v@[0 + i]);
                        assert(orig.skip(k)[0] == orig[0 + k]);
                        assert(v@[i as int] == orig[k]);
                    }
                    lemma_kids_suffix(v@, i as int, orig, k);
                    lemma_kids_wf_from(orig, 0, k);
                    lemma_kids_wf_from(bjs@, 0, j as int);
                    lemma_kids_wf_from(bjs@, 0, j + 1);
                    lemma_kids_wf_from(orig, 0, k + 1);
                    lemma_kids_entries_wf(bjs@, j as int);
                    lemma_kids_entries_wf(orig, k);
                    if k < orig.len() {
                        lemma_node_entries_wf(orig[k]);
                        lemma_kids_entries_wf(orig, k + 1);
                    }
                    if j < bjs.len() {
                        lemma_node_entries_wf(bjs@[j as int]);
                        lemma_kids_entries_wf(bjs@, j + 1);
                    }
                    lemma_kids_entries_take_split(v@, i as int);
                }
                let take_a = if j >= bjs.len() {
                    true
                } else if i >= v.len() {
                    false
                } else {
                    v[i].prefix.first() < bjs[j].prefix.first()
                };
                let take_b = if !take_a {
                    if i >= v.len() {
                        true
                    } else if j >= bjs.len() {
                        false
                    } else {
                        bjs[j].prefix.first() < v[i].prefix.first()
                    }
                } else {
                    false
                };
                if take_a {
                    // The next resident sibling stays where it is.
                    proof {
                        assert(i < v.len());
                    }
                    let ghost eak = node_entries(orig[k]);
                    proof {
                        assert(v@[i as int] == orig[k]);
                        crate::merge::lemma_pass_left(*c, orig, k, bjs@, j as int);
                        assert(v@.take(i + 1) =~= v@.take(i as int).push(v@[i as int]));
                        lemma_kids_entries_push(v@.take(i as int), v@[i as int], 0);
                        assert((kids_entries(v@.take(i as int), 0) + eak) + merged(
                            *c,
                            kids_entries(orig, k + 1),
                            kids_entries(bjs@, j as int),
                        ) =~= kids_entries(v@.take(i as int), 0) + (eak + merged(
                            *c,
                            kids_entries(orig, k + 1),
                            kids_entries(bjs@, j as int),
                        )));
                        lemma_skip_succ(v@, i as int, orig, k);
                        assert(v@.skip(i + 1) =~= orig.skip(k + 1));
                    }
                    i = i + 1;
                    proof {
                        k = k + 1;
                    }
                } else if take_b {
                    // Splice in a copy of the second tree's sibling.
                    proof {
                        assert(j < bjs.len());
                    }
                    let ghost ebj = node_entries(bjs@[j as int]);
                    proof {
                        crate::merge::lemma_pass_right(*c, orig, k, bjs@, j as int);
                    }
                    let cl = bjs[j].deep_clone();
                    proof {
                        lemma_mirror_node(bjs@[j as int], cl);
                        lemma_wf_resident(bjs@[j as int]);
                    }
                    let ghost vbefore = v@;
                    v.insert(i, cl);
                    proof {
                        assert(v@.take(i + 1) =~= vbefore.take(i as int).push(cl));
                        assert(v@.skip(i + 1) =~= vbefore.skip(i as int));
                        lemma_kids_entries_push(vbefore.take(i as int), cl, 0);
                        assert((kids_entries(vbefore.take(i as int), 0) + ebj) + merged(
                            *c,
                            kids_entries(orig, k),
                            kids_entries(bjs@, j + 1),
                        ) =~= kids_entries(vbefore.take(i as int), 0) + (ebj + merged(
                            *c,
                            kids_entries(orig, k),
                            kids_entries(bjs@, j + 1),
                        )));
                        assert forall|t: int| 0 <= t < i + 1 implies node_wf(#[trigger] v@[t])
                            && v@[t].prefix@.len() > 0 && !node_is_empty(v@[t]) by {
                            if t < i {
                                assert(v@[t] == vbefore[t]);
                            } else {
                                assert(v@[t] == cl);
                            }
                        }
                        assert(i < v@.len());
                    }
                    let grown = v.len();
                    i = i + 1;
                    j = j + 1;
                } else {
                    // Equal leading bytes: merge the colliding siblings in
                    // place.
                    proof {
                        assert(i < v.len() && j < bjs.len());
                    }
                    let ghost eak = node_entries(orig[k]);
                    let ghost ebj = node_entries(bjs@[j as int]);
                    proof {
                        assert(v@[i as int] == orig[k]);
                        lemma_kids_size_le(orig, 0, k);
                        lemma_kids_size_le(bjs@, 0, j as int);
                        crate::merge::lemma_split_at_collision(*c, orig, k, bjs@, j as int);
                    }
                    let ghost vbefore = v@;
                    let mut el = v.remove(i);
                    proof {
                        assert(el == orig[k]);
                        assert(node_canonical_root(el));
                        assert(node_canonical_root(bjs@[j as int]));
                    }
                    outer_combine_with_nodes(&mut el, &bjs[j], c);
                    proof {
                        lemma_node_entries_wf(el);
                    }
                    if !el.is_empty() {
                        let ghost vmid = v@;
                        v.insert(i, el);
                        proof {
                            assert(vmid =~= vbefore.remove(i as int));
                            assert(v@.take(i + 1) =~= vbefore.take(i as int).push(el));
                            assert(v@.skip(i + 1) =~= vbefore.skip(i + 1));
                            assert(vbefore.skip(i as int) =~= orig.skip(k));
                            lemma_skip_succ(vbefore, i as int, orig, k);
                            assert(v@.skip(i + 1) =~= orig.skip(k + 1));
                            lemma_kids_entries_push(vbefore.take(i as int), el, 0);
                            assert((kids_entries(vbefore.take(i as int), 0) + node_entries(el))
                                + merged(
                                *c,
                                kids_entries(orig, k + 1),
                                kids_entries(bjs@, j + 1),
                            ) =~= kids_entries(vbefore.take(i as int), 0) + (node_entries(el)
                                + merged(
                                *c,
                                kids_entries(orig, k + 1),
                                kids_entries(bjs@, j + 1),
                            )));
                            assert forall|t: int| 0 <= t < i + 1 implies node_wf(
                                #[trigger] v@[t],
                            ) && v@[t].prefix@.len() > 0 && !node_is_empty(v@[t]) by {
                                if t < i {
                                    assert(v@[t] == vbefore[t]);
                                } else {
                                    assert(v@[t] == el);
                                }
                            }
                        }
                        i = i + 1;
                    } else {
                        proof {
                            assert(node_entries(el) =~= Seq::<(Seq<u8>, Seq<u8>)>::empty());
                            assert(node_entries(el) + merged(
                                *c,
                                kids_entries(orig, k + 1),
                                kids_entries(bjs@, j + 1),
                            ) =~= merged(*c, kids_entries(orig, k + 1), kids_entries(bjs@, j + 1)));
                            assert(v@.take(i as int) =~= vbefore.take(i as int));
                            assert(vbefore.skip(i as int) =~= orig.skip(k));
                            lemma_skip_succ(vbefore, i as int, orig, k);
                            assert(v@.skip(i as int) =~= vbefore.skip(i + 1));
                            assert(v@.skip(i as int) =~= orig.skip(k + 1));
                        }
                    }
                    j = j + 1;
                    proof {
                        k = k + 1;
                    }
                }
            }
            proof {
                assert(kids_entries(orig, k).len() == 0 && kids_entries(bjs@, j as int).len() == 0)
                    by {
                    assert(v@.skip(i as int).len() == 0);
                    lemma_kids_suffix(v@, i as int, orig, k);
                    lemma_kids_entries_wf(orig, k);
                    lemma_kids_entries_wf(bjs@, j as int);
                }
                assert(v@.take(i as int) =~= v@);
                lemma_kids_wf_from_all(v@, 0);
            }
            *ac = TreeChildren::from_vec(v);
        },
        _ => {
            proof {
                assert(kids_entries(bc.nodes(), 0) =~= Seq::<(Seq<u8>, Seq<u8>)>::empty());
                lemma_merged_empty(*c, kids_entries(orig, 0));
            }
        },
    }
}

/// The union merge of the subtree rooted at `b` into the subtree rooted at
/// `a`, rewriting `a` in place. `a` may come out empty without being
/// renormalized; the caller drops or renormalizes it.
pub fn outer_combine_with_nodes<C: ValueCombiner>(a: &mut TreeNode, b: &TreeNode, c: &C)
    requires
        node_wf(*old(a)),
        node_wf(*b),
        node_canonical_root(*old(a)),
        node_canonical_root(*b),
    ensures
        node_wf(*final(a)),
        node_entries(*final(a)) == merged(*c, node_entries(*old(a)), node_entries(*b)),
        (!node_is_empty(*final(a)) && old(a).prefix@.len() > 0 && b.prefix@.len() > 0
            && old(a).prefix@[0] == b.prefix@[0]) ==> (final(a).prefix@.len() > 0
            && final(a).prefix@[0] == old(a).prefix@[0]),
    decreases node_size(*old(a)) + node_size(*b),
{
    let ghost ea = node_entries(*old(a));
    let ghost eb = node_entries(*b);
    let ghost ka = kids_entries(kids(*old(a)), 0);
    let ghost kb = kids_entries(kids(*b), 0);
    proof {
        lemma_wf_resident(*old(a));
        lemma_wf_resident(*b);
        lemma_node_entries_wf(*old(a));
        lemma_node_entries_wf(*b);
        match &a.children.kids {
            Kids::Owned(v) => lemma_kids_entries_wf(v@, 0),
            _ => (),
        }
        match &b.children.kids {
            Kids::Owned(v) => lemma_kids_entries_wf(v@, 0),
            _ => (),
        }
    }
    let ap = crate::flexref::copy_bytes(a.prefix.bytes());
    let bp = b.prefix.bytes();
    let n = common_prefix(ap.as_slice(), bp.as_slice());
    let ghost p = old(a).prefix@.take(n as int);
    if n == ap.len() && n == bp.len() {
        // Identical prefixes: rewrite the value, then the children, in place.
        proof {
            assert(old(a).prefix@.take(n as int) =~= old(a).prefix@);
            assert(b.prefix@.take(n as int) =~= b.prefix@);
            assert(old(a).prefix@ =~= b.prefix@);
        }
        if a.value.is_some() {
            if b.value.is_some() {
                let r = c.combine(a.value.bytes(), b.value.bytes());
                a.value = TreeValue::from_opt(r);
            }
        } else {
            a.value = b.value.duplicate();
        }
        let ghost va = a.value;
        outer_combine_children_with(&mut a.children, &b.children, c);
        proof {
            lemma_merged_prepend(*c, p, node_under(*old(a)), node_under(*b));
            assert(node_under(*old(a)) =~= own_entries_of(old(a).value.opt()) + ka);
            assert(node_under(*b) =~= own_entries_of(b.value.opt()) + kb);
            crate::merge::lemma_merged_under(*c, old(a).value.opt(), b.value.opt(), ka, kb);
            assert(own_entries_of(va.opt()) =~= own_entries_of(
                crate::merge::combined_value(*c, old(a).value.opt(), b.value.opt()),
            ));
            assert(node_under(*a) =~= own_entries_of(va.opt()) + kids_entries(kids(*a), 0));
            assert(node_entries(*a) =~= prepend_keys(p, node_under(*a)));
            assert(node_entries(*a) =~= merged(*c, ea, eb));
        }
    } else if n == ap.len() {
        // `a` names an ancestor of `b`: splice `b`, shortened, into `a`'s
        // children.
        let bshort = b.detached_shortened(n);
        let mut bs: Vec<TreeNode> = Vec::new();
        bs.push(bshort);
        proof {
            assert(old(a).prefix@.take(n as int) =~= old(a).prefix@);
            assert(old(a).prefix@ =~= p);
            assert(b.prefix@ =~= p + b.prefix@.skip(n as int));
            assert(!node_is_empty(*b));
            assert(kids_wf(bs@, 0)) by {
                assert(bs@[0] == bshort);
                assert(kids_wf(bs@, 1));
            }
            assert(kids_entries(bs@, 1) =~= Seq::<(Seq<u8>, Seq<u8>)>::empty());
            assert(kids_entries(bs@, 0) =~= node_entries(bshort));
            assert(kids_size(bs@, 1) == 0);
            assert(kids_size(bs@, 0) == node_size(bshort));
        }
        let ghost va = a.value;
        outer_combine_children_with(&mut a.children, &TreeChildren::from_vec(bs), c);
        proof {
            let ebs = node_entries(bshort);
            lemma_prepend_compose(p, b.prefix@.skip(n as int), node_under(*b));
            assert(eb =~= prepend_keys(p, ebs));
            lemma_merged_prepend(*c, p, node_under(*old(a)), ebs);
            lemma_node_entries_wf(bshort);
            assert(node_under(*old(a)) =~= own_entries_of(old(a).value.opt()) + ka);
            assert forall|t: int| 0 <= t < ebs.len() implies #[trigger] ebs[t].0.len() > 0 by {
                assert(ebs[t].0.len() >= bshort.prefix@.len());
            }
            assert(ebs =~= own_entries_of(None) + ebs);
            crate::merge::lemma_merged_under(*c, old(a).value.opt(), None, ka, ebs);
            assert(kids_entries(bs@, 0) =~= ebs);
            assert(own_entries_of(va.opt()) =~= own_entries_of(
                crate::merge::combined_value(*c, old(a).value.opt(), None),
            ));
            assert(node_under(*a) =~= own_entries_of(va.opt()) + kids_entries(kids(*a), 0));
            assert(node_entries(*a) =~= prepend_keys(p, node_under(*a)));
            assert(node_entries(*a) =~= merged(*c, ea, eb));
        }
    } else if n == bp.len() {
        // `b` names an ancestor of `a`: `a` sinks one level, shortened, and
        // takes `b`'s value and prefix.
        let mut sunk = TreeNode::empty();
        core::mem::swap(a, &mut sunk);
        let suffix = vstd::slice::slice_to_vec(vstd::slice::slice_subrange(
            ap.as_slice(),
            n,
            ap.len(),
        ));
        sunk.prefix = TreePrefix::from_vec(suffix);
        proof {
            let twin = sunk;
            lemma_kids_mirror_refl(kids(*old(a)), 0);
            lemma_shorten_model(*old(a), twin);
            assert(b.prefix@.take(n as int) =~= b.prefix@);
            assert(b.prefix@ =~= p) by {
                assert(old(a).prefix@.take(n as int) == b.prefix@.take(n as int));
            }
            assert(old(a).prefix@ =~= p + old(a).prefix@.skip(n as int));
            assert(!node_is_empty(*old(a)));
            assert(sunk.prefix@ =~= old(a).prefix@.skip(n as int));
        }
        let ghost eas = node_entries(sunk);
        let mut asv: Vec<TreeNode> = Vec::new();
        asv.push(sunk);
        proof {
            assert(kids_wf(asv@, 0)) by {
                assert(asv@[0] == sunk);
                assert(kids_wf(asv@, 1));
            }
            assert(kids_sorted(asv@));
            assert(kids_entries(asv@, 1) =~= Seq::<(Seq<u8>, Seq<u8>)>::empty());
            assert(kids_entries(asv@, 0) =~= eas);
            assert(kids_size(asv@, 1) == 0);
            assert(kids_size(asv@, 0) == node_size(*old(a)));
        }
        let mut ks = TreeChildren::from_vec(asv);
        outer_combine_children_with(&mut ks, &b.children, c);
        let value = b.value.duplicate();
        let prefix_bytes = vstd::slice::slice_to_vec(vstd::slice::slice_subrange(
            ap.as_slice(),
            0,
            n,
        ));
        let ghost va = value;
        *a = TreeNode {
            prefix: TreePrefix::from_vec(prefix_bytes),
            value,
            children: ks,
        };
        proof {
            lemma_prepend_compose(p, old(a).prefix@.skip(n as int), node_under(*old(a)));
            assert(ea =~= prepend_keys(p, eas));
            lemma_merged_prepend(*c, p, eas, node_under(*b));
            lemma_node_entries_wf(sunk);
            assert(node_under(*b) =~= own_entries_of(b.value.opt()) + kb);
            assert forall|t: int| 0 <= t < eas.len() implies #[trigger] eas[t].0.len() > 0 by {
                assert(eas[t].0.len() >= sunk.prefix@.len());
            }
            assert(eas =~= own_entries_of(None) + eas);
            crate::merge::lemma_merged_under(*c, None, b.value.opt(), eas, kb);
            assert(kids_entries(asv@, 0) =~= eas);
            assert(own_entries_of(va.opt()) =~= own_entries_of(
                crate::merge::combined_value(*c, None, b.value.opt()),
            ));
            assert(node_under(*a) =~= own_entries_of(va.opt()) + kids_entries(kids(*a), 0));
            assert(node_entries(*a) =~= prepend_keys(p, node_under(*a)));
            assert(node_entries(*a) =~= merged(*c, ea, eb));
        }
    } else {
        // Disjoint below the shared prefix: `a` sinks one level, a shortened
        // copy of `b` joins it, ordered by their next byte.
        let bshort = b.detached_shortened(n);
        let mut sunk = TreeNode::empty();
        core::mem::swap(a, &mut sunk);
        let suffix = vstd::slice::slice_to_vec(vstd::slice::slice_subrange(
            ap.as_slice(),
            n,
            ap.len(),
        ));
        sunk.prefix = TreePrefix::from_vec(suffix);
        proof {
            let twin = sunk;
            lemma_kids_mirror_refl(kids(*old(a)), 0);
            lemma_shorten_model(*old(a), twin);
            assert(old(a).prefix@ =~= p + old(a).prefix@.skip(n as int));
            assert(b.prefix@ =~= old(a).prefix@.take(n as int) + b.prefix@.skip(n as int));
            assert(b.prefix@.take(n as int) =~= p);
            assert(!node_is_empty(*old(a)));
            assert(!node_is_empty(*b));
            assert(sunk.prefix@ =~= old(a).prefix@.skip(n as int));
            lemma_node_entries_wf(bshort);
            lemma_prepend_compose(p, old(a).prefix@.skip(n as int), node_under(*old(a)));
            lemma_prepend_compose(p, b.prefix@.skip(n as int), node_under(*b));
        }
        let ghost eas = node_entries(sunk);
        let ghost ebs = node_entries(bshort);
        proof {
            lemma_node_entries_wf(sunk);
            assert(ea =~= prepend_keys(p, eas));
            assert(eb =~= prepend_keys(p, ebs));
            lemma_merged_prepend(*c, p, eas, ebs);
            assert(sunk.prefix@[0] == old(a).prefix@[n as int]);
            assert(bshort.prefix@[0] == b.prefix@[n as int]);
        }
        let mut ks: Vec<TreeNode> = Vec::new();
        if ap[n] < *vstd::slice::slice_index_get(bp.as_slice(), n) {
            ks.push(sunk);
            ks.push(bshort);
            proof {
                assert forall|t: int, l: int|
                    0 <= t < eas.len() && 0 <= l < ebs.len() implies lex_lt(
                    #[trigger] eas[t].0,
                    #[trigger] ebs[l].0,
                ) by {
                    assert(eas[t].0[0] == old(a).prefix@[n as int]);
                    assert(ebs[l].0[0] == b.prefix@[n as int]);
                    lemma_lex_first_byte(eas[t].0, ebs[l].0);
                }
                lemma_merged_lt_left(*c, eas, Seq::empty(), ebs);
                assert(eas + Seq::<(Seq<u8>, Seq<u8>)>::empty() =~= eas);
                lemma_merged_empty(*c, ebs);
                assert(merged(*c, eas, ebs) =~= eas + ebs);
                assert(ks@ =~= seq![sunk, bshort]);
                assert(kids_entries(ks@, 2) =~= Seq::<(Seq<u8>, Seq<u8>)>::empty());
                assert(kids_entries(ks@, 1) =~= ebs);
                assert(kids_entries(ks@, 0) =~= eas + ebs);
                assert(kids_wf(ks@, 0)) by {
                    assert(ks@[0] == sunk);
                    assert(ks@[1] == bshort);
                    assert(kids_wf(ks@, 2));
                    assert(kids_wf(ks@, 1));
                }
            }
        } else {
            ks.push(bshort);
            ks.push(sunk);
            proof {
                assert forall|t: int, l: int|
                    0 <= t < ebs.len() && 0 <= l < eas.len() implies lex_lt(
                    #[trigger] ebs[t].0,
                    #[trigger] eas[l].0,
                ) by {
                    assert(eas[l].0[0] == old(a).prefix@[n as int]);
                    assert(ebs[t].0[0] == b.prefix@[n as int]);
                    lemma_lex_first_byte(ebs[t].0, eas[l].0);
                }
                lemma_merged_lt_right(*c, eas, ebs, Seq::empty());
                assert(ebs + Seq::<(Seq<u8>, Seq<u8>)>::empty() =~= ebs);
                lemma_merged_empty(*c, eas);
                assert(merged(*c, eas, ebs) =~= ebs + eas);
                assert(ks@ =~= seq![bshort, sunk]);
                assert(kids_entries(ks@, 2) =~= Seq::<(Seq<u8>, Seq<u8>)>::empty());
                assert(kids_entries(ks@, 1) =~= eas);
                assert(kids_entries(ks@, 0) =~= ebs + eas);
                assert(kids_wf(ks@, 0)) by {
                    assert(ks@[0] == bshort);
                    assert(ks@[1] == sunk);
                    assert(kids_wf(ks@, 2));
                    assert(kids_wf(ks@, 1));
                }
            }
        }
        let prefix_bytes = vstd::slice::slice_to_vec(vstd::slice::slice_subrange(
            ap.as_slice(),
            0,
            n,
        ));
        *a = TreeNode {
            prefix: TreePrefix::from_vec(prefix_bytes),
            value: TreeValue::none(),
            children: TreeChildren::from_vec(ks),
        };
        proof {
            assert(node_under(*a) =~= merged(*c, eas, ebs));
            assert(node_entries(*a) =~= prepend_keys(p, node_under(*a)));
            assert(node_entries(*a) =~= merged(*c, ea, eb));
        }
    }
}

} // verus!
