//! Prefix lookup: descending a tree along a byte string, reporting an exact
//! match, a subtree of which the string names an ancestor, or a miss.

use vstd::prelude::*;

use crate::filter::{
    entries_with_prefix, lemma_ewp_all, lemma_ewp_app, lemma_ewp_kids_none, lemma_ewp_none,
    lemma_filter_assemble,
};
use crate::merge::common_prefix;
use crate::node::{
    kids, kids_entries, kids_sorted, kids_wf, lemma_kids_entries_wf, lemma_kids_wf_all,
    lemma_kids_wf_from,
    lemma_node_entries_wf, lemma_prepend_compose, node_entries, node_under, node_wf, own_entries,
    prepend_keys, Kids, TreeNode,
};

verus! {

/// The value bound to `key` in the subtree rooted at `n`, following the
/// prefix-compressed descent.
pub open spec fn node_get(n: TreeNode, key: Seq<u8>) -> Option<Seq<u8>>
    decreases n, 0int, 0int,
{
    let p = n.prefix@;
    if key.len() < p.len() || key.take(p.len() as int) != p {
        None
    } else if key.len() == p.len() {
        n.value.opt()
    } else {
        match n.children.kids {
            Kids::Owned(v) => kids_get(v@, 0, key.skip(p.len() as int)),
            _ => None,
        }
    }
}

/// The value bound to `key` among the children from index `i` on: only the
/// child whose prefix begins with `key`'s first byte can hold it.
pub open spec fn kids_get(s: Seq<TreeNode>, i: int, key: Seq<u8>) -> Option<Seq<u8>>
    decreases s, s.len() - i, 1int,
{
    if 0 <= i < s.len() {
        if s[i].prefix@.len() > 0 && key.len() > 0 && s[i].prefix@[0] == key[0] {
            node_get(s[i], key)
        } else {
            kids_get(s, i + 1, key)
        }
    } else {
        None
    }
}

/// What a lookup found.
pub enum FindResult<'a> {
    /// A node whose accumulated prefix is exactly the search string.
    Found(&'a TreeNode),
    /// A subtree of which the search string names an ancestor: `rt` bytes of
    /// the node's prefix remain beyond the search string.
    Prefix { tree: &'a TreeNode, rt: usize },
    /// No key of the tree starts with the search string.
    NotFound,
}

/// Skipping children whose leading byte differs from `key`'s does not change
/// the lookup.
proof fn lemma_kids_get_skip(s: Seq<TreeNode>, i: int, j: int, key: Seq<u8>)
    requires
        0 <= i <= j,
        forall|l: int|
            i <= l < j && l < s.len() ==> !(#[trigger] s[l].prefix@.len() > 0 && key.len() > 0
                && s[l].prefix@[0] == key[0]),
    ensures
        kids_get(s, i, key) == kids_get(s, j, key),
    decreases j - i,
{
    if i < j {
        if i < s.len() {
            lemma_kids_get_skip(s, i + 1, j, key);
        } else {
            lemma_kids_get_skip(s, i + 1, j, key);
        }
    }
}

/// Beyond the end of the sequence the lookup misses.
proof fn lemma_kids_get_none(s: Seq<TreeNode>, i: int, key: Seq<u8>)
    requires
        0 <= i,
        forall|l: int|
            i <= l < s.len() ==> !(#[trigger] s[l].prefix@.len() > 0 && key.len() > 0
                && s[l].prefix@[0] == key[0]),
    ensures
        kids_get(s, i, key) is None,
    decreases s.len() - i,
{
    if i < s.len() {
        lemma_kids_get_none(s, i + 1, key);
    }
}

/// Walk down the tree along `key`. `Found` reports the node whose
/// accumulated prefix equals `key` exactly, and the keys extending `key` are
/// exactly that node's subtree; `Prefix` a node of whose prefix `rt` bytes
/// remain beyond `key`, whose subtree holds exactly the keys extending
/// `key`; `NotFound` that no key of the tree starts with `key`.
pub fn find<'a>(node: &'a TreeNode, key: &[u8]) -> (r: FindResult<'a>)
    requires
        node_wf(*node),
    ensures
        (match r {
            FindResult::Found(t) => node_wf(*t) && node_get(*node, key@) == t.value.opt()
                && entries_with_prefix(node_entries(*node), key@) == prepend_keys(
                key@,
                node_under(*t),
            ),
            FindResult::Prefix { tree, rt } => node_wf(*tree) && node_get(*node, key@) is None && 0
                < rt <= tree.prefix@.len() && entries_with_prefix(node_entries(*node), key@)
                == prepend_keys(
                key@ + tree.prefix@.skip(tree.prefix@.len() - rt),
                node_under(*tree),
            ),
            FindResult::NotFound => node_get(*node, key@) is None && entries_with_prefix(
                node_entries(*node),
                key@,
            ) == Seq::<(Seq<u8>, Seq<u8>)>::empty(),
        }),
    decreases *node,
{
    proof {
        lemma_node_entries_wf(*node);
    }
    let p = node.prefix.bytes();
    let m = common_prefix(p.as_slice(), key);
    let rt = p.len() - m;
    let rp = key.len() - m;
    if rp == 0 && rt == 0 {
        proof {
            assert(key@.take(node.prefix@.len() as int) =~= node.prefix@);
            assert(key@ =~= node.prefix@);
            lemma_all_entries_extend(*node, key@);
            lemma_ewp_all(node_entries(*node), key@);
        }
        FindResult::Found(node)
    } else if rp == 0 {
        // The search string ends inside this node's prefix.
        proof {
            assert(key@ =~= node.prefix@.take(m as int));
            lemma_all_entries_extend(*node, key@);
            lemma_ewp_all(node_entries(*node), key@);
            assert(node.prefix@ =~= key@ + node.prefix@.skip(node.prefix@.len() - rt));
        }
        FindResult::Prefix { tree: node, rt }
    } else if rt == 0 {
        proof {
            assert(key@.take(node.prefix@.len() as int) =~= node.prefix@);
        }
        let c = *vstd::slice::slice_index_get(key, m);
        let ghost rest = key@.skip(node.prefix@.len() as int);
        assert(rest.len() > 0 && rest[0] == c) by {
            assert(rest[0] == key@[m as int]);
        }
        proof {
            assert(node.prefix@ =~= key@.take(m as int));
            assert(key@ =~= node.prefix@ + rest);
        }
        match &node.children.kids {
            Kids::Owned(v) => {
                proof {
                    lemma_kids_wf_all(v@, 0);
                }
                let mut i: usize = 0;
                #[verifier::loop_isolation(false)]
                while i < v.len()
                    invariant
                        i <= v.len(),
                        kids_get(v@, 0, rest) == kids_get(v@, i as int, rest),
                        entries_with_prefix(kids_entries(v@, 0), rest) == entries_with_prefix(
                            kids_entries(v@, i as int),
                            rest,
                        ),
                    decreases v.len() - i,
                {
                    let first = v[i].prefix.first();
                    if first == c {
                        let sub = vstd::slice::slice_subrange(key, m, key.len());
                        assert(sub@ == rest);
                        let r = find(&v[i], sub);
                        proof {
                            assert(kids_get(v@, i as int, rest) == node_get(v@[i as int], rest));
                            lemma_kids_wf_from(v@, 0, i as int);
                            crate::node::lemma_kids_wf_from(v@, 0, i + 1);
                            crate::node::lemma_kids_entries_unfold(v@, i as int);
                            lemma_ewp_app(
                                node_entries(v@[i as int]),
                                crate::node::kids_entries(v@, i + 1),
                                rest,
                            );
                            assert forall|l: int| i + 1 <= l < v@.len() implies (
                            #[trigger] v@[l].prefix@)[0] != rest[0] by {
                                assert(v@[i as int].prefix@[0] < v@[l].prefix@[0]);
                            }
                            lemma_ewp_kids_none(v@, i + 1, rest);
                            let sube = entries_with_prefix(node_entries(v@[i as int]), rest);
                            assert(entries_with_prefix(kids_entries(v@, 0), rest) =~= sube);
                            lemma_filter_assemble(*node, rest, sube);
                            match r {
                                FindResult::Found(t) => {
                                    lemma_prepend_compose(node.prefix@, rest, node_under(*t));
                                },
                                FindResult::Prefix { tree, rt: srt } => {
                                    let suffix = tree.prefix@.skip(tree.prefix@.len() - srt);
                                    lemma_prepend_compose(
                                        node.prefix@,
                                        rest + suffix,
                                        node_under(*tree),
                                    );
                                    assert(node.prefix@ + (rest + suffix) =~= key@ + suffix);
                                },
                                FindResult::NotFound => {
                                    assert(prepend_keys(
                                        node.prefix@,
                                        Seq::<(Seq<u8>, Seq<u8>)>::empty(),
                                    ) =~= Seq::<(Seq<u8>, Seq<u8>)>::empty());
                                },
                            }
                        }
                        return r;
                    } else if first > c {
                        proof {
                            lemma_kids_get_none(v@, i as int, rest);
                            lemma_kids_wf_from(v@, 0, i as int);
                            assert forall|l: int| i <= l < v@.len() implies (
                            #[trigger] v@[l].prefix@)[0] != rest[0] by {
                                if l > i {
                                    assert(v@[i as int].prefix@[0] < v@[l].prefix@[0]);
                                }
                            }
                            lemma_ewp_kids_none(v@, i as int, rest);
                            lemma_filter_assemble(*node, rest, Seq::empty());
                            lemma_prepend_empty_entries(node.prefix@);
                        }
                        return FindResult::NotFound;
                    }
                    proof {
                        lemma_kids_get_skip(v@, i as int, i + 1, rest);
                        lemma_kids_wf_from(v@, 0, i as int);
                        crate::node::lemma_kids_wf_from(v@, 0, i + 1);
                        lemma_node_entries_wf(v@[i as int]);
                        let ce = node_entries(v@[i as int]);
                        assert forall|l: int| 0 <= l < ce.len() implies !crate::filter::key_starts_with(
                            (#[trigger] ce[l]).0,
                            rest,
                        ) by {
                            assert(ce[l].0.take(v@[i as int].prefix@.len() as int) == v@[
                            i as int].prefix@);
                            assert(ce[l].0[0] == v@[i as int].prefix@[0]);
                            if crate::filter::key_starts_with(ce[l].0, rest) {
                                assert(ce[l].0.take(rest.len() as int) == rest);
                                assert(ce[l].0[0] == rest[0]);
                            }
                        }
                        lemma_ewp_none(ce, rest);
                        crate::node::lemma_kids_entries_unfold(v@, i as int);
                        lemma_ewp_app(ce, crate::node::kids_entries(v@, i + 1), rest);
                    }
                    i = i + 1;
                }
                proof {
                    lemma_kids_get_none(v@, i as int, rest);
                    assert(kids_entries(v@, i as int) =~= Seq::<(Seq<u8>, Seq<u8>)>::empty());
                    lemma_filter_assemble(*node, rest, Seq::empty());
                    lemma_prepend_empty_entries(node.prefix@);
                }
                FindResult::NotFound
            },
            _ => {
                proof {
                    assert(kids_entries(crate::node::kids(*node), 0) =~= Seq::<(
                        Seq<u8>,
                        Seq<u8>,
                    )>::empty());
                    lemma_filter_assemble(*node, rest, Seq::empty());
                    lemma_prepend_empty_entries(node.prefix@);
                }
                FindResult::NotFound
            },
        }
    } else {
        // The search string and the node's prefix diverge at byte `m`.
        proof {
            if key@.len() >= node.prefix@.len() {
                assert(key@.take(node.prefix@.len() as int)[m as int] != node.prefix@[m as int]);
            }
            assert forall|i: int| 0 <= i < node_entries(*node).len() implies
                !crate::filter::key_starts_with((#[trigger] node_entries(*node)[i]).0, key@) by {
                let k = node_entries(*node)[i].0;
                assert(k.take(node.prefix@.len() as int) == node.prefix@);
                if crate::filter::key_starts_with(k, key@) {
                    assert(k.take(key@.len() as int) == key@);
                    assert(k[m as int] == node.prefix@[m as int]) by {
                        assert(k.take(node.prefix@.len() as int)[m as int] == node.prefix@[
                        m as int]);
                    }
                    assert(k[m as int] == key@[m as int]) by {
                        assert(k.take(key@.len() as int)[m as int] == key@[m as int]);
                    }
                }
            }
            lemma_ewp_none(node_entries(*node), key@);
        }
        FindResult::NotFound
    }
}

/// Every entry's key of a well-formed node extends any leading piece of the
/// node's prefix.
proof fn lemma_all_entries_extend(n: TreeNode, key: Seq<u8>)
    requires
        node_wf(n),
        key.len() <= n.prefix@.len(),
        key == n.prefix@.take(key.len() as int),
    ensures
        forall|i: int|
            0 <= i < node_entries(n).len() ==> crate::filter::key_starts_with(
                (#[trigger] node_entries(n)[i]).0,
                key,
            ),
{
    lemma_node_entries_wf(n);
    assert forall|i: int| 0 <= i < node_entries(n).len() implies crate::filter::key_starts_with(
        (#[trigger] node_entries(n)[i]).0,
        key,
    ) by {
        let k = node_entries(n)[i].0;
        assert(k.take(n.prefix@.len() as int) == n.prefix@);
        assert(k.take(key.len() as int) =~= k.take(n.prefix@.len() as int).take(key.len() as int));
        assert(k.take(key.len() as int) =~= key);
    }
}

/// Prepending onto no entries yields no entries.
proof fn lemma_prepend_empty_entries(p: Seq<u8>)
    ensures
        prepend_keys(p, Seq::<(Seq<u8>, Seq<u8>)>::empty()) == Seq::<(Seq<u8>, Seq<u8>)>::empty(),
{
    assert(prepend_keys(p, Seq::<(Seq<u8>, Seq<u8>)>::empty()) =~= Seq::<(
        Seq<u8>,
        Seq<u8>,
    )>::empty());
}

/// Concatenation holds an entry exactly when one of its parts does.
proof fn lemma_contains_app(
    xs: Seq<(Seq<u8>, Seq<u8>)>,
    ys: Seq<(Seq<u8>, Seq<u8>)>,
    e: (Seq<u8>, Seq<u8>),
)
    ensures
        (xs + ys).contains(e) <==> xs.contains(e) || ys.contains(e),
{
    if xs.contains(e) {
        let j = choose|j: int| 0 <= j < xs.len() && xs[j] == e;
        assert((xs + ys)[j] == e);
    }
    if ys.contains(e) {
        let j = choose|j: int| 0 <= j < ys.len() && ys[j] == e;
        assert((xs + ys)[xs.len() + j] == e);
    }
    if (xs + ys).contains(e) {
        let j = choose|j: int| 0 <= j < (xs + ys).len() && (xs + ys)[j] == e;
        if j < xs.len() {
            assert(xs[j] == e);
        } else {
            assert(ys[j - xs.len()] == e);
        }
    }
}

/// Prepending a prefix to every key carries containment back and forth.
proof fn lemma_contains_prepend(
    p: Seq<u8>,
    es: Seq<(Seq<u8>, Seq<u8>)>,
    k: Seq<u8>,
    v: Seq<u8>,
)
    ensures
        prepend_keys(p, es).contains((p + k, v)) <==> es.contains((k, v)),
{
    if es.contains((k, v)) {
        let j = choose|j: int| 0 <= j < es.len() && es[j] == (k, v);
        assert(prepend_keys(p, es)[j] == (p + k, v));
    }
    if prepend_keys(p, es).contains((p + k, v)) {
        let j = choose|j: int|
            0 <= j < prepend_keys(p, es).len() && prepend_keys(p, es)[j] == (p + k, v);
        assert(p + es[j].0 == p + k);
        assert(es[j].0 =~= (p + es[j].0).skip(p.len() as int));
        assert(k =~= (p + k).skip(p.len() as int));
        assert(es[j] == (k, v));
    }
}

/// The descent specification agrees with the entry-sequence model: the
/// lookup answers `Some(v)` exactly when the entries hold `(key, v)`.
pub proof fn lemma_get_entries(n: TreeNode, key: Seq<u8>)
    requires
        node_wf(n),
    ensures
        (match node_get(n, key) {
            Some(v) => node_entries(n).contains((key, v)),
            None => forall|v: Seq<u8>| !node_entries(n).contains((key, v)),
        }),
    decreases n, 0int, 0int,
{
    lemma_node_entries_wf(n);
    let p = n.prefix@;
    let es = node_entries(n);
    if key.len() < p.len() || key.take(p.len() as int) != p {
        // No entry can carry this key: they all extend the prefix.
        assert forall|v: Seq<u8>| !es.contains((key, v)) by {
            if es.contains((key, v)) {
                let j = choose|j: int| 0 <= j < es.len() && es[j] == (key, v);
                assert(es[j].0.take(p.len() as int) == p);
            }
        }
    } else if key.len() == p.len() {
        assert(key =~= p);
        match n.value.opt() {
            Some(v) => {
                assert(es[0] == (p, v));
                assert(es.contains((key, v)));
            },
            None => {
                assert forall|v: Seq<u8>| !es.contains((key, v)) by {
                    if es.contains((key, v)) {
                        let j = choose|j: int| 0 <= j < es.len() && es[j] == (key, v);
                        assert(es[j].0.len() > p.len());
                    }
                }
            },
        }
    } else {
        let rest = key.skip(p.len() as int);
        assert(key =~= p + rest);
        let under = node_under(n);
        let ks = kids(n);
        let ke = kids_entries(ks, 0);
        assert(under =~= own_entries(n) + ke);
        match n.children.kids {
            Kids::Owned(v) => {
                lemma_kids_wf_all(v@, 0);
                lemma_kids_entries_wf(v@, 0);
                lemma_kids_get_entries(v@, 0, rest);
            },
            _ => {},
        }
        // Containment in the node transfers to containment below the prefix,
        // and the node's own entry (keyed by the bare prefix) cannot carry a
        // longer key.
        assert forall|v: Seq<u8>| #[trigger] es.contains((key, v)) implies ke.contains(
            (rest, v),
        ) by {
            lemma_contains_prepend(p, under, rest, v);
            lemma_contains_app(own_entries(n), ke, (rest, v));
            if own_entries(n).contains((rest, v)) {
                let j = choose|j: int|
                    0 <= j < own_entries(n).len() && own_entries(n)[j] == (rest, v);
            }
        }
        assert forall|v: Seq<u8>| #[trigger] ke.contains((rest, v)) implies es.contains(
            (key, v),
        ) by {
            lemma_contains_app(own_entries(n), ke, (rest, v));
            lemma_contains_prepend(p, under, rest, v);
        }
        match node_get(n, key) {
            Some(v) => {
                assert(ke.contains((rest, v)));
            },
            None => {
                assert forall|v: Seq<u8>| !es.contains((key, v)) by {
                    if es.contains((key, v)) {
                        assert(ke.contains((rest, v)));
                    }
                }
            },
        }
    }
}

/// The kids-level half of [`lemma_get_entries`].
proof fn lemma_kids_get_entries(s: Seq<TreeNode>, i: int, key: Seq<u8>)
    requires
        kids_wf(s, i),
        kids_sorted(s),
        0 <= i,
        key.len() > 0,
    ensures
        (match kids_get(s, i, key) {
            Some(v) => kids_entries(s, i).contains((key, v)),
            None => forall|v: Seq<u8>| !kids_entries(s, i).contains((key, v)),
        }),
    decreases s, s.len() - i, 1int,
{
    if i < s.len() {
        crate::node::lemma_kids_wf_from(s, i, i + 1);
        lemma_node_entries_wf(s[i]);
        lemma_kids_get_entries(s, i + 1, key);
        let ce = node_entries(s[i]);
        let rest = kids_entries(s, i + 1);
        crate::node::lemma_kids_entries_unfold(s, i);
        if s[i].prefix@.len() > 0 && s[i].prefix@[0] == key[0] {
            // Only this child can hold the key: later siblings lead with
            // larger bytes.
            lemma_get_entries(s[i], key);
            crate::node::lemma_kids_entries_wf(s, i + 1);
            assert forall|v: Seq<u8>| !rest.contains((key, v)) by {
                if rest.contains((key, v)) {
                    let j = choose|j: int| 0 <= j < rest.len() && rest[j] == (key, v);
                    assert(rest[j].0.len() > 0 && rest[j].0[0] >= s[i + 1].prefix@[0]);
                    assert(s[i].prefix@[0] < s[i + 1].prefix@[0]);
                }
            }
            match node_get(s[i], key) {
                Some(v) => {
                    lemma_contains_app(ce, rest, (key, v));
                },
                None => {
                    assert forall|v: Seq<u8>| !kids_entries(s, i).contains((key, v)) by {
                        lemma_contains_app(ce, rest, (key, v));
                    }
                },
            }
        } else {
            // This child's entries all lead with its first byte, not the
            // key's.
            assert forall|v: Seq<u8>| !ce.contains((key, v)) by {
                if ce.contains((key, v)) {
                    let j = choose|j: int| 0 <= j < ce.len() && ce[j] == (key, v);
                    assert(ce[j].0.take(s[i].prefix@.len() as int) == s[i].prefix@);
                    assert(ce[j].0[0] == s[i].prefix@[0]);
                }
            }
            match kids_get(s, i + 1, key) {
                Some(v) => {
                    lemma_contains_app(ce, rest, (key, v));
                },
                None => {
                    assert forall|v: Seq<u8>| !kids_entries(s, i).contains((key, v)) by {
                        lemma_contains_app(ce, rest, (key, v));
                    }
                },
            }
        }
    } else {
        assert(kids_entries(s, i) =~= Seq::<(Seq<u8>, Seq<u8>)>::empty());
        assert forall|v: Seq<u8>| !kids_entries(s, i).contains((key, v)) by {}
    }
}

/// Trees with equal entries answer every lookup alike.
pub proof fn lemma_get_from_entries(a: TreeNode, b: TreeNode, key: Seq<u8>)
    requires
        node_wf(a),
        node_wf(b),
        node_entries(a) == node_entries(b),
    ensures
        node_get(a, key) == node_get(b, key),
{
    lemma_get_entries(a, key);
    lemma_get_entries(b, key);
    lemma_node_entries_wf(a);
    let es = node_entries(a);
    match (node_get(a, key), node_get(b, key)) {
        (Some(v), Some(w)) => {
            if v != w {
                let i = choose|i: int| 0 <= i < es.len() && es[i] == (key, v);
                let j = choose|j: int| 0 <= j < es.len() && es[j] == (key, w);
                assert(i != j);
                if i < j {
                    assert(crate::lex::lex_lt(es[i].0, es[j].0));
                } else {
                    assert(crate::lex::lex_lt(es[j].0, es[i].0));
                }
                crate::lex::lemma_lex_irrefl(key);
            }
        },
        (Some(v), None) => {
            assert(es.contains((key, v)));
        },
        (None, Some(w)) => {
            assert(es.contains((key, w)));
        },
        (None, None) => {},
    }
}

/// The value bound to `key`, if any.
pub fn get_node(node: &TreeNode, key: &[u8]) -> (r: Option<Vec<u8>>)
    requires
        node_wf(*node),
    ensures
        crate::merge::opt_bytes(r) == node_get(*node, key@),
{
    match find(node, key) {
        FindResult::Found(t) => t.value.value_opt(),
        _ => None,
    }
}

/// Whether `key` is bound in the subtree rooted at `node`.
pub fn contains_key_node(node: &TreeNode, key: &[u8]) -> (r: bool)
    requires
        node_wf(*node),
    ensures
        r == (node_get(*node, key@) is Some),
{
    match find(node, key) {
        FindResult::Found(t) => t.value.is_some(),
        _ => false,
    }
}

} // verus!
