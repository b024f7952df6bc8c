//! The laws of the merge engine, stated over the entry-sequence model that
//! every public tree operation is specified against.

use vstd::prelude::*;

use crate::lex::{lemma_lex_irrefl, lemma_lex_total, lemma_lex_trans, lex_lt};
use crate::merge::{
    all_keys_lt, lemma_merged_empty, lemma_merged_lt_left, merged, TakeLeft, TakeRight,
    ValueCombiner,
};
use crate::node::{
    entries_sorted, kids, kids_wf, lemma_kids_wf_all, node_is_empty, node_wf, Kids, TreeNode,
};

verus! {

/// The finite mapping an entry sequence denotes.
pub open spec fn entries_to_map(es: Seq<(Seq<u8>, Seq<u8>)>) -> Map<Seq<u8>, Seq<u8>>
    decreases es.len(),
{
    if es.len() == 0 {
        Map::empty()
    } else {
        entries_to_map(es.drop_first()).insert(es[0].0, es[0].1)
    }
}

/// Identity: combining any tree with the empty tree, under any rule and on
/// either side, leaves its entries unchanged.
pub proof fn lemma_law_identity<C: ValueCombiner>(c: C, a: Seq<(Seq<u8>, Seq<u8>)>)
    ensures
        merged(c, a, Seq::empty()) == a,
        merged(c, Seq::empty(), a) == a,
{
    lemma_merged_empty(c, a);
}

/// A strict lower bound on every key of both sides bounds the merge too.
proof fn lemma_merged_lower_bound<C: ValueCombiner>(
    c: C,
    lo: Seq<u8>,
    a: Seq<(Seq<u8>, Seq<u8>)>,
    b: Seq<(Seq<u8>, Seq<u8>)>,
)
    requires
        forall|i: int| 0 <= i < a.len() ==> lex_lt(lo, #[trigger] a[i].0),
        forall|i: int| 0 <= i < b.len() ==> lex_lt(lo, #[trigger] b[i].0),
    ensures
        forall|i: int|
            0 <= i < merged(c, a, b).len() ==> lex_lt(lo, #[trigger] merged(c, a, b)[i].0),
    decreases a.len() + b.len(),
{
    if a.len() == 0 {
        assert(merged(c, a, b) == b);
    } else if b.len() == 0 {
        assert(merged(c, a, b) == a);
    } else if lex_lt(a[0].0, b[0].0) {
        lemma_merged_lower_bound(c, lo, a.drop_first(), b);
        let m = merged(c, a, b);
        assert(m == seq![a[0]] + merged(c, a.drop_first(), b));
        assert forall|i: int| 0 <= i < m.len() implies lex_lt(lo, #[trigger] m[i].0) by {
            if i > 0 {
                assert(m[i] == merged(c, a.drop_first(), b)[i - 1]);
            }
        }
    } else if lex_lt(b[0].0, a[0].0) {
        lemma_merged_lower_bound(c, lo, a, b.drop_first());
        let m = merged(c, a, b);
        assert(m == seq![b[0]] + merged(c, a, b.drop_first()));
        assert forall|i: int| 0 <= i < m.len() implies lex_lt(lo, #[trigger] m[i].0) by {
            if i > 0 {
                assert(m[i] == merged(c, a, b.drop_first())[i - 1]);
            }
        }
    } else {
        lemma_merged_lower_bound(c, lo, a.drop_first(), b.drop_first());
        let m = merged(c, a, b);
        assert forall|i: int| 0 <= i < m.len() implies lex_lt(lo, #[trigger] m[i].0) by {
            match c.rule(a[0].1, b[0].1) {
                Some(v) => {
                    assert(m == seq![(a[0].0, v)] + merged(c, a.drop_first(), b.drop_first()));
                    if i > 0 {
                        assert(m[i] == merged(c, a.drop_first(), b.drop_first())[i - 1]);
                    }
                },
                None => {
                    assert(m == merged(c, a.drop_first(), b.drop_first()));
                },
            }
        }
    }
}

/// The merge of two sorted entry sequences is sorted.
pub proof fn lemma_merged_sorted<C: ValueCombiner>(
    c: C,
    a: Seq<(Seq<u8>, Seq<u8>)>,
    b: Seq<(Seq<u8>, Seq<u8>)>,
)
    requires
        entries_sorted(a),
        entries_sorted(b),
    ensures
        entries_sorted(merged(c, a, b)),
    decreases a.len() + b.len(),
{
    if a.len() == 0 || b.len() == 0 {
    } else {
        assert(entries_sorted(a.drop_first())) by {
            assert(forall|i: int, j: int|
                0 <= i < j < a.drop_first().len() ==> a.drop_first()[i] == a[i + 1]
                    && a.drop_first()[j] == a[j + 1]);
        }
        assert(entries_sorted(b.drop_first())) by {
            assert(forall|i: int, j: int|
                0 <= i < j < b.drop_first().len() ==> b.drop_first()[i] == b[i + 1]
                    && b.drop_first()[j] == b[j + 1]);
        }
        if lex_lt(a[0].0, b[0].0) {
            lemma_merged_sorted(c, a.drop_first(), b);
            assert(forall|i: int|
                0 <= i < a.drop_first().len() ==> lex_lt(a[0].0, #[trigger] a.drop_first()[i].0));
            assert forall|i: int| 0 <= i < b.len() implies lex_lt(a[0].0, #[trigger] b[i].0) by {
                if i > 0 {
                    lemma_lex_trans(a[0].0, b[0].0, b[i].0);
                }
            }
            lemma_merged_lower_bound(c, a[0].0, a.drop_first(), b);
            let m = merged(c, a, b);
            assert(m =~= seq![a[0]] + merged(c, a.drop_first(), b));
            assert forall|i: int, j: int| 0 <= i < j < m.len() implies lex_lt(
                m[i].0,
                m[j].0,
            ) by {
                if i > 0 {
                    assert(m[i] == merged(c, a.drop_first(), b)[i - 1]);
                    assert(m[j] == merged(c, a.drop_first(), b)[j - 1]);
                }
            }
        } else if lex_lt(b[0].0, a[0].0) {
            lemma_merged_sorted(c, a, b.drop_first());
            assert(forall|i: int|
                0 <= i < b.drop_first().len() ==> lex_lt(b[0].0, #[trigger] b.drop_first()[i].0));
            assert forall|i: int| 0 <= i < a.len() implies lex_lt(b[0].0, #[trigger] a[i].0) by {
                if i > 0 {
                    lemma_lex_trans(b[0].0, a[0].0, a[i].0);
                }
            }
            lemma_merged_lower_bound(c, b[0].0, a, b.drop_first());
            let m = merged(c, a, b);
            assert(m =~= seq![b[0]] + merged(c, a, b.drop_first()));
            assert forall|i: int, j: int| 0 <= i < j < m.len() implies lex_lt(
                m[i].0,
                m[j].0,
            ) by {
                if i > 0 {
                    assert(m[i] == merged(c, a, b.drop_first())[i - 1]);
                    assert(m[j] == merged(c, a, b.drop_first())[j - 1]);
                }
            }
        } else {
            lemma_lex_total(a[0].0, b[0].0);
            assert(a[0].0 == b[0].0);
            lemma_merged_sorted(c, a.drop_first(), b.drop_first());
            assert(forall|i: int|
                0 <= i < a.drop_first().len() ==> lex_lt(a[0].0, #[trigger] a.drop_first()[i].0));
            assert forall|i: int| 0 <= i < b.drop_first().len() implies lex_lt(
                a[0].0,
                #[trigger] b.drop_first()[i].0,
            ) by {
                assert(b.drop_first()[i] == b[i + 1]);
            }
            lemma_merged_lower_bound(c, a[0].0, a.drop_first(), b.drop_first());
            match c.rule(a[0].1, b[0].1) {
                Some(v) => {
                    let m = merged(c, a, b);
                    assert(m =~= seq![(a[0].0, v)] + merged(c, a.drop_first(), b.drop_first()));
                    assert forall|i: int, j: int| 0 <= i < j < m.len() implies lex_lt(
                        m[i].0,
                        m[j].0,
                    ) by {
                        if i > 0 {
                            assert(m[i] == merged(c, a.drop_first(), b.drop_first())[i - 1]);
                            assert(m[j] == merged(c, a.drop_first(), b.drop_first())[j - 1]);
                        }
                    }
                },
                None => {},
            }
        }
    }
}

/// Union correctness, right bias: merging under `TakeRight` denotes exactly
/// the reference union in which the second mapping's values win on a key
/// collision; with the result sorted, it is the reference union read off in
/// ascending key order.
pub proof fn lemma_law_union_right(a: Seq<(Seq<u8>, Seq<u8>)>, b: Seq<(Seq<u8>, Seq<u8>)>)
    requires
        entries_sorted(a),
        entries_sorted(b),
    ensures
        entries_sorted(merged(TakeRight, a, b)),
        entries_to_map(merged(TakeRight, a, b)) == entries_to_map(a).union_prefer_right(
            entries_to_map(b),
        ),
    decreases a.len() + b.len(),
{
    lemma_merged_sorted(TakeRight, a, b);
    lemma_union_map(TakeRight, a, b);
}

/// Union correctness, left bias: merging under `TakeLeft` denotes the union
/// in which the first mapping's values win.
pub proof fn lemma_law_union_left(a: Seq<(Seq<u8>, Seq<u8>)>, b: Seq<(Seq<u8>, Seq<u8>)>)
    requires
        entries_sorted(a),
        entries_sorted(b),
    ensures
        entries_sorted(merged(TakeLeft, a, b)),
        entries_to_map(merged(TakeLeft, a, b)) == entries_to_map(b).union_prefer_right(
            entries_to_map(a),
        ),
{
    lemma_merged_sorted(TakeLeft, a, b);
    lemma_union_map(TakeLeft, a, b);
}

/// The map denoted by a biased merge.
proof fn lemma_union_map<C: ValueCombiner>(c: C, a: Seq<(Seq<u8>, Seq<u8>)>, b: Seq<(Seq<u8>, Seq<u8>)>)
    requires
        forall|x: Seq<u8>, y: Seq<u8>| #[trigger] c.rule(x, y) == Some(y) || c.rule(x, y) == Some(
            x,
        ),
        entries_sorted(a),
        entries_sorted(b),
    ensures
        (forall|x: Seq<u8>, y: Seq<u8>| #[trigger] c.rule(x, y) == Some(y)) ==> entries_to_map(
            merged(c, a, b),
        ) == entries_to_map(a).union_prefer_right(entries_to_map(b)),
        (forall|x: Seq<u8>, y: Seq<u8>| #[trigger] c.rule(x, y) == Some(x)) ==> entries_to_map(
            merged(c, a, b),
        ) == entries_to_map(b).union_prefer_right(entries_to_map(a)),
    decreases a.len() + b.len(),
{
    lemma_merged_sorted(c, a, b);
    lemma_entries_map_facts(a);
    lemma_entries_map_facts(b);
    lemma_entries_map_facts(merged(c, a, b));
    if a.len() == 0 {
        assert(entries_to_map(merged(c, a, b)) =~= entries_to_map(a).union_prefer_right(
            entries_to_map(b),
        ));
        assert(entries_to_map(merged(c, a, b)) =~= entries_to_map(b).union_prefer_right(
            entries_to_map(a),
        ));
    } else if b.len() == 0 {
        assert(entries_to_map(merged(c, a, b)) =~= entries_to_map(a).union_prefer_right(
            entries_to_map(b),
        ));
        assert(entries_to_map(merged(c, a, b)) =~= entries_to_map(b).union_prefer_right(
            entries_to_map(a),
        ));
    } else {
        assert(entries_sorted(a.drop_first())) by {
            assert(forall|i: int, j: int|
                0 <= i < j < a.drop_first().len() ==> a.drop_first()[i] == a[i + 1]
                    && a.drop_first()[j] == a[j + 1]);
        }
        assert(entries_sorted(b.drop_first())) by {
            assert(forall|i: int, j: int|
                0 <= i < j < b.drop_first().len() ==> b.drop_first()[i] == b[i + 1]
                    && b.drop_first()[j] == b[j + 1]);
        }
        lemma_entries_map_facts(a.drop_first());
        lemma_entries_map_facts(b.drop_first());
        if lex_lt(a[0].0, b[0].0) {
            lemma_union_map(c, a.drop_first(), b);
            lemma_merged_sorted(c, a.drop_first(), b);
            lemma_entries_map_facts(merged(c, a.drop_first(), b));
            let m = merged(c, a, b);
            assert(m == seq![a[0]] + merged(c, a.drop_first(), b));
            assert(m.drop_first() =~= merged(c, a.drop_first(), b));
            assert(m[0] == a[0]);
            // The head key is in neither remainder: it is below every key of
            // `b` and of `a`'s tail.
            assert forall|i: int| 0 <= i < b.len() implies b[i].0 != a[0].0 by {
                if i > 0 {
                    lemma_lex_trans(a[0].0, b[0].0, b[i].0);
                    lemma_lex_irrefl(a[0].0);
                } else {
                    lemma_lex_irrefl(a[0].0);
                }
            }
            if forall|x: Seq<u8>, y: Seq<u8>| #[trigger] c.rule(x, y) == Some(y) {
                assert(entries_to_map(m) =~= entries_to_map(a).union_prefer_right(
                    entries_to_map(b),
                ));
            }
            if forall|x: Seq<u8>, y: Seq<u8>| #[trigger] c.rule(x, y) == Some(x) {
                assert(entries_to_map(m) =~= entries_to_map(b).union_prefer_right(
                    entries_to_map(a),
                ));
            }
        } else if lex_lt(b[0].0, a[0].0) {
            lemma_union_map(c, a, b.drop_first());
            lemma_merged_sorted(c, a, b.drop_first());
            lemma_entries_map_facts(merged(c, a, b.drop_first()));
            let m = merged(c, a, b);
            assert(m == seq![b[0]] + merged(c, a, b.drop_first()));
            assert(m.drop_first() =~= merged(c, a, b.drop_first()));
            assert(m[0] == b[0]);
            assert forall|i: int| 0 <= i < a.len() implies a[i].0 != b[0].0 by {
                if i > 0 {
                    lemma_lex_trans(b[0].0, a[0].0, a[i].0);
                    lemma_lex_irrefl(b[0].0);
                } else {
                    lemma_lex_irrefl(b[0].0);
                }
            }
            if forall|x: Seq<u8>, y: Seq<u8>| #[trigger] c.rule(x, y) == Some(y) {
                assert(entries_to_map(m) =~= entries_to_map(a).union_prefer_right(
                    entries_to_map(b),
                ));
            }
            if forall|x: Seq<u8>, y: Seq<u8>| #[trigger] c.rule(x, y) == Some(x) {
                assert(entries_to_map(m) =~= entries_to_map(b).union_prefer_right(
                    entries_to_map(a),
                ));
            }
        } else {
            lemma_lex_total(a[0].0, b[0].0);
            assert(a[0].0 == b[0].0);
            lemma_union_map(c, a.drop_first(), b.drop_first());
            lemma_merged_sorted(c, a.drop_first(), b.drop_first());
            lemma_entries_map_facts(merged(c, a.drop_first(), b.drop_first()));
            let m = merged(c, a, b);
            match c.rule(a[0].1, b[0].1) {
                Some(v) => {
                    assert(m == seq![(a[0].0, v)] + merged(c, a.drop_first(), b.drop_first()));
                    assert(m.drop_first() =~= merged(c, a.drop_first(), b.drop_first()));
                    assert(m[0] == (a[0].0, v));
                    if forall|x: Seq<u8>, y: Seq<u8>| #[trigger] c.rule(x, y) == Some(y) {
                        assert(v == b[0].1);
                        assert(entries_to_map(m) =~= entries_to_map(a).union_prefer_right(
                            entries_to_map(b),
                        ));
                    }
                    if forall|x: Seq<u8>, y: Seq<u8>| #[trigger] c.rule(x, y) == Some(x) {
                        assert(v == a[0].1);
                        assert(entries_to_map(m) =~= entries_to_map(b).union_prefer_right(
                            entries_to_map(a),
                        ));
                    }
                },
                None => {
                    assert(false);
                },
            }
        }
    }
}

/// What a sorted entry sequence's map holds: exactly its keys, each bound to
/// the value beside it.
pub proof fn lemma_entries_map_facts(es: Seq<(Seq<u8>, Seq<u8>)>)
    requires
        entries_sorted(es),
    ensures
        forall|i: int|
            0 <= i < es.len() ==> entries_to_map(es).contains_key(#[trigger] es[i].0)
                && entries_to_map(es)[es[i].0] == es[i].1,
        forall|k: Seq<u8>|
            entries_to_map(es).contains_key(k) ==> exists|i: int|
                0 <= i < es.len() && #[trigger] es[i].0 == k,
    decreases es.len(),
{
    if es.len() > 0 {
        assert(entries_sorted(es.drop_first())) by {
            assert(forall|i: int, j: int|
                0 <= i < j < es.drop_first().len() ==> es.drop_first()[i] == es[i + 1]
                    && es.drop_first()[j] == es[j + 1]);
        }
        lemma_entries_map_facts(es.drop_first());
        // The head key is distinct from every later key.
        assert forall|i: int| 1 <= i < es.len() implies (#[trigger] es[i]).0 != es[0].0 by {
            lemma_lex_irrefl(es[0].0);
        }
        assert forall|i: int| 0 <= i < es.len() implies entries_to_map(es).contains_key(
            #[trigger] es[i].0,
        ) && entries_to_map(es)[es[i].0] == es[i].1 by {
            if i > 0 {
                assert(es.drop_first()[i - 1] == es[i]);
            }
        }
        assert forall|k: Seq<u8>| entries_to_map(es).contains_key(k) implies exists|i: int|
            0 <= i < es.len() && #[trigger] es[i].0 == k by {
            if k != es[0].0 {
                assert(entries_to_map(es.drop_first()).contains_key(k));
                assert(exists|i0: int|
                    0 <= i0 < es.drop_first().len() && #[trigger] es.drop_first()[i0].0 == k);
                let i0 = choose|i0: int|
                    0 <= i0 < es.drop_first().len() && #[trigger] es.drop_first()[i0].0 == k;
                assert(es.drop_first().len() == es.len() - 1);
                assert(0 <= i0 < es.len() - 1);
                assert(es.drop_first()[i0] == es[i0 + 1]);
                assert(es[i0 + 1].0 == k);
            }
        }
    }
}

/// Idempotence helper: merging a sequence with itself under the right bias
/// changes nothing.
proof fn lemma_merged_self_right(a: Seq<(Seq<u8>, Seq<u8>)>)
    ensures
        merged(TakeRight, a, a) == a,
    decreases a.len(),
{
    if a.len() > 0 {
        lemma_lex_irrefl(a[0].0);
        lemma_merged_self_right(a.drop_first());
        assert(merged(TakeRight, a, a) =~= a);
    }
}

/// Idempotence: applying the right-biased union with the same other tree a
/// second time yields the same entries as applying it once.
pub proof fn lemma_law_idempotent(a: Seq<(Seq<u8>, Seq<u8>)>, b: Seq<(Seq<u8>, Seq<u8>)>)
    ensures
        merged(TakeRight, merged(TakeRight, a, b), b) == merged(TakeRight, a, b),
    decreases a.len() + b.len(),
{
    if a.len() == 0 {
        lemma_merged_self_right(b);
    } else if b.len() == 0 {
    } else if lex_lt(a[0].0, b[0].0) {
        lemma_law_idempotent(a.drop_first(), b);
        let m = merged(TakeRight, a, b);
        assert(m == seq![a[0]] + merged(TakeRight, a.drop_first(), b));
        assert(m.drop_first() =~= merged(TakeRight, a.drop_first(), b));
        assert(merged(TakeRight, m, b) =~= m);
    } else if lex_lt(b[0].0, a[0].0) {
        lemma_law_idempotent(a, b.drop_first());
        let m = merged(TakeRight, a, b);
        assert(m == seq![b[0]] + merged(TakeRight, a, b.drop_first()));
        assert(m.drop_first() =~= merged(TakeRight, a, b.drop_first()));
        lemma_lex_irrefl(b[0].0);
        assert(merged(TakeRight, m, b) =~= m);
    } else {
        lemma_lex_total(a[0].0, b[0].0);
        assert(a[0].0 == b[0].0);
        lemma_law_idempotent(a.drop_first(), b.drop_first());
        let m = merged(TakeRight, a, b);
        assert(m == seq![(a[0].0, b[0].1)] + merged(TakeRight, a.drop_first(), b.drop_first()));
        assert(m.drop_first() =~= merged(TakeRight, a.drop_first(), b.drop_first()));
        lemma_lex_irrefl(a[0].0);
        assert(merged(TakeRight, m, b) =~= m);
    }
}

/// What a tree built by repeated right-biased insertion of an ascending
/// entry sequence holds after `i` insertions.
pub open spec fn built_ascending(pairs: Seq<(Seq<u8>, Seq<u8>)>) -> Seq<(Seq<u8>, Seq<u8>)>
    decreases pairs.len(),
{
    if pairs.len() == 0 {
        Seq::empty()
    } else {
        merged(TakeRight, built_ascending(pairs.drop_last()), seq![pairs.last()])
    }
}

/// Round trip: inserting the entries of a mapping one by one, in ascending
/// key order, by right-biased combination into the empty tree, and then
/// iterating, yields exactly the original mapping.
pub proof fn lemma_law_round_trip(pairs: Seq<(Seq<u8>, Seq<u8>)>)
    requires
        entries_sorted(pairs),
    ensures
        built_ascending(pairs) == pairs,
    decreases pairs.len(),
{
    if pairs.len() > 0 {
        let head = pairs.drop_last();
        assert(entries_sorted(head)) by {
            assert(forall|i: int, j: int|
                0 <= i < j < head.len() ==> head[i] == pairs[i] && head[j] == pairs[j]);
        }
        lemma_law_round_trip(head);
        assert forall|i: int, j: int|
            0 <= i < head.len() && 0 <= j < seq![pairs.last()].len() implies lex_lt(
            #[trigger] head[i].0,
            #[trigger] seq![pairs.last()][j].0,
        ) by {
            assert(head[i] == pairs[i]);
            assert(pairs.last() == pairs[pairs.len() - 1]);
        }
        lemma_merged_lt_left(TakeRight, head, Seq::empty(), seq![pairs.last()]);
        assert(head + Seq::<(Seq<u8>, Seq<u8>)>::empty() =~= head);
        lemma_merged_empty(TakeRight, seq![pairs.last()]);
        assert(built_ascending(pairs) =~= head + seq![pairs.last()]);
        assert(head + seq![pairs.last()] =~= pairs);
    }
}

/// Canonical form throughout a subtree: below the root, no node with a
/// non-empty prefix is empty of both value and children.
pub open spec fn subtree_canonical(n: TreeNode) -> bool
    decreases n, 0int, 0int,
{
    match n.children.kids {
        Kids::Owned(v) => kids_canonical(v@, 0),
        _ => true,
    }
}

/// Canonical form of the children from index `i` on.
pub open spec fn kids_canonical(s: Seq<TreeNode>, i: int) -> bool
    decreases s, s.len() - i, 1int,
{
    if 0 <= i < s.len() {
        &&& !(s[i].prefix@.len() > 0 && node_is_empty(s[i]))
        &&& subtree_canonical(s[i])
        &&& kids_canonical(s, i + 1)
    } else {
        true
    }
}

/// Canonical form: a well-formed tree has no non-root node that carries a
/// non-empty prefix with neither value nor children.
pub proof fn lemma_law_canonical(n: TreeNode)
    requires
        node_wf(n),
    ensures
        subtree_canonical(n),
    decreases n, 0int, 0int,
{
    match n.children.kids {
        Kids::Owned(v) => {
            lemma_kids_canonical(v@, 0);
        },
        _ => {},
    }
}

/// Canonical form of a well-formed child sequence.
proof fn lemma_kids_canonical(s: Seq<TreeNode>, i: int)
    requires
        kids_wf(s, i),
        0 <= i,
    ensures
        kids_canonical(s, i),
    decreases s, s.len() - i, 1int,
{
    if i < s.len() {
        lemma_law_canonical(s[i]);
        lemma_kids_canonical(s, i + 1);
    }
}

} // verus!
