//! The outer-combine merge engine: the union of two tries under a
//! caller-supplied value-combine rule, in an allocating and an in-place form,
//! built on a sorted merge-join of sibling sequences.
//!
//! The model is [`merged`]: the sorted merge of the two entry sequences,
//! resolving key collisions through the rule.

use vstd::prelude::*;

use crate::lex::{lemma_lex_first_byte, lemma_lex_prepend, lemma_lex_total, lex_lt};
use crate::node::{
    kids, kids_entries, kids_mirror, kids_resident, kids_size, kids_sorted, kids_wf,
    lemma_kids_entries_push, lemma_kids_entries_unfold, lemma_kids_mirror_from_forall,
    lemma_kids_size_le, lemma_kids_wf_all, lemma_kids_entries_wf, lemma_mirror_kids,
    lemma_mirror_node, lemma_node_entries_wf, lemma_prepend_compose,
    lemma_wf_resident, node_canonical_root, node_entries, node_is_empty,
    node_mirror, node_resident, node_size, node_under, node_wf, own_entries, prepend_keys,
    entries_sorted, keys_at_least, keys_start_with, Kids, TreeChildren, TreeNode, TreePrefix,
    TreeValue,
};

verus! {

/// The view of an optional owned byte string.
pub open spec fn opt_bytes(r: Option<Vec<u8>>) -> Option<Seq<u8>> {
    match r {
        Some(v) => Some(v@),
        None => None,
    }
}

/// A caller-supplied rule that resolves a key collision between two values.
/// `rule` is the rule itself; `combine` computes it.
pub trait ValueCombiner: Sized {
    /// What the rule yields for a colliding pair of values; `None` drops the
    /// entry from the result.
    spec fn rule(&self, a: Seq<u8>, b: Seq<u8>) -> Option<Seq<u8>>;

    /// Compute the rule on a colliding pair of values.
    fn combine(&self, a: &Vec<u8>, b: &Vec<u8>) -> (r: Option<Vec<u8>>)
        ensures
            opt_bytes(r) == self.rule(a@, b@),
    ;
}

/// Right bias: on a collision the second tree's value wins.
pub struct TakeRight;

impl ValueCombiner for TakeRight {
    open spec fn rule(&self, a: Seq<u8>, b: Seq<u8>) -> Option<Seq<u8>> {
        Some(b)
    }

    fn combine(&self, a: &Vec<u8>, b: &Vec<u8>) -> (r: Option<Vec<u8>>) {
        Some(crate::flexref::copy_bytes(b))
    }
}

/// Left bias: on a collision the first tree's value wins.
pub struct TakeLeft;

impl ValueCombiner for TakeLeft {
    open spec fn rule(&self, a: Seq<u8>, b: Seq<u8>) -> Option<Seq<u8>> {
        Some(a)
    }

    fn combine(&self, a: &Vec<u8>, b: &Vec<u8>) -> (r: Option<Vec<u8>>) {
        Some(crate::flexref::copy_bytes(a))
    }
}

/// Collision-dropping rule: a key bound on both sides disappears from the
/// result, exercising the rule's right to answer with nothing.
pub struct TakeNeither;

impl ValueCombiner for TakeNeither {
    open spec fn rule(&self, a: Seq<u8>, b: Seq<u8>) -> Option<Seq<u8>> {
        None
    }

    fn combine(&self, a: &Vec<u8>, b: &Vec<u8>) -> (r: Option<Vec<u8>>) {
        None
    }
}

/// The sorted merge of two entry sequences: keys present on one side pass
/// through, colliding keys are resolved by the rule.
pub open spec fn merged<C: ValueCombiner>(
    c: C,
    a: Seq<(Seq<u8>, Seq<u8>)>,
    b: Seq<(Seq<u8>, Seq<u8>)>,
) -> Seq<(Seq<u8>, Seq<u8>)>
    decreases a.len() + b.len(),
{
    if a.len() == 0 {
        b
    } else if b.len() == 0 {
        a
    } else if lex_lt(a[0].0, b[0].0) {
        seq![a[0]] + merged(c, a.drop_first(), b)
    } else if lex_lt(b[0].0, a[0].0) {
        seq![b[0]] + merged(c, a, b.drop_first())
    } else {
        match c.rule(a[0].1, b[0].1) {
            Some(v) => seq![(a[0].0, v)] + merged(c, a.drop_first(), b.drop_first()),
            None => merged(c, a.drop_first(), b.drop_first()),
        }
    }
}

/// Every key of `xs` is lexicographically before every key of `ys`.
pub open spec fn all_keys_lt(xs: Seq<(Seq<u8>, Seq<u8>)>, ys: Seq<(Seq<u8>, Seq<u8>)>) -> bool {
    forall|i: int, j: int|
        0 <= i < xs.len() && 0 <= j < ys.len() ==> lex_lt(#[trigger] xs[i].0, #[trigger] ys[j].0)
}

/// Merging with the empty sequence is the identity.
pub proof fn lemma_merged_empty<C: ValueCombiner>(c: C, a: Seq<(Seq<u8>, Seq<u8>)>)
    ensures
        merged(c, a, Seq::empty()) == a,
        merged(c, Seq::empty(), a) == a,
{
}

/// A block of keys entirely before the right side passes through unchanged.
pub proof fn lemma_merged_lt_left<C: ValueCombiner>(
    c: C,
    x: Seq<(Seq<u8>, Seq<u8>)>,
    a2: Seq<(Seq<u8>, Seq<u8>)>,
    b: Seq<(Seq<u8>, Seq<u8>)>,
)
    requires
        all_keys_lt(x, b),
    ensures
        merged(c, x + a2, b) == x + merged(c, a2, b),
    decreases x.len(),
{
    if x.len() == 0 {
        assert(x + a2 =~= a2);
        assert(x + merged(c, a2, b) =~= merged(c, a2, b));
    } else if b.len() == 0 {
        assert(merged(c, x + a2, b) =~= x + merged(c, a2, b));
    } else {
        let xa = x + a2;
        assert(xa[0] == x[0]);
        assert(lex_lt(xa[0].0, b[0].0));
        assert(xa.drop_first() =~= x.drop_first() + a2);
        lemma_merged_lt_left(c, x.drop_first(), a2, b);
        assert(merged(c, x + a2, b) =~= x + merged(c, a2, b));
    }
}

/// A block of keys entirely before the left side passes through unchanged.
pub proof fn lemma_merged_lt_right<C: ValueCombiner>(
    c: C,
    a: Seq<(Seq<u8>, Seq<u8>)>,
    y: Seq<(Seq<u8>, Seq<u8>)>,
    b2: Seq<(Seq<u8>, Seq<u8>)>,
)
    requires
        all_keys_lt(y, a),
    ensures
        merged(c, a, y + b2) == y + merged(c, a, b2),
    decreases y.len(),
{
    if y.len() == 0 {
        assert(y + b2 =~= b2);
        assert(y + merged(c, a, b2) =~= merged(c, a, b2));
    } else if a.len() == 0 {
        assert(merged(c, a, y + b2) =~= y + merged(c, a, b2));
    } else {
        let yb = y + b2;
        assert(yb[0] == y[0]);
        assert(lex_lt(yb[0].0, a[0].0));
        crate::lex::lemma_lex_total(a[0].0, yb[0].0);
        assert(yb.drop_first() =~= y.drop_first() + b2);
        lemma_merged_lt_right(c, a, y.drop_first(), b2);
        assert(merged(c, a, y + b2) =~= y + merged(c, a, b2));
    }
}

/// When both sides split at a common sorted boundary, the merge splits too.
pub proof fn lemma_merged_split<C: ValueCombiner>(
    c: C,
    a1: Seq<(Seq<u8>, Seq<u8>)>,
    a2: Seq<(Seq<u8>, Seq<u8>)>,
    b1: Seq<(Seq<u8>, Seq<u8>)>,
    b2: Seq<(Seq<u8>, Seq<u8>)>,
)
    requires
        all_keys_lt(a1, b2),
        all_keys_lt(b1, a2),
        all_keys_lt(a1, a2),
        all_keys_lt(b1, b2),
    ensures
        merged(c, a1 + a2, b1 + b2) == merged(c, a1, b1) + merged(c, a2, b2),
    decreases a1.len() + b1.len(),
{
    if a1.len() == 0 && b1.len() == 0 {
        assert(a1 + a2 =~= a2);
        assert(b1 + b2 =~= b2);
        assert(merged(c, a1, b1) + merged(c, a2, b2) =~= merged(c, a2, b2));
    } else if b1.len() == 0 {
        assert(b1 + b2 =~= b2);
        lemma_merged_lt_left(c, a1, a2, b2);
        assert(merged(c, a1, b1) =~= a1);
        assert(merged(c, a1 + a2, b1 + b2) =~= merged(c, a1, b1) + merged(c, a2, b2));
    } else if a1.len() == 0 {
        assert(a1 + a2 =~= a2);
        lemma_merged_lt_right(c, a2, b1, b2);
        assert(merged(c, a1, b1) =~= b1);
        assert(merged(c, a1 + a2, b1 + b2) =~= merged(c, a1, b1) + merged(c, a2, b2));
    } else {
        let aa = a1 + a2;
        let bb = b1 + b2;
        assert(aa[0] == a1[0]);
        assert(bb[0] == b1[0]);
        assert(aa.drop_first() =~= a1.drop_first() + a2);
        assert(bb.drop_first() =~= b1.drop_first() + b2);
        if lex_lt(a1[0].0, b1[0].0) {
            lemma_merged_split(c, a1.drop_first(), a2, b1, b2);
            assert(merged(c, aa, bb) =~= merged(c, a1, b1) + merged(c, a2, b2));
        } else if lex_lt(b1[0].0, a1[0].0) {
            lemma_merged_split(c, a1, a2, b1.drop_first(), b2);
            assert(merged(c, aa, bb) =~= merged(c, a1, b1) + merged(c, a2, b2));
        } else {
            lemma_merged_split(c, a1.drop_first(), a2, b1.drop_first(), b2);
            assert(merged(c, aa, bb) =~= merged(c, a1, b1) + merged(c, a2, b2));
        }
    }
}

/// A common prefix factors out of a merge.
pub proof fn lemma_merged_prepend<C: ValueCombiner>(
    c: C,
    p: Seq<u8>,
    a: Seq<(Seq<u8>, Seq<u8>)>,
    b: Seq<(Seq<u8>, Seq<u8>)>,
)
    ensures
        merged(c, prepend_keys(p, a), prepend_keys(p, b)) == prepend_keys(p, merged(c, a, b)),
    decreases a.len() + b.len(),
{
    let pa = prepend_keys(p, a);
    let pb = prepend_keys(p, b);
    if a.len() == 0 {
        assert(merged(c, pa, pb) =~= prepend_keys(p, merged(c, a, b)));
    } else if b.len() == 0 {
        assert(merged(c, pa, pb) =~= prepend_keys(p, merged(c, a, b)));
    } else {
        lemma_lex_prepend(p, a[0].0, b[0].0);
        lemma_lex_prepend(p, b[0].0, a[0].0);
        assert(pa[0] == (p + a[0].0, a[0].1));
        assert(pb[0] == (p + b[0].0, b[0].1));
        assert(pa.drop_first() =~= prepend_keys(p, a.drop_first()));
        assert(pb.drop_first() =~= prepend_keys(p, b.drop_first()));
        lemma_merged_prepend(c, p, a.drop_first(), b);
        lemma_merged_prepend(c, p, a, b.drop_first());
        lemma_merged_prepend(c, p, a.drop_first(), b.drop_first());
        if lex_lt(a[0].0, b[0].0) {
            assert(merged(c, pa, pb) =~= prepend_keys(p, merged(c, a, b)));
        } else if lex_lt(b[0].0, a[0].0) {
            assert(merged(c, pa, pb) =~= prepend_keys(p, merged(c, a, b)));
        } else {
            lemma_lex_total(a[0].0, b[0].0);
            assert(a[0].0 == b[0].0);
            assert(merged(c, pa, pb) =~= prepend_keys(p, merged(c, a, b)));
        }
    }
}

/// How the merge resolves the two optional values a colliding node pair
/// carries under identical keys.
pub open spec fn combined_value<C: ValueCombiner>(
    c: C,
    a: Option<Seq<u8>>,
    b: Option<Seq<u8>>,
) -> Option<Seq<u8>> {
    match (a, b) {
        (Some(x), Some(y)) => c.rule(x, y),
        (Some(x), None) => Some(x),
        (None, y) => y,
    }
}

/// Below a shared prefix, the merge resolves the own values first and then
/// merges the child entries, whose keys are never empty.
pub proof fn lemma_merged_under<C: ValueCombiner>(
    c: C,
    aopt: Option<Seq<u8>>,
    bopt: Option<Seq<u8>>,
    ka: Seq<(Seq<u8>, Seq<u8>)>,
    kb: Seq<(Seq<u8>, Seq<u8>)>,
)
    requires
        forall|i: int| 0 <= i < ka.len() ==> #[trigger] ka[i].0.len() > 0,
        forall|i: int| 0 <= i < kb.len() ==> #[trigger] kb[i].0.len() > 0,
    ensures
        merged(c, own_entries_of(aopt) + ka, own_entries_of(bopt) + kb) == own_entries_of(
            combined_value(c, aopt, bopt),
        ) + merged(c, ka, kb),
{
    let ua = own_entries_of(aopt) + ka;
    let ub = own_entries_of(bopt) + kb;
    match (aopt, bopt) {
        (Some(x), Some(y)) => {
            assert(ua[0] == (Seq::<u8>::empty(), x));
            assert(ub[0] == (Seq::<u8>::empty(), y));
            assert(ua.drop_first() =~= ka);
            assert(ub.drop_first() =~= kb);
            assert(merged(c, ua, ub) =~= own_entries_of(combined_value(c, aopt, bopt)) + merged(
                c,
                ka,
                kb,
            ));
        },
        (Some(x), None) => {
            assert(ua =~= seq![(Seq::<u8>::empty(), x)] + ka);
            assert(ub =~= kb);
            assert forall|i: int, j: int|
                0 <= i < seq![(Seq::<u8>::empty(), x)].len() && 0 <= j < kb.len() implies lex_lt(
                #[trigger] seq![(Seq::<u8>::empty(), x)][i].0,
                #[trigger] kb[j].0,
            ) by {
                assert(kb[j].0.len() > 0);
            }
            lemma_merged_lt_left(c, seq![(Seq::<u8>::empty(), x)], ka, kb);
            assert(merged(c, ua, ub) =~= own_entries_of(combined_value(c, aopt, bopt)) + merged(
                c,
                ka,
                kb,
            ));
        },
        (None, Some(y)) => {
            assert(ub =~= seq![(Seq::<u8>::empty(), y)] + kb);
            assert(ua =~= ka);
            assert forall|i: int, j: int|
                0 <= i < seq![(Seq::<u8>::empty(), y)].len() && 0 <= j < ka.len() implies lex_lt(
                #[trigger] seq![(Seq::<u8>::empty(), y)][i].0,
                #[trigger] ka[j].0,
            ) by {
                assert(ka[j].0.len() > 0);
            }
            lemma_merged_lt_right(c, ka, seq![(Seq::<u8>::empty(), y)], kb);
            assert(merged(c, ua, ub) =~= own_entries_of(combined_value(c, aopt, bopt)) + merged(
                c,
                ka,
                kb,
            ));
        },
        (None, None) => {
            assert(ua =~= ka);
            assert(ub =~= kb);
            assert(merged(c, ua, ub) =~= own_entries_of(combined_value(c, aopt, bopt)) + merged(
                c,
                ka,
                kb,
            ));
        },
    }
}

/// At a sorted join where the left child leads, its entries pass through.
pub proof fn lemma_pass_left<C: ValueCombiner>(
    c: C,
    sa: Seq<TreeNode>,
    k: int,
    sb: Seq<TreeNode>,
    j: int,
)
    requires
        kids_wf(sa, k),
        kids_sorted(sa),
        kids_wf(sb, j),
        kids_sorted(sb),
        0 <= k < sa.len(),
        0 <= j <= sb.len(),
        j < sb.len() ==> sa[k].prefix@[0] < sb[j].prefix@[0],
    ensures
        merged(c, kids_entries(sa, k), kids_entries(sb, j)) == node_entries(sa[k]) + merged(
            c,
            kids_entries(sa, k + 1),
            kids_entries(sb, j),
        ),
{
    crate::node::lemma_kids_wf_from(sa, k, k + 1);
    lemma_node_entries_wf(sa[k]);
    lemma_kids_entries_wf(sa, k);
    lemma_kids_entries_wf(sb, j);
    let eak = node_entries(sa[k]);
    let kbj = kids_entries(sb, j);
    assert forall|t: int, l: int| 0 <= t < eak.len() && 0 <= l < kbj.len() implies lex_lt(
        #[trigger] eak[t].0,
        #[trigger] kbj[l].0,
    ) by {
        assert(eak[t].0[0] == sa[k].prefix@[0]);
        assert(kbj[l].0.len() > 0 && kbj[l].0[0] >= sb[j].prefix@[0]);
        lemma_lex_first_byte(eak[t].0, kbj[l].0);
    }
    lemma_merged_lt_left(c, eak, kids_entries(sa, k + 1), kbj);
    lemma_kids_entries_unfold(sa, k);
}

/// At a sorted join where the right child leads, its entries pass through.
pub proof fn lemma_pass_right<C: ValueCombiner>(
    c: C,
    sa: Seq<TreeNode>,
    k: int,
    sb: Seq<TreeNode>,
    j: int,
)
    requires
        kids_wf(sa, k),
        kids_sorted(sa),
        kids_wf(sb, j),
        kids_sorted(sb),
        0 <= k <= sa.len(),
        0 <= j < sb.len(),
        k < sa.len() ==> sb[j].prefix@[0] < sa[k].prefix@[0],
    ensures
        merged(c, kids_entries(sa, k), kids_entries(sb, j)) == node_entries(sb[j]) + merged(
            c,
            kids_entries(sa, k),
            kids_entries(sb, j + 1),
        ),
{
    crate::node::lemma_kids_wf_from(sb, j, j + 1);
    lemma_node_entries_wf(sb[j]);
    lemma_kids_entries_wf(sb, j);
    lemma_kids_entries_wf(sa, k);
    let ebj = node_entries(sb[j]);
    let kak = kids_entries(sa, k);
    assert forall|t: int, l: int| 0 <= t < ebj.len() && 0 <= l < kak.len() implies lex_lt(
        #[trigger] ebj[t].0,
        #[trigger] kak[l].0,
    ) by {
        assert(ebj[t].0[0] == sb[j].prefix@[0]);
        assert(kak[l].0.len() > 0 && kak[l].0[0] >= sa[k].prefix@[0]);
        lemma_lex_first_byte(ebj[t].0, kak[l].0);
    }
    lemma_merged_lt_right(c, kak, ebj, kids_entries(sb, j + 1));
    lemma_kids_entries_unfold(sb, j);
}

/// At a sorted join of two children with equal leading bytes, the merge
/// splits into the pair's merge followed by the rest's.
pub proof fn lemma_split_at_collision<C: ValueCombiner>(
    c: C,
    sa: Seq<TreeNode>,
    k: int,
    sb: Seq<TreeNode>,
    j: int,
)
    requires
        kids_wf(sa, k),
        kids_sorted(sa),
        kids_wf(sb, j),
        kids_sorted(sb),
        0 <= k < sa.len(),
        0 <= j < sb.len(),
        sa[k].prefix@[0] == sb[j].prefix@[0],
    ensures
        merged(c, kids_entries(sa, k), kids_entries(sb, j)) == merged(
            c,
            node_entries(sa[k]),
            node_entries(sb[j]),
        ) + merged(c, kids_entries(sa, k + 1), kids_entries(sb, j + 1)),
{
    crate::node::lemma_kids_wf_from(sa, k, k + 1);
    crate::node::lemma_kids_wf_from(sb, j, j + 1);
    lemma_node_entries_wf(sa[k]);
    lemma_node_entries_wf(sb[j]);
    lemma_kids_entries_wf(sa, k + 1);
    lemma_kids_entries_wf(sb, j + 1);
    let f0 = sa[k].prefix@[0];
    let eak = node_entries(sa[k]);
    let ebj = node_entries(sb[j]);
    assert forall|t: int, l: int|
        0 <= t < eak.len() && 0 <= l < kids_entries(sb, j + 1).len() implies lex_lt(
        #[trigger] eak[t].0,
        #[trigger] kids_entries(sb, j + 1)[l].0,
    ) by {
        assert(eak[t].0[0] == f0);
        let kl = kids_entries(sb, j + 1)[l].0;
        assert(kl.len() > 0 && kl[0] >= sb[j + 1].prefix@[0]);
        assert(sb[j].prefix@[0] < sb[j + 1].prefix@[0]);
        lemma_lex_first_byte(eak[t].0, kl);
    }
    assert forall|t: int, l: int|
        0 <= t < ebj.len() && 0 <= l < kids_entries(sa, k + 1).len() implies lex_lt(
        #[trigger] ebj[t].0,
        #[trigger] kids_entries(sa, k + 1)[l].0,
    ) by {
        assert(ebj[t].0[0] == f0);
        let kl = kids_entries(sa, k + 1)[l].0;
        assert(kl.len() > 0 && kl[0] >= sa[k + 1].prefix@[0]);
        assert(sa[k].prefix@[0] < sa[k + 1].prefix@[0]);
        lemma_lex_first_byte(ebj[t].0, kl);
    }
    assert forall|t: int, l: int|
        0 <= t < eak.len() && 0 <= l < kids_entries(sa, k + 1).len() implies lex_lt(
        #[trigger] eak[t].0,
        #[trigger] kids_entries(sa, k + 1)[l].0,
    ) by {
        assert(eak[t].0[0] == f0);
        let kl = kids_entries(sa, k + 1)[l].0;
        assert(kl.len() > 0 && kl[0] >= sa[k + 1].prefix@[0]);
        assert(sa[k].prefix@[0] < sa[k + 1].prefix@[0]);
        lemma_lex_first_byte(eak[t].0, kl);
    }
    assert forall|t: int, l: int|
        0 <= t < ebj.len() && 0 <= l < kids_entries(sb, j + 1).len() implies lex_lt(
        #[trigger] ebj[t].0,
        #[trigger] kids_entries(sb, j + 1)[l].0,
    ) by {
        assert(ebj[t].0[0] == f0);
        let kl = kids_entries(sb, j + 1)[l].0;
        assert(kl.len() > 0 && kl[0] >= sb[j + 1].prefix@[0]);
        assert(sb[j].prefix@[0] < sb[j + 1].prefix@[0]);
        lemma_lex_first_byte(ebj[t].0, kl);
    }
    lemma_merged_split(c, eak, kids_entries(sa, k + 1), ebj, kids_entries(sb, j + 1));
    lemma_kids_entries_unfold(sa, k);
    lemma_kids_entries_unfold(sb, j);
}

// ---------------------------------------------------------------------------
// The executable engine.
// ---------------------------------------------------------------------------

/// The length of the longest common prefix of two byte strings.
pub fn common_prefix(a: &[u8], b: &[u8]) -> (n: usize)
    ensures
        n <= a@.len(),
        n <= b@.len(),
        a@.take(n as int) == b@.take(n as int),
        n < a@.len() && n < b@.len() ==> a@[n as int] != b@[n as int],
{
    let mut i: usize = 0;
    while i < a.len() && i < b.len() && *vstd::slice::slice_index_get(a, i)
        == *vstd::slice::slice_index_get(b, i)
        invariant
            i <= a@.len(),
            i <= b@.len(),
            forall|j: int| 0 <= j < i ==> a@[j] == b@[j],
        decreases a@.len() - i,
    {
        i = i + 1;
    }
    proof {
        assert(a@.take(i as int) =~= b@.take(i as int));
    }
    i
}

/// A slot-by-slot copy of a canonical child sequence, with the facts the
/// merge needs about the copy.
fn clone_nodes(v: &Vec<TreeNode>) -> (r: Vec<TreeNode>)
    requires
        kids_wf(v@, 0),
        kids_sorted(v@),
    ensures
        kids_wf(r@, 0),
        kids_sorted(r@),
        kids_entries(r@, 0) == kids_entries(v@, 0),
        r@.len() == v@.len(),
        forall|k: int| 0 <= k < r@.len() ==> #[trigger] r@[k].prefix@ == v@[k].prefix@,
{
    let mut out: Vec<TreeNode> = Vec::new();
    let mut i: usize = 0;
    #[verifier::loop_isolation(false)]
    while i < v.len()
        invariant
            i <= v.len(),
            out.len() == i,
            forall|j: int| 0 <= j < i ==> node_mirror(#[trigger] v@[j], out@[j]),
        decreases v.len() - i,
    {
        out.push(v[i].deep_clone());
        i = i + 1;
    }
    proof {
        lemma_kids_mirror_from_forall(v@, out@, 0);
        lemma_mirror_kids(v@, out@, 0);
        crate::node::lemma_wf_resident_kids(v@, 0);
        lemma_kids_wf_all(v@, 0);
        assert forall|k: int| 0 <= k < out@.len() implies #[trigger] out@[k].prefix@
            == v@[k].prefix@ by {
            lemma_mirror_node(v@[k], out@[k]);
        }
    }
    out
}

/// The sorted merge-join over two canonical child sequences: unmatched
/// siblings pass through copied, siblings with equal leading bytes are merged
/// recursively, and a merge that comes back empty is dropped.
fn outer_combine_children<C: ValueCombiner>(x: &TreeChildren, y: &TreeChildren, c: &C) -> (r: Vec<
    TreeNode,
>)
    requires
        kids_wf(x.nodes(), 0),
        kids_sorted(x.nodes()),
        kids_wf(y.nodes(), 0),
        kids_sorted(y.nodes()),
    ensures
        kids_wf(r@, 0),
        kids_sorted(r@),
        kids_entries(r@, 0) == merged(*c, kids_entries(x.nodes(), 0), kids_entries(y.nodes(), 0)),
    decreases kids_size(x.nodes(), 0) + kids_size(y.nodes(), 0) + 1,
{
    match (&x.kids, &y.kids) {
        (Kids::Owned(xs), Kids::Owned(ys)) => {
            let mut out: Vec<TreeNode> = Vec::new();
            let mut i: usize = 0;
            let mut j: usize = 0;
            proof {
                lemma_kids_wf_all(xs@, 0);
                lemma_kids_wf_all(ys@, 0);
            }
            #[verifier::loop_isolation(false)]
            while i < xs.len() || j < ys.len()
                invariant
                    i <= xs.len(),
                    j <= ys.len(),
                    kids_wf(out@, 0),
                    kids_sorted(out@),
                    kids_entries(out@, 0) + merged(
                        *c,
                        kids_entries(xs@, i as int),
                        kids_entries(ys@, j as int),
                    ) == merged(*c, kids_entries(xs@, 0), kids_entries(ys@, 0)),
                    forall|k: int, l: int|
                        0 <= k < out@.len() && i <= l < xs@.len() ==> (#[trigger] out@[k].prefix@[0])
                            < (#[trigger] xs@[l].prefix@[0]),
                    forall|k: int, l: int|
                        0 <= k < out@.len() && j <= l < ys@.len() ==> (#[trigger] out@[k].prefix@[0])
                            < (#[trigger] ys@[l].prefix@[0]),
                decreases xs.len() - i + ys.len() - j,
            {
                proof {
                    crate::node::lemma_kids_wf_from(xs@, 0, i as int);
                    crate::node::lemma_kids_wf_from(xs@, 0, i + 1);
                    crate::node::lemma_kids_wf_from(ys@, 0, j as int);
                    crate::node::lemma_kids_wf_from(ys@, 0, j + 1);
                    if i < xs.len() {
                        lemma_node_entries_wf(xs@[i as int]);
                        lemma_kids_entries_wf(xs@, i as int);
                        lemma_kids_entries_wf(xs@, i + 1);
                    }
                    if j < ys.len() {
                        lemma_node_entries_wf(ys@[j as int]);
                        lemma_kids_entries_wf(ys@, j as int);
                        lemma_kids_entries_wf(ys@, j + 1);
                    }
                }
                let take_x = if j >= ys.len() {
                    true
                } else if i >= xs.len() {
                    false
                } else {
                    xs[i].prefix.first() < ys[j].prefix.first()
                };
                let take_y = if !take_x {
                    if i >= xs.len() {
                        true
                    } else if j >= ys.len() {
                        false
                    } else {
                        ys[j].prefix.first() < xs[i].prefix.first()
                    }
                } else {
                    false
                };
                if take_x {
                    let ghost exi = node_entries(xs@[i as int]);
                    let ghost rest = merged(
                        *c,
                        kids_entries(xs@, i + 1),
                        kids_entries(ys@, j as int),
                    );
                    proof {
                        lemma_pass_left(*c, xs@, i as int, ys@, j as int);
                    }
                    let cl = xs[i].deep_clone();
                    proof {
                        lemma_mirror_node(xs@[i as int], cl);
                        crate::node::lemma_wf_resident(xs@[i as int]);
                        crate::node::lemma_kids_wf_push(out@, cl, 0);
                        lemma_kids_entries_push(out@, cl, 0);
                        assert((kids_entries(out@, 0) + exi) + rest =~= kids_entries(out@, 0) + (exi
                            + rest));
                    }
                    out.push(cl);
                    i = i + 1;
                } else if take_y {
                    let ghost eyj = node_entries(ys@[j as int]);
                    let ghost rest = merged(
                        *c,
                        kids_entries(xs@, i as int),
                        kids_entries(ys@, j + 1),
                    );
                    proof {
                        lemma_pass_right(*c, xs@, i as int, ys@, j as int);
                    }
                    let cl = ys[j].deep_clone();
                    proof {
                        lemma_mirror_node(ys@[j as int], cl);
                        crate::node::lemma_wf_resident(ys@[j as int]);
                        crate::node::lemma_kids_wf_push(out@, cl, 0);
                        lemma_kids_entries_push(out@, cl, 0);
                        assert((kids_entries(out@, 0) + eyj) + rest =~= kids_entries(out@, 0) + (eyj
                            + rest));
                    }
                    out.push(cl);
                    j = j + 1;
                } else {
                    // Equal leading bytes: merge the two siblings recursively.
                    let ghost exi = node_entries(xs@[i as int]);
                    let ghost eyj = node_entries(ys@[j as int]);
                    proof {
                        lemma_kids_size_le(xs@, 0, i as int);
                        lemma_kids_size_le(ys@, 0, j as int);
                        lemma_split_at_collision(*c, xs@, i as int, ys@, j as int);
                    }
                    let rc = outer_combine_nodes(&xs[i], &ys[j], c);
                    let ghost rest = merged(
                        *c,
                        kids_entries(xs@, i + 1),
                        kids_entries(ys@, j + 1),
                    );
                    proof {
                        lemma_node_entries_wf(rc);
                    }
                    if !rc.is_empty() {
                        proof {
                            crate::node::lemma_kids_wf_push(out@, rc, 0);
                            lemma_kids_entries_push(out@, rc, 0);
                            assert((kids_entries(out@, 0) + node_entries(rc)) + rest
                                =~= kids_entries(out@, 0) + (node_entries(rc) + rest));
                        }
                        out.push(rc);
                    } else {
                        proof {
                            assert(node_entries(rc) =~= Seq::<(Seq<u8>, Seq<u8>)>::empty());
                            assert(node_entries(rc) + rest =~= rest);
                        }
                    }
                    i = i + 1;
                    j = j + 1;
                }
            }
            proof {
                assert(kids_entries(out@, 0) + merged(
                    *c,
                    kids_entries(xs@, i as int),
                    kids_entries(ys@, j as int),
                ) =~= kids_entries(out@, 0));
            }
            out
        },
        (Kids::Owned(xs), _) => {
            proof {
                lemma_merged_empty(*c, kids_entries(x.nodes(), 0));
            }
            clone_nodes(xs)
        },
        (_, Kids::Owned(ys)) => {
            proof {
                lemma_merged_empty(*c, kids_entries(y.nodes(), 0));
            }
            clone_nodes(ys)
        },
        _ => {
            proof {
                lemma_merged_empty(*c, Seq::empty());
            }
            Vec::new()
        },
    }
}

/// The union of the tries rooted at `a` and `b`: a key present in either
/// appears in the result; on a collision the rule decides, and may drop the
/// pair. The result is a fresh canonical tree.
#[verifier::rlimit(100)]
pub fn outer_combine_nodes<C: ValueCombiner>(a: &TreeNode, b: &TreeNode, c: &C) -> (r: TreeNode)
    requires
        node_wf(*a),
        node_wf(*b),
        node_canonical_root(*a),
        node_canonical_root(*b),
    ensures
        node_wf(r),
        node_canonical_root(r),
        node_entries(r) == merged(*c, node_entries(*a), node_entries(*b)),
        (!node_is_empty(r) && a.prefix@.len() > 0 && b.prefix@.len() > 0 && a.prefix@[0]
            == b.prefix@[0]) ==> (r.prefix@.len() > 0 && r.prefix@[0] == a.prefix@[0]),
    decreases node_size(*a) + node_size(*b),
{
    let ghost ea = node_entries(*a);
    let ghost eb = node_entries(*b);
    proof {
        lemma_wf_resident(*a);
        lemma_wf_resident(*b);
        lemma_node_entries_wf(*a);
        lemma_node_entries_wf(*b);
        match &a.children.kids {
            Kids::Owned(v) => lemma_kids_entries_wf(v@, 0),
            _ => (),
        }
        match &b.children.kids {
            Kids::Owned(v) => lemma_kids_entries_wf(v@, 0),
            _ => (),
        }
    }
    let ap = a.prefix.bytes();
    let bp = b.prefix.bytes();
    let n = common_prefix(ap.as_slice(), bp.as_slice());
    let prefix_bytes = vstd::slice::slice_to_vec(vstd::slice::slice_subrange(
        ap.as_slice(),
        0,
        n,
    ));
    let ghost p = a.prefix@.take(n as int);
    let ghost ka = kids_entries(kids(*a), 0);
    let ghost kb = kids_entries(kids(*b), 0);
    let value: TreeValue;
    let new_kids: Vec<TreeNode>;
    if n == ap.len() && n == bp.len() {
        // Identical prefixes: combine the values, join the children.
        proof {
            assert(a.prefix@.take(n as int) =~= a.prefix@);
            assert(b.prefix@.take(n as int) =~= b.prefix@);
            assert(a.prefix@ =~= b.prefix@);
            assert(a.prefix@ =~= p);
        }
        value = if a.value.is_some() {
            if b.value.is_some() {
                TreeValue::from_opt(c.combine(a.value.bytes(), b.value.bytes()))
            } else {
                a.value.duplicate()
            }
        } else {
            b.value.duplicate()
        };
        new_kids = outer_combine_children(&a.children, &b.children, c);
        proof {
            lemma_merged_prepend(*c, p, node_under(*a), node_under(*b));
            assert(node_under(*a) =~= own_entries_of(a.value.opt()) + ka);
            assert(node_under(*b) =~= own_entries_of(b.value.opt()) + kb);
            lemma_merged_under(*c, a.value.opt(), b.value.opt(), ka, kb);
            assert(own_entries_of(value.opt()) =~= own_entries_of(
                combined_value(*c, a.value.opt(), b.value.opt()),
            ));
        }
    } else if n == ap.len() {
        // `a` names an ancestor of `b`: keep `a`'s value, join `a`'s children
        // against `b` shortened by the shared prefix.
        value = a.value.duplicate();
        let bshort = b.detached_shortened(n);
        let mut bs: Vec<TreeNode> = Vec::new();
        bs.push(bshort);
        proof {
            assert(a.prefix@.take(n as int) =~= a.prefix@);
            assert(a.prefix@ =~= p);
            assert(b.prefix@ =~= p + b.prefix@.skip(n as int));
            assert(!node_is_empty(*b));
            assert(kids_wf(bs@, 0)) by {
                assert(bs@[0] == bshort);
                assert(kids_wf(bs@, 1));
            }
            assert(kids_entries(bs@, 1) =~= Seq::<(Seq<u8>, Seq<u8>)>::empty());
            assert(kids_entries(bs@, 0) =~= node_entries(bshort));
            assert(kids_size(bs@, 1) == 0);
            assert(kids_size(bs@, 0) == node_size(bshort));
        }
        new_kids = outer_combine_children(&a.children, &TreeChildren::from_vec(bs), c);
        proof {
            let ebs = node_entries(bshort);
            lemma_prepend_compose(p, b.prefix@.skip(n as int), node_under(*b));
            assert(eb =~= prepend_keys(p, ebs));
            lemma_merged_prepend(*c, p, node_under(*a), ebs);
            lemma_node_entries_wf(bshort);
            assert(node_under(*a) =~= own_entries_of(a.value.opt()) + ka);
            assert forall|t: int| 0 <= t < ebs.len() implies #[trigger] ebs[t].0.len() > 0 by {
                assert(ebs[t].0.len() >= bshort.prefix@.len());
            }
            assert(ebs =~= own_entries_of(None) + ebs);
            lemma_merged_under(*c, a.value.opt(), None, ka, ebs);
            assert(kids_entries(bs@, 0) =~= ebs);
            assert(own_entries_of(value.opt()) =~= own_entries_of(
                combined_value(*c, a.value.opt(), None),
            ));
        }
    } else if n == bp.len() {
        // `b` names an ancestor of `a`: the symmetric case.
        value = b.value.duplicate();
        let ashort = a.detached_shortened(n);
        let mut asv: Vec<TreeNode> = Vec::new();
        asv.push(ashort);
        proof {
            assert(b.prefix@.take(n as int) =~= b.prefix@);
            assert(b.prefix@ =~= p);
            assert(a.prefix@ =~= p + a.prefix@.skip(n as int));
            assert(!node_is_empty(*a));
            assert(kids_wf(asv@, 0)) by {
                assert(asv@[0] == ashort);
                assert(kids_wf(asv@, 1));
            }
            assert(kids_entries(asv@, 1) =~= Seq::<(Seq<u8>, Seq<u8>)>::empty());
            assert(kids_entries(asv@, 0) =~= node_entries(ashort));
            assert(kids_size(asv@, 1) == 0);
            assert(kids_size(asv@, 0) == node_size(ashort));
        }
        new_kids = outer_combine_children(&TreeChildren::from_vec(asv), &b.children, c);
        proof {
            let eas = node_entries(ashort);
            lemma_prepend_compose(p, a.prefix@.skip(n as int), node_under(*a));
            assert(ea =~= prepend_keys(p, eas));
            lemma_merged_prepend(*c, p, eas, node_under(*b));
            lemma_node_entries_wf(ashort);
            assert(node_under(*b) =~= own_entries_of(b.value.opt()) + kb);
            assert forall|t: int| 0 <= t < eas.len() implies #[trigger] eas[t].0.len() > 0 by {
                assert(eas[t].0.len() >= ashort.prefix@.len());
            }
            assert(eas =~= own_entries_of(None) + eas);
            lemma_merged_under(*c, None, b.value.opt(), eas, kb);
            assert(kids_entries(asv@, 0) =~= eas);
            assert(own_entries_of(value.opt()) =~= own_entries_of(
                combined_value(*c, None, b.value.opt()),
            ));
        }
    } else {
        // Disjoint below the shared prefix: both become children of a fresh
        // node, ordered by their next byte.
        value = TreeValue::none();
        let ashort = a.detached_shortened(n);
        let bshort = b.detached_shortened(n);
        let ghost eas = node_entries(ashort);
        let ghost ebs = node_entries(bshort);
        proof {
            assert(a.prefix@ =~= p + a.prefix@.skip(n as int));
            assert(b.prefix@ =~= a.prefix@.take(n as int) + b.prefix@.skip(n as int));
            assert(b.prefix@.take(n as int) =~= p);
            assert(!node_is_empty(*a));
            assert(!node_is_empty(*b));
            lemma_node_entries_wf(ashort);
            lemma_node_entries_wf(bshort);
            lemma_prepend_compose(p, a.prefix@.skip(n as int), node_under(*a));
            lemma_prepend_compose(p, b.prefix@.skip(n as int), node_under(*b));
            assert(ea =~= prepend_keys(p, eas));
            assert(eb =~= prepend_keys(p, ebs));
            lemma_merged_prepend(*c, p, eas, ebs);
            assert(ashort.prefix@[0] == a.prefix@[n as int]);
            assert(bshort.prefix@[0] == b.prefix@[n as int]);
        }
        let mut ks: Vec<TreeNode> = Vec::new();
        if ap[n] < bp[n] {
            ks.push(ashort);
            ks.push(bshort);
            proof {
                assert forall|k: int, l: int|
                    0 <= k < eas.len() && 0 <= l < ebs.len() implies lex_lt(
                    #[trigger] eas[k].0,
                    #[trigger] ebs[l].0,
                ) by {
                    assert(eas[k].0[0] == a.prefix@[n as int]);
                    assert(ebs[l].0[0] == b.prefix@[n as int]);
                    lemma_lex_first_byte(eas[k].0, ebs[l].0);
                }
                lemma_merged_lt_left(*c, eas, Seq::empty(), ebs);
                assert(eas + Seq::<(Seq<u8>, Seq<u8>)>::empty() =~= eas);
                lemma_merged_empty(*c, ebs);
                assert(merged(*c, eas, ebs) =~= eas + ebs);
                assert(ks@ =~= seq![ashort, bshort]);
                assert(kids_entries(ks@, 2) =~= Seq::<(Seq<u8>, Seq<u8>)>::empty());
                assert(kids_entries(ks@, 1) =~= ebs);
                assert(kids_entries(ks@, 0) =~= eas + ebs);
                assert(kids_wf(ks@, 0)) by {
                    assert(ks@[0] == ashort);
                    assert(ks@[1] == bshort);
                    assert(kids_wf(ks@, 2));
                    assert(kids_wf(ks@, 1));
                }
            }
        } else {
            ks.push(bshort);
            ks.push(ashort);
            proof {
                assert forall|k: int, l: int|
                    0 <= k < ebs.len() && 0 <= l < eas.len() implies lex_lt(
                    #[trigger] ebs[k].0,
                    #[trigger] eas[l].0,
                ) by {
                    assert(eas[l].0[0] == a.prefix@[n as int]);
                    assert(ebs[k].0[0] == b.prefix@[n as int]);
                    lemma_lex_first_byte(ebs[k].0, eas[l].0);
                }
                lemma_merged_lt_right(*c, eas, ebs, Seq::empty());
                assert(ebs + Seq::<(Seq<u8>, Seq<u8>)>::empty() =~= ebs);
                lemma_merged_empty(*c, eas);
                assert(merged(*c, eas, ebs) =~= ebs + eas);
                assert(ks@ =~= seq![bshort, ashort]);
                assert(kids_entries(ks@, 2) =~= Seq::<(Seq<u8>, Seq<u8>)>::empty());
                assert(kids_entries(ks@, 1) =~= eas);
                assert(kids_entries(ks@, 0) =~= ebs + eas);
                assert(kids_wf(ks@, 0)) by {
                    assert(ks@[0] == bshort);
                    assert(ks@[1] == ashort);
                    assert(kids_wf(ks@, 2));
                    assert(kids_wf(ks@, 1));
                }
            }
        }
        new_kids = ks;
        proof {
            assert(merged(*c, eas, ebs) =~= own_entries_of(value.opt()) + kids_entries(
                new_kids@,
                0,
            ));
        }
    }
    // Assemble, normalizing a node that came out empty to the canonical
    // empty-leaf form.
    if value.is_none() && new_kids.len() == 0 {
        proof {
            assert(merged(*c, ea, eb) =~= Seq::<(Seq<u8>, Seq<u8>)>::empty());
        }
        TreeNode::empty()
    } else {
        let r = TreeNode {
            prefix: TreePrefix::from_vec(prefix_bytes),
            value,
            children: TreeChildren::from_vec(new_kids),
        };
        proof {
            assert(node_under(r) =~= own_entries_of(value.opt()) + kids_entries(new_kids@, 0));
            assert(node_entries(r) =~= prepend_keys(p, node_under(r)));
            assert(node_entries(r) =~= merged(*c, ea, eb));
        }
        r
    }
}

/// The entries a value of its own contributes, keyed by the empty string.
pub open spec fn own_entries_of(v: Option<Seq<u8>>) -> Seq<(Seq<u8>, Seq<u8>)> {
    match v {
        Some(v) => seq![(Seq::<u8>::empty(), v)],
        None => Seq::empty(),
    }
}

} // verus!
