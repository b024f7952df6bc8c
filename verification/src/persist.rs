//! Moving node data between memory and the backing store. `attach` promotes
//! a resident tree's buffers into the store, leaving identifiers behind;
//! `detach` resolves identifiers back into resident buffers. Their contracts
//! pin the byte strings of every prefix and value slot exactly, through
//! [`resolves`]; the bytes behind a stored child sequence are constrained at
//! the parsing boundary (see the `encoding` module), whose round trip is
//! proved there.

use vstd::prelude::*;

use crate::encoding::{
    enc_nodes, lemma_nodes_serializable_from_forall, node_serializable, nodes_from_bytes,
    nodes_serializable, slice_to_bytes, u64_of_be, wire_node_at, wire_node_len, wire_nodes_ok,
    wire_slot_at, wire_slot_len, wire_slot_payload,
};
use crate::flexref::{FlexData, FlexRef};
use crate::node::{
    kids, kids_resident, node_entries, node_is_empty, node_resident, Kids, TreeChildren, TreeNode,
    TreePrefix, TreeValue,
};
use crate::store::{BlobStore, StoreError};

verus! {

/// One map extends another: every identifier the first holds, the second
/// holds with the same bytes.
pub open spec fn contents_extends(c2: Map<u64, Seq<u8>>, c1: Map<u64, Seq<u8>>) -> bool {
    forall|id: u64|
        #[trigger] c1.contains_key(id) ==> c2.contains_key(id) && c2[id] == c1[id]
}

/// A byte-string slot denotes the given bytes under the given store
/// contents.
pub open spec fn slot_resolves(r: FlexRef, contents: Map<u64, Seq<u8>>, bytes: Seq<u8>) -> bool {
    match r.data {
        FlexData::Absent => false,
        FlexData::Resident(v) => v@ == bytes,
        FlexData::Stored(id) => contents.contains_key(id) && contents[id] == bytes,
    }
}

/// A present wire slot at the head of `s` denotes the given bytes.
pub open spec fn pslot_resolves(s: Seq<u8>, contents: Map<u64, Seq<u8>>, bytes: Seq<u8>) -> bool
    recommends
        wire_slot_at(s),
{
    if s[0] / 64 == crate::encoding::TAG_INLINE {
        wire_slot_payload(s) == bytes
    } else if s[0] / 64 == crate::encoding::TAG_STORED {
        let id = u64_of_be(wire_slot_payload(s));
        contents.contains_key(id) && contents[id] == bytes
    } else {
        false
    }
}

/// A wire value slot at the head of `s` denotes the given resident value.
pub open spec fn vslot_resolves(s: Seq<u8>, contents: Map<u64, Seq<u8>>, v: TreeValue) -> bool
    recommends
        wire_slot_at(s),
{
    if s[0] == 0 {
        v.opt() is None && v.r.data is Absent
    } else if s[0] / 64 == crate::encoding::TAG_INLINE {
        v.opt() == Some(wire_slot_payload(s))
    } else if s[0] / 64 == crate::encoding::TAG_STORED {
        let id = u64_of_be(wire_slot_payload(s));
        contents.contains_key(id) && v.opt() == Some(contents[id])
    } else {
        false
    }
}

/// A wire children slot at the head of `s` denotes the given resident node's
/// children: absent for no children, or a held identifier whose bytes encode
/// a sequence resolving to them, child by child.
pub open spec fn cslot_resolves(s: Seq<u8>, contents: Map<u64, Seq<u8>>, tn: TreeNode) -> bool
    recommends
        wire_slot_at(s),
    decreases tn, 0int, 1int,
{
    if s[0] == 0 {
        match tn.children.kids {
            Kids::Owned(tv) => tv@.len() == 0,
            Kids::Empty => true,
            Kids::Stored(_) => false,
        }
    } else if s[0] / 64 == crate::encoding::TAG_STORED {
        let id = u64_of_be(wire_slot_payload(s));
        contents.contains_key(id) && (match tn.children.kids {
            Kids::Owned(tv) => bytes_resolve_kids(contents[id], contents, tv@, 0),
            Kids::Empty => contents[id].len() == 0,
            Kids::Stored(_) => false,
        })
    } else {
        false
    }
}

/// The byte string is a wire-form sequence of node triples that denotes,
/// child by child from index `i` on, the given resident nodes.
pub open spec fn bytes_resolve_kids(
    bytes: Seq<u8>,
    contents: Map<u64, Seq<u8>>,
    t: Seq<TreeNode>,
    i: int,
) -> bool
    decreases t, t.len() - i, 2int,
{
    if !(0 <= i < t.len()) {
        bytes.len() == 0
    } else {
        let s2 = bytes.skip(wire_slot_len(bytes));
        let s3 = s2.skip(wire_slot_len(s2));
        &&& wire_node_at(bytes)
        &&& t[i].prefix.is_resident()
        &&& t[i].value.is_resident()
        &&& t[i].children.is_resident()
        &&& pslot_resolves(bytes, contents, t[i].prefix@)
        &&& vslot_resolves(s2, contents, t[i].value)
        &&& cslot_resolves(s3, contents, t[i])
        &&& bytes_resolve_kids(bytes.skip(wire_node_len(bytes)), contents, t, i + 1)
    }
}

/// A node, possibly holding store identifiers, denotes the fully resident
/// `target` under the given store contents: its prefix and value slots carry
/// or reference exactly the target's bytes; resident children correspond
/// child by child; a stored child sequence's bytes encode, through the
/// store, exactly the target's children.
pub open spec fn resolves(n: TreeNode, contents: Map<u64, Seq<u8>>, target: TreeNode) -> bool
    decreases target, 0int, 3int,
{
    &&& target.prefix.is_resident()
    &&& target.value.is_resident()
    &&& target.children.is_resident()
    &&& slot_resolves(n.prefix.r, contents, target.prefix@)
    &&& match n.value.r.data {
        FlexData::Absent => target.value.opt() is None && target.value.r.data is Absent,
        FlexData::Resident(v) => target.value.opt() == Some(v@),
        FlexData::Stored(id) => contents.contains_key(id) && target.value.opt() == Some(
            contents[id],
        ),
    }
    &&& match n.children.kids {
        Kids::Empty => kids(target).len() == 0,
        Kids::Owned(v) => match target.children.kids {
            Kids::Owned(tv) => kids_resolve(v@, contents, tv@, 0),
            _ => v@.len() == 0,
        },
        Kids::Stored(id) => contents.contains_key(id) && (match target.children.kids {
            Kids::Owned(tv) => bytes_resolve_kids(contents[id], contents, tv@, 0),
            Kids::Empty => contents[id].len() == 0,
            Kids::Stored(_) => false,
        }),
    }
}

/// The sequences resolve elementwise from index `i` on.
pub open spec fn kids_resolve(
    s: Seq<TreeNode>,
    contents: Map<u64, Seq<u8>>,
    t: Seq<TreeNode>,
    i: int,
) -> bool
    decreases t, t.len() - i, 0int,
{
    &&& s.len() == t.len()
    &&& if 0 <= i < t.len() {
        resolves(s[i], contents, t[i]) && kids_resolve(s, contents, t, i + 1)
    } else {
        true
    }
}

/// Byte-level resolution is stable under growing the store.
pub proof fn lemma_bytes_resolve_mono(
    bytes: Seq<u8>,
    c1: Map<u64, Seq<u8>>,
    c2: Map<u64, Seq<u8>>,
    t: Seq<TreeNode>,
    i: int,
)
    requires
        bytes_resolve_kids(bytes, c1, t, i),
        contents_extends(c2, c1),
    ensures
        bytes_resolve_kids(bytes, c2, t, i),
    decreases t, t.len() - i, 2int,
{
    if 0 <= i < t.len() {
        let s2 = bytes.skip(wire_slot_len(bytes));
        let s3 = s2.skip(wire_slot_len(s2));
        assert(wire_node_at(bytes));
        assert(pslot_resolves(bytes, c1, t[i].prefix@));
        assert(vslot_resolves(s2, c1, t[i].value));
        assert(cslot_resolves(s3, c1, t[i]));
        assert(pslot_resolves(bytes, c2, t[i].prefix@)) by {
            if bytes[0] / 64 == crate::encoding::TAG_STORED {
                let id = u64_of_be(wire_slot_payload(bytes));
                assert(c1.contains_key(id));
            }
        }
        assert(vslot_resolves(s2, c2, t[i].value)) by {
            if s2[0] != 0 && s2[0] / 64 == crate::encoding::TAG_STORED {
                let id = u64_of_be(wire_slot_payload(s2));
                assert(c1.contains_key(id));
            }
        }
        assert(cslot_resolves(s3, c2, t[i])) by {
            if s3[0] != 0 {
                assert(s3[0] / 64 == crate::encoding::TAG_STORED);
                let id = u64_of_be(wire_slot_payload(s3));
                assert(c1.contains_key(id));
                assert(c2.contains_key(id) && c2[id] == c1[id]);
                match t[i].children.kids {
                    Kids::Owned(tv) => {
                        lemma_bytes_resolve_mono(c1[id], c1, c2, tv@, 0);
                    },
                    _ => {},
                }
            }
        }
        lemma_bytes_resolve_mono(bytes.skip(wire_node_len(bytes)), c1, c2, t, i + 1);
    }
}

/// Resolution is stable under growing the store.
pub proof fn lemma_resolves_mono(
    n: TreeNode,
    c1: Map<u64, Seq<u8>>,
    c2: Map<u64, Seq<u8>>,
    target: TreeNode,
)
    requires
        resolves(n, c1, target),
        contents_extends(c2, c1),
    ensures
        resolves(n, c2, target),
    decreases target, 0int, 3int,
{
    assert(slot_resolves(n.prefix.r, c2, target.prefix@));
    match n.value.r.data {
        FlexData::Stored(idv) => {
            assert(c1.contains_key(idv));
            assert(c2.contains_key(idv) && c2[idv] == c1[idv]);
        },
        _ => {},
    }
    match n.children.kids {
        Kids::Owned(v) => {
            match target.children.kids {
                Kids::Owned(tv) => {
                    lemma_kids_resolve_mono(v@, c1, c2, tv@, 0);
                },
                _ => {},
            }
        },
        Kids::Stored(idc) => {
            assert(c1.contains_key(idc));
            assert(c2.contains_key(idc) && c2[idc] == c1[idc]);
            match target.children.kids {
                Kids::Owned(tv) => {
                    lemma_bytes_resolve_mono(c1[idc], c1, c2, tv@, 0);
                },
                _ => {},
            }
        },
        _ => {},
    }
    assert(resolves(n, c2, target));
}

/// Elementwise resolution is stable under growing the store.
pub proof fn lemma_kids_resolve_mono(
    s: Seq<TreeNode>,
    c1: Map<u64, Seq<u8>>,
    c2: Map<u64, Seq<u8>>,
    t: Seq<TreeNode>,
    i: int,
)
    requires
        kids_resolve(s, c1, t, i),
        contents_extends(c2, c1),
        0 <= i,
    ensures
        kids_resolve(s, c2, t, i),
    decreases t, t.len() - i, 0int,
{
    if i < t.len() {
        lemma_resolves_mono(s[i], c1, c2, t[i]);
        lemma_kids_resolve_mono(s, c1, c2, t, i + 1);
    }
}

/// A fully resident node resolves to itself, under any store contents.
pub proof fn lemma_resolves_self(n: TreeNode, contents: Map<u64, Seq<u8>>)
    requires
        node_resident(n),
    ensures
        resolves(n, contents, n),
    decreases n, 0int, 0int,
{
    match n.children.kids {
        Kids::Owned(v) => {
            lemma_kids_resolves_self(v@, contents, 0);
        },
        _ => {},
    }
}

/// Each child of a resident sequence resolves to itself.
proof fn lemma_kids_resolves_self(s: Seq<TreeNode>, contents: Map<u64, Seq<u8>>, i: int)
    requires
        kids_resident(s, i),
        0 <= i,
    ensures
        kids_resolve(s, contents, s, i),
    decreases s, s.len() - i, 1int,
{
    if i < s.len() {
        lemma_resolves_self(s[i], contents);
        lemma_kids_resolves_self(s, contents, i + 1);
    }
}

/// Mirrored sources resolve to the same targets.
pub proof fn lemma_resolves_mirror_source(
    a: TreeNode,
    b: TreeNode,
    contents: Map<u64, Seq<u8>>,
    t: TreeNode,
)
    requires
        crate::node::node_mirror(a, b),
        resolves(a, contents, t),
    ensures
        resolves(b, contents, t),
    decreases t, 0int, 3int,
{
    match (a.children.kids, b.children.kids) {
        (Kids::Owned(av), Kids::Owned(bv)) => {
            match t.children.kids {
                Kids::Owned(tv) => {
                    lemma_kids_resolve_mirror_source(av@, bv@, contents, tv@, 0);
                },
                _ => {},
            }
        },
        _ => {},
    }
}

/// The elementwise form of [`lemma_resolves_mirror_source`].
proof fn lemma_kids_resolve_mirror_source(
    a: Seq<TreeNode>,
    b: Seq<TreeNode>,
    contents: Map<u64, Seq<u8>>,
    t: Seq<TreeNode>,
    i: int,
)
    requires
        crate::node::kids_mirror(a, b, 0),
        kids_resolve(a, contents, t, i),
        0 <= i,
    ensures
        kids_resolve(b, contents, t, i),
    decreases t, t.len() - i, 0int,
{
    if i < t.len() {
        crate::node::lemma_kids_mirror_index(a, b, 0, i);
        lemma_resolves_mirror_source(a[i], b[i], contents, t[i]);
        lemma_kids_resolve_mirror_source(a, b, contents, t, i + 1);
    }
}

/// Two resolutions of the same node through the same store agree: they have
/// the same prefix, value, children views and entries, and are equally
/// well-formed. Resolution determines the logical content.
pub proof fn lemma_resolution_agrees(
    n: TreeNode,
    contents: Map<u64, Seq<u8>>,
    t1: TreeNode,
    t2: TreeNode,
)
    requires
        resolves(n, contents, t1),
        resolves(n, contents, t2),
    ensures
        t1.prefix@ == t2.prefix@,
        t1.value.opt() == t2.value.opt(),
        kids(t1).len() == kids(t2).len(),
        node_is_empty(t1) == node_is_empty(t2),
        node_entries(t1) == node_entries(t2),
        crate::node::node_wf(t1) == crate::node::node_wf(t2),
    decreases t1, 0int, 3int,
{
    match n.children.kids {
        Kids::Owned(v) => {
            match (t1.children.kids, t2.children.kids) {
                (Kids::Owned(tv1), Kids::Owned(tv2)) => {
                    lemma_kids_resolution_agrees(v@, contents, tv1@, tv2@, 0);
                    lemma_agree_assemble(t1, t2);
                },
                _ => {
                    assert(kids(t1).len() == 0 && kids(t2).len() == 0);
                    lemma_agree_assemble(t1, t2);
                },
            }
        },
        Kids::Empty => {
            lemma_agree_assemble(t1, t2);
        },
        Kids::Stored(id) => {
            match (t1.children.kids, t2.children.kids) {
                (Kids::Owned(tv1), Kids::Owned(tv2)) => {
                    lemma_brk_pair(contents[id], contents, tv1@, tv2@, 0);
                    lemma_agree_assemble(t1, t2);
                },
                (Kids::Owned(tv1), Kids::Empty) => {
                    assert(contents[id].len() == 0);
                    assert(tv1@.len() == 0) by {
                        if tv1@.len() > 0 {
                            assert(wire_node_at(contents[id]));
                        }
                    }
                    lemma_agree_assemble(t1, t2);
                },
                (Kids::Empty, Kids::Owned(tv2)) => {
                    assert(contents[id].len() == 0);
                    assert(tv2@.len() == 0) by {
                        if tv2@.len() > 0 {
                            assert(wire_node_at(contents[id]));
                        }
                    }
                    lemma_agree_assemble(t1, t2);
                },
                (Kids::Empty, Kids::Empty) => {
                    lemma_agree_assemble(t1, t2);
                },
                _ => {},
            }
        },
    }
}

/// Assembling the agreement conclusions once the children agree pointwise.
proof fn lemma_agree_assemble(t1: TreeNode, t2: TreeNode)
    requires
        t1.prefix.is_resident() && t2.prefix.is_resident(),
        t1.value.is_resident() && t2.value.is_resident(),
        t1.children.is_resident() && t2.children.is_resident(),
        t1.prefix@ == t2.prefix@,
        t1.value.opt() == t2.value.opt(),
        kids(t1).len() == kids(t2).len(),
        crate::node::kids_entries(kids(t1), 0) == crate::node::kids_entries(kids(t2), 0),
        crate::node::kids_wf(kids(t1), 0) == crate::node::kids_wf(kids(t2), 0),
        forall|j: int|
            0 <= j < kids(t1).len() ==> (#[trigger] kids(t1)[j].prefix@) == kids(t2)[j].prefix@,
    ensures
        node_is_empty(t1) == node_is_empty(t2),
        node_entries(t1) == node_entries(t2),
        crate::node::node_wf(t1) == crate::node::node_wf(t2),
{
    assert(crate::node::own_entries(t1) == crate::node::own_entries(t2));
    match (t1.children.kids, t2.children.kids) {
        (Kids::Owned(v1), Kids::Owned(v2)) => {
            assert(kids(t1) == v1@ && kids(t2) == v2@);
            assert(crate::node::node_under(t1) =~= crate::node::node_under(t2));
            assert forall|a: int| 0 <= a < v1@.len() implies (#[trigger] v1@[a].prefix@)
                == v2@[a].prefix@ by {
                assert(kids(t1)[a].prefix@ == kids(t2)[a].prefix@);
            }
            if crate::node::kids_sorted(v1@) {
                assert forall|a: int, b: int| 0 <= a < b < v2@.len() implies (
                #[trigger] v2@[a].prefix@)[0] < (#[trigger] v2@[b].prefix@)[0] by {
                    assert(v1@[a].prefix@ == v2@[a].prefix@);
                    assert(v1@[b].prefix@ == v2@[b].prefix@);
                    assert(v1@[a].prefix@[0] < v1@[b].prefix@[0]);
                }
                assert(crate::node::kids_sorted(v2@));
            }
            if crate::node::kids_sorted(v2@) {
                assert forall|a: int, b: int| 0 <= a < b < v1@.len() implies (
                #[trigger] v1@[a].prefix@)[0] < (#[trigger] v1@[b].prefix@)[0] by {
                    assert(v1@[a].prefix@ == v2@[a].prefix@);
                    assert(v1@[b].prefix@ == v2@[b].prefix@);
                    assert(v2@[a].prefix@[0] < v2@[b].prefix@[0]);
                }
                assert(crate::node::kids_sorted(v1@));
            }
            assert(crate::node::kids_sorted(v1@) == crate::node::kids_sorted(v2@));
            assert(crate::node::node_wf(t1) == crate::node::node_wf(t2));
        },
        (Kids::Owned(v1), Kids::Empty) => {
            assert(v1@.len() == 0);
            assert(crate::node::kids_entries(v1@, 0) =~= Seq::<(Seq<u8>, Seq<u8>)>::empty());
            assert(crate::node::node_under(t1) =~= crate::node::node_under(t2));
            assert(crate::node::kids_wf(v1@, 0));
            assert(crate::node::kids_sorted(v1@));
            assert(crate::node::node_wf(t1) == crate::node::node_wf(t2));
        },
        (Kids::Empty, Kids::Owned(v2)) => {
            assert(v2@.len() == 0);
            assert(crate::node::kids_entries(v2@, 0) =~= Seq::<(Seq<u8>, Seq<u8>)>::empty());
            assert(crate::node::node_under(t1) =~= crate::node::node_under(t2));
            assert(crate::node::kids_wf(v2@, 0));
            assert(crate::node::kids_sorted(v2@));
            assert(crate::node::node_wf(t1) == crate::node::node_wf(t2));
        },
        (Kids::Empty, Kids::Empty) => {
            assert(crate::node::node_under(t1) =~= crate::node::node_under(t2));
            assert(crate::node::node_wf(t1) == crate::node::node_wf(t2));
        },
        _ => {},
    }
    assert(node_entries(t1) =~= node_entries(t2));
}

/// The elementwise form of [`lemma_resolution_agrees`], over a shared source
/// sequence.
proof fn lemma_kids_resolution_agrees(
    s: Seq<TreeNode>,
    contents: Map<u64, Seq<u8>>,
    t1: Seq<TreeNode>,
    t2: Seq<TreeNode>,
    i: int,
)
    requires
        kids_resolve(s, contents, t1, i),
        kids_resolve(s, contents, t2, i),
        0 <= i,
    ensures
        t1.len() == t2.len(),
        crate::node::kids_entries(t1, i) == crate::node::kids_entries(t2, i),
        crate::node::kids_wf(t1, i) == crate::node::kids_wf(t2, i),
        forall|j: int|
            i <= j < t1.len() ==> (#[trigger] t1[j].prefix@) == t2[j].prefix@ && t1[j].value.opt()
                == t2[j].value.opt() && node_is_empty(t1[j]) == node_is_empty(t2[j]),
    decreases t1, t1.len() - i, 0int,
{
    if i < t1.len() {
        lemma_resolution_agrees(s[i], contents, t1[i], t2[i]);
        lemma_kids_resolution_agrees(s, contents, t1, t2, i + 1);
        assert(crate::node::kids_entries(t1, i) =~= crate::node::kids_entries(t2, i));
    } else {
        assert(crate::node::kids_entries(t1, i) =~= crate::node::kids_entries(t2, i));
    }
}

/// Two target sequences that the same bytes resolve to agree pointwise.
proof fn lemma_brk_pair(
    bytes: Seq<u8>,
    contents: Map<u64, Seq<u8>>,
    t1: Seq<TreeNode>,
    t2: Seq<TreeNode>,
    i: int,
)
    requires
        bytes_resolve_kids(bytes, contents, t1, i),
        bytes_resolve_kids(bytes, contents, t2, i),
        0 <= i <= t1.len(),
        i <= t2.len(),
    ensures
        t1.len() == t2.len(),
        crate::node::kids_entries(t1, i) == crate::node::kids_entries(t2, i),
        crate::node::kids_wf(t1, i) == crate::node::kids_wf(t2, i),
        forall|j: int|
            i <= j < t1.len() ==> (#[trigger] t1[j].prefix@) == t2[j].prefix@ && t1[j].value.opt()
                == t2[j].value.opt() && node_is_empty(t1[j]) == node_is_empty(t2[j]),
    decreases t1, t1.len() - i, 3int,
{
    if i >= t1.len() && i >= t2.len() {
        assert(crate::node::kids_entries(t1, i) =~= crate::node::kids_entries(t2, i));
    } else if i >= t1.len() {
        // The bytes are exhausted on one side but a node is demanded on the
        // other: impossible.
        assert(bytes.len() == 0);
        assert(wire_node_at(bytes));
        assert(false);
    } else if i >= t2.len() {
        assert(bytes.len() == 0);
        assert(wire_node_at(bytes));
        assert(false);
    } else {
        let s2 = bytes.skip(wire_slot_len(bytes));
        let s3 = s2.skip(wire_slot_len(s2));
        // The slots pin both targets' prefix and value to the same bytes.
        assert(t1[i].prefix@ == t2[i].prefix@) by {
            assert(pslot_resolves(bytes, contents, t1[i].prefix@));
            assert(pslot_resolves(bytes, contents, t2[i].prefix@));
        }
        assert(t1[i].value.opt() == t2[i].value.opt()) by {
            assert(vslot_resolves(s2, contents, t1[i].value));
            assert(vslot_resolves(s2, contents, t2[i].value));
        }
        lemma_cslot_pair(s3, contents, t1[i], t2[i]);
        lemma_brk_pair(bytes.skip(wire_node_len(bytes)), contents, t1, t2, i + 1);
        assert(node_is_empty(t1[i]) == node_is_empty(t2[i]));
        assert(crate::node::kids_entries(t1, i) =~= crate::node::kids_entries(t2, i)) by {
            crate::node::lemma_kids_entries_unfold(t1, i);
            crate::node::lemma_kids_entries_unfold(t2, i);
        }
        assert(crate::node::kids_wf(t1, i) == crate::node::kids_wf(t2, i));
        assert forall|j: int| i <= j < t1.len() implies (#[trigger] t1[j].prefix@)
            == t2[j].prefix@ && t1[j].value.opt() == t2[j].value.opt() && node_is_empty(t1[j])
            == node_is_empty(t2[j]) by {}
    }
}

/// Two child nodes that the same children slot resolves agree below it.
proof fn lemma_cslot_pair(
    s: Seq<u8>,
    contents: Map<u64, Seq<u8>>,
    t1: TreeNode,
    t2: TreeNode,
)
    requires
        cslot_resolves(s, contents, t1),
        cslot_resolves(s, contents, t2),
        t1.prefix.is_resident() && t2.prefix.is_resident(),
        t1.value.is_resident() && t2.value.is_resident(),
        t1.prefix@ == t2.prefix@,
        t1.value.opt() == t2.value.opt(),
    ensures
        kids(t1).len() == kids(t2).len(),
        node_is_empty(t1) == node_is_empty(t2),
        node_entries(t1) == node_entries(t2),
        crate::node::node_wf(t1) == crate::node::node_wf(t2),
    decreases t1, 0int, 2int,
{
    if s[0] == 0 {
        assert(kids(t1).len() == 0 && kids(t2).len() == 0);
        lemma_agree_assemble(t1, t2);
    } else {
        let id = u64_of_be(wire_slot_payload(s));
        match (t1.children.kids, t2.children.kids) {
            (Kids::Owned(tv1), Kids::Owned(tv2)) => {
                lemma_brk_pair(contents[id], contents, tv1@, tv2@, 0);
                lemma_agree_assemble(t1, t2);
            },
            (Kids::Owned(tv1), Kids::Empty) => {
                assert(contents[id].len() == 0);
                assert(tv1@.len() == 0) by {
                    if tv1@.len() > 0 {
                        assert(wire_node_at(contents[id]));
                    }
                }
                lemma_agree_assemble(t1, t2);
            },
            (Kids::Empty, Kids::Owned(tv2)) => {
                assert(contents[id].len() == 0);
                assert(tv2@.len() == 0) by {
                    if tv2@.len() > 0 {
                        assert(wire_node_at(contents[id]));
                    }
                }
                lemma_agree_assemble(t1, t2);
            },
            (Kids::Empty, Kids::Empty) => {
                lemma_agree_assemble(t1, t2);
            },
            _ => {},
        }
    }
}

/// Elementwise resolution follows from the elementwise facts.
pub proof fn lemma_kids_resolve_from_forall(
    s: Seq<TreeNode>,
    contents: Map<u64, Seq<u8>>,
    t: Seq<TreeNode>,
    i: int,
)
    requires
        0 <= i,
        s.len() == t.len(),
        forall|j: int| i <= j < t.len() ==> resolves(#[trigger] s[j], contents, t[j]),
    ensures
        kids_resolve(s, contents, t, i),
    decreases t.len() - i,
{
    if i < t.len() {
        lemma_kids_resolve_from_forall(s, contents, t, i + 1);
    }
}

/// Resolution of a child sequence, read back out index by index.
pub proof fn lemma_kids_resolve_to_forall(
    s: Seq<TreeNode>,
    contents: Map<u64, Seq<u8>>,
    t: Seq<TreeNode>,
    i: int,
)
    requires
        0 <= i,
        kids_resolve(s, contents, t, i),
    ensures
        forall|j: int| i <= j < t.len() ==> resolves(#[trigger] s[j], contents, t[j]),
    decreases t.len() - i,
{
    if i < t.len() {
        lemma_kids_resolve_to_forall(s, contents, t, i + 1);
    }
}

/// Serializing a sequence that resolves to the target children yields bytes
/// that byte-resolve to them: the bridge between the node-level and the
/// byte-level views of a stored child sequence.
#[verifier::spinoff_prover]
#[verifier::rlimit(100)]
pub proof fn lemma_enc_resolves_kids(
    s: Seq<TreeNode>,
    contents: Map<u64, Seq<u8>>,
    t: Seq<TreeNode>,
    i: int,
)
    requires
        0 <= i,
        nodes_serializable(s, i),
        kids_resolve(s, contents, t, i),
    ensures
        bytes_resolve_kids(enc_nodes(s, i), contents, t, i),
    decreases t.len() - i,
{
    if 0 <= i < t.len() {
        assert(resolves(s[i], contents, t[i]));
        lemma_enc_resolves_kids(s, contents, t, i + 1);
        let rest = enc_nodes(s, i + 1);
        let eb = enc_nodes(s, i);
        let ep = crate::encoding::enc_slot(s[i].prefix.r);
        let ev = crate::encoding::enc_slot(s[i].value.r);
        let ec = crate::encoding::enc_children(s[i].children);
        crate::encoding::lemma_enc_node_shape(s[i], rest);
        assert(eb =~= ep + (ev + (ec + rest)));
        crate::encoding::lemma_enc_slot_shape(s[i].prefix.r, ev + (ec + rest));
        crate::encoding::lemma_enc_slot_shape(s[i].value.r, ec + rest);
        crate::encoding::lemma_enc_children_shape(s[i].children, rest);
        let s2 = eb.skip(wire_slot_len(eb));
        let s3 = s2.skip(wire_slot_len(s2));
        assert(s2 =~= ev + (ec + rest));
        assert(s3 =~= ec + rest);
        // The prefix slot.
        assert(pslot_resolves(eb, contents, t[i].prefix@)) by {
            match s[i].prefix.r.data {
                FlexData::Resident(v) => {},
                FlexData::Stored(id) => {
                    crate::encoding::lemma_u64_be_round_trip(id);
                },
                FlexData::Absent => {},
            }
        }
        // The value slot.
        assert(vslot_resolves(s2, contents, t[i].value)) by {
            match s[i].value.r.data {
                FlexData::Resident(v) => {
                    assert(s2[0] == crate::encoding::header_byte(
                        crate::encoding::TAG_INLINE,
                        v@.len(),
                    ));
                    assert(s2[0] != 0 && s2[0] / 64 == crate::encoding::TAG_INLINE);
                },
                FlexData::Stored(id) => {
                    crate::encoding::lemma_u64_be_round_trip(id);
                },
                FlexData::Absent => {},
            }
        }
        // The children slot.
        assert(cslot_resolves(s3, contents, t[i])) by {
            match s[i].children.kids {
                Kids::Empty => {},
                Kids::Stored(id) => {
                    crate::encoding::lemma_u64_be_round_trip(id);
                },
                Kids::Owned(_) => {},
            }
        }
        assert(eb.skip(wire_node_len(eb)) == rest);
    } else {
        assert(enc_nodes(s, i) =~= Seq::<u8>::empty());
    }
}

impl TreeChildren {
    /// The child nodes: resident ones copied, stored ones read from the
    /// store and parsed from their wire form.
    pub fn load<S: BlobStore>(&self, store: &S) -> (r: Result<Vec<TreeNode>, StoreError>)
        ensures
            r is Err <==> (match self.kids {
                Kids::Stored(id) => !store.contents().contains_key(id) || !wire_nodes_ok(
                    store.contents()[id],
                ),
                _ => false,
            }),
            (match r {
                Ok(v) => (match self.kids {
                    Kids::Empty => v@.len() == 0,
                    Kids::Owned(_) => crate::node::kids_mirror(self.nodes(), v@, 0),
                    Kids::Stored(id) => store.contents().contains_key(id) && enc_nodes(v@, 0)
                        == store.contents()[id],
                }),
                Err(_) => !(self.kids is Owned) && !(self.kids is Empty),
            }),
    {
        match &self.kids {
            Kids::Empty => Ok(Vec::new()),
            Kids::Owned(_) => {
                let copy = self.duplicate();
                match copy.kids {
                    Kids::Owned(v) => Ok(v),
                    _ => vstd::pervasive::unreached(),
                }
            },
            Kids::Stored(id) => {
                let bytes = match store.read(*id) {
                    Ok(b) => b,
                    Err(e) => {
                        return Err(e);
                    },
                };
                nodes_from_bytes(bytes.as_slice())
            },
        }
    }
}

/// A sequence with one unserializable node is not serializable.
proof fn lemma_not_serializable(s: Seq<TreeNode>, i: int)
    requires
        0 <= i < s.len(),
        !node_serializable(s[i]),
    ensures
        !nodes_serializable(s, 0),
{
    lemma_not_serializable_from(s, 0, i);
}

/// The same, from any earlier index.
proof fn lemma_not_serializable_from(s: Seq<TreeNode>, j: int, i: int)
    requires
        0 <= j <= i < s.len(),
        !node_serializable(s[i]),
    ensures
        !nodes_serializable(s, j),
    decreases i - j,
{
    if j < i {
        lemma_not_serializable_from(s, j + 1, i);
    }
}

/// Whether one node fits the wire format.
pub fn node_is_serializable(n: &TreeNode) -> (r: bool)
    ensures
        r == node_serializable(*n),
{
    let prefix_ok = match &n.prefix.r.data {
        FlexData::Absent => false,
        FlexData::Resident(v) => v.len() < 64,
        FlexData::Stored(_) => true,
    };
    let value_ok = match &n.value.r.data {
        FlexData::Resident(v) => v.len() < 64,
        _ => true,
    };
    let children_ok = match &n.children.kids {
        Kids::Owned(_) => false,
        _ => true,
    };
    prefix_ok && value_ok && children_ok
}

impl TreeNode {
    /// Serialize a sequence of sibling nodes to its wire form; refused when
    /// a slot does not fit the format, such as resident children.
    pub fn slice_to_bytes(nodes: &Vec<TreeNode>) -> (r: Result<Vec<u8>, StoreError>)
        ensures
            (match r {
                Ok(b) => nodes_serializable(nodes@, 0) && b@ == enc_nodes(nodes@, 0),
                Err(e) => e == StoreError::MalformedEncoding && !nodes_serializable(nodes@, 0),
            }),
    {
        let mut i: usize = 0;
        #[verifier::loop_isolation(false)]
        while i < nodes.len()
            invariant
                i <= nodes.len(),
                forall|j: int| 0 <= j < i ==> node_serializable(#[trigger] nodes@[j]),
            decreases nodes.len() - i,
        {
            if !node_is_serializable(&nodes[i]) {
                proof {
                    lemma_not_serializable(nodes@, i as int);
                }
                return Err(StoreError::MalformedEncoding);
            }
            i = i + 1;
        }
        proof {
            lemma_nodes_serializable_from_forall(nodes@, 0);
        }
        Ok(slice_to_bytes(nodes))
    }

    /// Parse a whole wire-form sibling sequence; on success the parsed nodes
    /// re-serialize to exactly the input bytes.
    pub fn nodes_from_bytes(bytes: &[u8]) -> (r: Result<Vec<TreeNode>, StoreError>)
        ensures
            r is Ok <==> wire_nodes_ok(bytes@),
            (match r {
                Ok(ns) => nodes_serializable(ns@, 0) && enc_nodes(ns@, 0) == bytes@,
                Err(e) => e == StoreError::MalformedEncoding,
            }),
    {
        nodes_from_bytes(bytes)
    }

    /// Promote this node's buffers into the store: resident children are
    /// serialized and appended, long prefixes and values likewise, so that
    /// every slot of the node fits the wire format. Slots that already hold
    /// a store identifier are kept as they stand. Afterwards the node
    /// denotes, through the grown store, every tree it denoted before.
    #[verifier::spinoff_prover]
    #[verifier::rlimit(100)]
    pub fn attach<S: BlobStore>(&mut self, store: &mut S) -> (r: Result<(), StoreError>)
        ensures
            contents_extends(final(store).contents(), old(store).contents()),
            node_serializable(*old(self)) ==> r is Ok,
            old(self).prefix.r.spec_is_none() ==> r == Err::<(), StoreError>(
                StoreError::MalformedEncoding,
            ),
            (match r {
                Ok(()) => node_serializable(*final(self)) && (forall|t: TreeNode|
                    resolves(*old(self), old(store).contents(), t) ==> resolves(
                        *final(self),
                        final(store).contents(),
                        t,
                    )) && (node_resident(*old(self)) ==> resolves(
                    *final(self),
                    final(store).contents(),
                    *old(self),
                )),
                Err(_) => true,
            }),
        decreases *old(self),
    {
        let ghost source = *old(self);
        let ghost c0 = old(store).contents();
        proof {
            assert(contents_extends(c0, c0));
        }
        // A node triple must carry a prefix slot; an absent one is corrupt.
        let prefix_absent = match &self.prefix.r.data {
            FlexData::Absent => true,
            _ => false,
        };
        if prefix_absent {
            return Err(StoreError::MalformedEncoding);
        }
        // Ghost bookkeeping for the byte-exact children clause: the attached
        // children, the identifier they went under, and the contents right
        // after that append.
        let ghost mut ck: Map<u64, Seq<u8>> = Map::empty();
        let ghost mut kids_done = false;
        let ghost mut vfinal: Seq<TreeNode> = Seq::empty();
        let ghost mut gcid: u64 = 0;
        // Children first: attach each child, serialize the sequence, append
        // it, and leave the identifier behind. A child sequence already in
        // the store stays where it is.
        let mut taken = TreeChildren { kids: Kids::Empty };
        core::mem::swap(&mut self.children, &mut taken);
        match taken.kids {
            Kids::Empty => {},
            Kids::Stored(id) => {
                self.children = TreeChildren { kids: Kids::Stored(id) };
            },
            Kids::Owned(mut v) => {
                if v.len() == 0 {
                    // The canonical form of no children.
                } else {
                    let ghost orig_kids = v@;
                    let mut i: usize = 0;
                    #[verifier::loop_isolation(false)]
                    while i < v.len()
                        invariant
                            i <= v.len(),
                            v@.len() == orig_kids.len(),
                            forall|j: int| i <= j < v@.len() ==> #[trigger] v@[j] == orig_kids[j],
                            forall|j: int| 0 <= j < i ==> node_serializable(#[trigger] v@[j]),
                            forall|j: int, tc: TreeNode|
                                0 <= j < i && #[trigger] resolves(orig_kids[j], c0, tc)
                                    ==> resolves(v@[j], store.contents(), tc),
                            contents_extends(store.contents(), c0),
                        decreases v.len() - i,
                    {
                        let ghost cpre = store.contents();
                        let ghost vpre = v@;
                        let mut ch = v.remove(i);
                        proof {
                            assert(ch == orig_kids[i as int]);
                        }
                        match ch.attach(store) {
                            Ok(()) => {},
                            Err(e) => {
                                return Err(e);
                            },
                        }
                        v.insert(i, ch);
                        proof {
                            let cnow = store.contents();
                            assert forall|j: int| 0 <= j < i + 1 implies node_serializable(
                                #[trigger] v@[j],
                            ) by {
                                if j < i {
                                    assert(v@[j] == vpre[j]);
                                } else {
                                    assert(v@[j] == ch);
                                }
                            }
                            assert forall|j: int, tc: TreeNode|
                                0 <= j < i + 1 && #[trigger] resolves(orig_kids[j], c0, tc)
                                    implies resolves(v@[j], cnow, tc) by {
                                if j < i {
                                    assert(v@[j] == vpre[j]);
                                    assert(resolves(vpre[j], cpre, tc));
                                    lemma_resolves_mono(vpre[j], cpre, cnow, tc);
                                } else {
                                    assert(v@[j] == ch);
                                    lemma_resolves_mono(orig_kids[j], c0, cpre, tc);
                                }
                            }
                            assert forall|j: int| i + 1 <= j < v@.len() implies #[trigger] v@[j]
                                == orig_kids[j] by {
                                assert(v@[j] == vpre[j]);
                            }
                        }
                        i = i + 1;
                    }
                    proof {
                        lemma_nodes_serializable_from_forall(v@, 0);
                    }
                    // Serialize the attached children through the in-place
                    // builder, writing each triple into its target region.
                    let mut wb = crate::builder::InPlaceFlexRefSeqBuilder::new(Vec::new());
                    let mut k: usize = 0;
                    #[verifier::loop_isolation(false)]
                    while k < v.len()
                        invariant
                            k <= v.len(),
                            wb.wf(),
                            wb.target() == enc_nodes(v@.take(k as int), 0),
                            wb.source() == Seq::<u8>::empty(),
                        decreases v.len() - k,
                    {
                        crate::builder::push_node_into(&mut wb, &v[k]);
                        proof {
                            assert(v@.take(k + 1) =~= v@.take(k as int).push(v@[k as int]));
                            crate::encoding::lemma_enc_nodes_push(v@.take(k as int), v@[
                            k as int], 0);
                        }
                        k = k + 1;
                    }
                    proof {
                        assert(v@.take(k as int) =~= v@);
                    }
                    let bytes = wb.into_inner();
                    let ghost c_pre = store.contents();
                    let id = match store.append(bytes.as_slice()) {
                        Ok(id) => id,
                        Err(e) => {
                            return Err(e);
                        },
                    };
                    self.children = TreeChildren { kids: Kids::Stored(id) };
                    proof {
                        ck = store.contents();
                        kids_done = true;
                        vfinal = v@;
                        gcid = id;
                        assert(self.children.kids == Kids::Stored(gcid));
                        assert(ck.contains_key(gcid) && ck[gcid] == enc_nodes(vfinal, 0));
                        assert(contents_extends(ck, c0));
                        assert forall|j: int, tc: TreeNode|
                            0 <= j < orig_kids.len() && #[trigger] resolves(orig_kids[j], c0, tc)
                                implies resolves(vfinal[j], ck, tc) by {
                            assert(resolves(v@[j], c_pre, tc));
                            lemma_resolves_mono(v@[j], c_pre, ck, tc);
                        }
                        match source.children.kids {
                            Kids::Owned(otv) => {
                                assert(otv@ == orig_kids);
                            },
                            _ => {},
                        }
                    }
                }
            },
        }
        proof {
            assert(contents_extends(store.contents(), c0));
            if kids_done {
                assert(contents_extends(store.contents(), ck));
            }
        }
        // The prefix, when resident and too long to stay inline.
        let ghost mut prefix_moved = false;
        let ghost mut gpid: u64 = 0;
        let ghost mut cp: Map<u64, Seq<u8>> = Map::empty();
        let long_prefix = match &self.prefix.r.data {
            FlexData::Resident(bs) => bs.len() > 63,
            _ => false,
        };
        if long_prefix {
            let pbytes = crate::flexref::copy_bytes(self.prefix.bytes());
            let pid = match store.append(pbytes.as_slice()) {
                Ok(id) => id,
                Err(e) => {
                    return Err(e);
                },
            };
            self.prefix = TreePrefix { r: FlexRef::with_id(pid) };
            proof {
                prefix_moved = true;
                gpid = pid;
                cp = store.contents();
                assert(self.prefix.r.data == FlexData::Stored(gpid));
                assert(cp.contains_key(gpid) && cp[gpid] == source.prefix@);
                assert(contents_extends(cp, c0));
                if kids_done {
                    assert(contents_extends(cp, ck));
                }
            }
        }
        // The value, when present and too long to stay inline.
        let ghost mut value_moved = false;
        let ghost mut gvid: u64 = 0;
        let ghost mut cv: Map<u64, Seq<u8>> = Map::empty();
        let long_value = match &self.value.r.data {
            FlexData::Resident(bs) => bs.len() > 63,
            _ => false,
        };
        if long_value {
            let vbytes = crate::flexref::copy_bytes(self.value.bytes());
            let vid = match store.append(vbytes.as_slice()) {
                Ok(id) => id,
                Err(e) => {
                    return Err(e);
                },
            };
            self.value = TreeValue { r: FlexRef::with_id(vid) };
            proof {
                value_moved = true;
                gvid = vid;
                cv = store.contents();
                assert(self.value.r.data == FlexData::Stored(gvid));
                assert(cv.contains_key(gvid) && cv[gvid] == source.value.r.data->Resident_0@);
                assert(contents_extends(cv, c0));
                if kids_done {
                    assert(contents_extends(cv, ck));
                }
                if prefix_moved {
                    assert(contents_extends(cv, cp));
                }
            }
        }
        proof {
            let cfin = store.contents();
            assert(contents_extends(cfin, c0));
            if kids_done {
                assert(contents_extends(cfin, ck));
            }
            if prefix_moved {
                assert(contents_extends(cfin, cp));
            }
            if value_moved {
                assert(contents_extends(cfin, cv));
            }
            assert forall|t: TreeNode| resolves(source, c0, t) implies resolves(
                *self,
                cfin,
                t,
            ) by {
                // The prefix slot.
                match source.prefix.r.data {
                    FlexData::Absent => {
                        assert(false);
                    },
                    FlexData::Resident(pv) => {
                        assert(pv@ == t.prefix@);
                        if prefix_moved {
                            assert(cfin.contains_key(gpid) && cfin[gpid] == t.prefix@);
                        } else {
                            assert(self.prefix == source.prefix);
                        }
                        assert(slot_resolves(self.prefix.r, cfin, t.prefix@));
                    },
                    FlexData::Stored(pid0) => {
                        assert(c0.contains_key(pid0) && c0[pid0] == t.prefix@);
                        assert(cfin.contains_key(pid0) && cfin[pid0] == t.prefix@);
                        assert(slot_resolves(self.prefix.r, cfin, t.prefix@));
                    },
                }
                // The value slot.
                match source.value.r.data {
                    FlexData::Absent => {
                        assert(self.value == source.value);
                    },
                    FlexData::Resident(vv) => {
                        assert(t.value.opt() == Some(vv@));
                        if value_moved {
                            assert(cfin.contains_key(gvid) && cfin[gvid] == vv@);
                        } else {
                            assert(self.value == source.value);
                        }
                    },
                    FlexData::Stored(vid0) => {
                        assert(c0.contains_key(vid0));
                        assert(cfin.contains_key(vid0) && cfin[vid0] == c0[vid0]);
                    },
                }
                // The children slot.
                match source.children.kids {
                    Kids::Empty => {
                        assert(kids(t).len() == 0);
                        assert(self.children.kids is Empty);
                    },
                    Kids::Stored(cid0) => {
                        assert(c0.contains_key(cid0));
                        assert(cfin.contains_key(cid0) && cfin[cid0] == c0[cid0]);
                        match t.children.kids {
                            Kids::Owned(tv) => {
                                lemma_bytes_resolve_mono(c0[cid0], c0, cfin, tv@, 0);
                            },
                            _ => {},
                        }
                    },
                    Kids::Owned(origv) => {
                        if origv@.len() == 0 {
                            match t.children.kids {
                                Kids::Owned(tv) => {
                                    assert(kids_resolve(origv@, c0, tv@, 0));
                                    assert(tv@.len() == 0);
                                    assert(kids(t).len() == 0);
                                },
                                Kids::Empty => {
                                    assert(kids(t).len() == 0);
                                },
                                Kids::Stored(_) => {
                                    assert(false);
                                },
                            }
                            assert(self.children.kids is Empty);
                        } else {
                            assert(kids_done);
                            assert(vfinal.len() == origv@.len());
                            match t.children.kids {
                                Kids::Owned(tv) => {
                                    assert(kids_resolve(origv@, c0, tv@, 0));
                                    assert(tv@.len() == origv@.len());
                                    lemma_kids_resolve_to_forall(origv@, c0, tv@, 0);
                                    assert forall|j: int| 0 <= j < tv@.len() implies resolves(
                                        vfinal[j],
                                        cfin,
                                        #[trigger] tv@[j],
                                    ) by {
                                        assert(resolves(origv@[j], c0, tv@[j]));
                                        assert(resolves(vfinal[j], ck, tv@[j]));
                                        lemma_resolves_mono(vfinal[j], ck, cfin, tv@[j]);
                                    }
                                    lemma_kids_resolve_from_forall(vfinal, cfin, tv@, 0);
                                    lemma_enc_resolves_kids(vfinal, cfin, tv@, 0);
                                    assert(cfin[gcid] == enc_nodes(vfinal, 0));
                                    assert(bytes_resolve_kids(cfin[gcid], cfin, tv@, 0));
                                },
                                Kids::Empty => {
                                    assert(false);
                                },
                                Kids::Stored(_) => {
                                    assert(false);
                                },
                            }
                            assert(self.children.kids == Kids::Stored(gcid));
                            assert(cfin.contains_key(gcid));
                        }
                    },
                }
                assert(resolves(*self, cfin, t));
            }
            if node_resident(source) {
                lemma_resolves_self(source, c0);
                assert(resolves(*self, cfin, source));
            }
        }
        Ok(())
    }

    /// Resolve this node's identifiers back into resident buffers through
    /// the store: the prefix and value are read back, a stored child
    /// sequence is read and parsed, and, when `recursive` is set, the
    /// children are detached in turn, all the way down. A node that is
    /// already fully resident needs no store call and always succeeds; a
    /// node whose prefix slot is absent is corrupt and is refused.
    pub fn detach<S: BlobStore>(&mut self, store: &S, recursive: bool) -> (r: Result<
        (),
        StoreError,
    >)
        ensures
            node_resident(*old(self)) ==> r is Ok,
            old(self).prefix.r.spec_is_none() ==> r == Err::<(), StoreError>(
                StoreError::MalformedEncoding,
            ),
            (match r {
                Ok(()) => final(self).prefix.is_resident() && final(self).value.is_resident() && (
                recursive ==> node_resident(*final(self)) && resolves(
                    *old(self),
                    store.contents(),
                    *final(self),
                )),
                Err(_) => true,
            }),
    {
        let fuel = usize::MAX;
        self.detach_rec(store, recursive, fuel)
    }

    /// The fuelled worker behind [`TreeNode::detach`]: the fuel bounds the
    /// depth of stored child sequences it will follow, so that a cyclic,
    /// corrupt store cannot make it run forever. Resident children do not
    /// consume fuel, so a fully resident node always succeeds.
    fn detach_rec<S: BlobStore>(&mut self, store: &S, recursive: bool, fuel: usize) -> (r: Result<
        (),
        StoreError,
    >)
        ensures
            node_resident(*old(self)) ==> r is Ok,
            old(self).prefix.r.spec_is_none() ==> r == Err::<(), StoreError>(
                StoreError::MalformedEncoding,
            ),
            (match r {
                Ok(()) => final(self).prefix.is_resident() && final(self).value.is_resident() && (
                recursive ==> node_resident(*final(self)) && resolves(
                    *old(self),
                    store.contents(),
                    *final(self),
                )),
                Err(_) => true,
            }),
        decreases fuel, *old(self),
    {
        let ghost source = *old(self);
        // The prefix.
        let new_prefix = match &self.prefix.r.data {
            FlexData::Absent => {
                return Err(StoreError::MalformedEncoding);
            },
            FlexData::Resident(_) => None,
            FlexData::Stored(id) => {
                match store.read(*id) {
                    Ok(bytes) => Some(TreePrefix::from_vec(bytes)),
                    Err(e) => {
                        return Err(e);
                    },
                }
            },
        };
        match new_prefix {
            Some(p) => {
                self.prefix = p;
            },
            None => {},
        }
        // The value.
        let new_value = match &self.value.r.data {
            FlexData::Absent => None,
            FlexData::Resident(_) => None,
            FlexData::Stored(id) => {
                match store.read(*id) {
                    Ok(bytes) => Some(TreeValue::from_vec(bytes)),
                    Err(e) => {
                        return Err(e);
                    },
                }
            },
        };
        match new_value {
            Some(vv) => {
                self.value = vv;
            },
            None => {},
        }
        // The children: read and parse a stored sequence, then recurse when
        // asked to. Only a sequence fetched from the store costs fuel.
        let mut taken = TreeChildren { kids: Kids::Empty };
        core::mem::swap(&mut self.children, &mut taken);
        let from_store: bool;
        let ghost mut stored_bytes: Seq<u8> = Seq::empty();
        let mut v: Vec<TreeNode> = match taken.kids {
            Kids::Empty => {
                from_store = false;
                Vec::new()
            },
            Kids::Owned(vv) => {
                from_store = false;
                vv
            },
            Kids::Stored(id) => {
                from_store = true;
                let bytes = match store.read(id) {
                    Ok(b) => b,
                    Err(e) => {
                        return Err(e);
                    },
                };
                proof {
                    stored_bytes = bytes@;
                }
                match nodes_from_bytes(bytes.as_slice()) {
                    Ok(ns) => ns,
                    Err(e) => {
                        return Err(e);
                    },
                }
            },
        };
        let ghost parsed = v@;
        let ghost parsed_serializable = from_store;
        proof {
            if from_store {
                assert(nodes_serializable(parsed, 0) && enc_nodes(parsed, 0) == stored_bytes);
            }
        }
        proof {
            if !from_store && node_resident(source) {
                match source.children.kids {
                    Kids::Owned(ovv) => {
                        crate::node::lemma_kids_resident_all(ovv@, 0);
                    },
                    _ => {},
                }
            }
        }
        if recursive {
            if from_store && fuel == 0 {
                // Deeper than any well-formed store can be: corrupt.
                return Err(StoreError::MalformedEncoding);
            }
            let next_fuel = if from_store {
                fuel - 1
            } else {
                fuel
            };
            let mut i: usize = 0;
            #[verifier::loop_isolation(false)]
            while i < v.len()
                invariant
                    i <= v.len(),
                    v@.len() == parsed.len(),
                    forall|j: int| i <= j < v@.len() ==> #[trigger] v@[j] == parsed[j],
                    forall|j: int|
                        0 <= j < i ==> node_resident(#[trigger] v@[j]) && resolves(
                            parsed[j],
                            store.contents(),
                            v@[j],
                        ),
                decreases v.len() - i,
            {
                let ghost vpre = v@;
                let mut ch = v.remove(i);
                proof {
                    assert(ch == parsed[i as int]);
                    if !from_store {
                        match source.children.kids {
                            Kids::Owned(ovv) => {
                                assert(parsed == ovv@);
                            },
                            _ => {
                                assert(parsed.len() == 0);
                            },
                        }
                    }
                }
                match ch.detach_rec(store, recursive, next_fuel) {
                    Ok(()) => {},
                    Err(e) => {
                        proof {
                            if node_resident(source) {
                                assert(node_resident(parsed[i as int]));
                                assert(false);
                            }
                        }
                        return Err(e);
                    },
                }
                v.insert(i, ch);
                proof {
                    assert forall|j: int| 0 <= j < i + 1 implies node_resident(#[trigger] v@[j])
                        && resolves(parsed[j], store.contents(), v@[j]) by {
                        if j < i {
                            assert(v@[j] == vpre[j]);
                        } else {
                            assert(v@[j] == ch);
                        }
                    }
                    assert forall|j: int| i + 1 <= j < v@.len() implies #[trigger] v@[j]
                        == parsed[j] by {
                        assert(v@[j] == vpre[j]);
                    }
                }
                i = i + 1;
            }
            proof {
                crate::node::lemma_kids_resident_from_forall(v@, 0);
            }
        }
        if v.len() == 0 {
            self.children = TreeChildren { kids: Kids::Empty };
        } else {
            self.children = TreeChildren { kids: Kids::Owned(v) };
        }
        proof {
            if recursive {
                match &self.children.kids {
                    Kids::Owned(nv) => {
                        lemma_kids_resolve_from_forall(parsed, store.contents(), nv@, 0);
                    },
                    _ => {},
                }
                // A stored child sequence's bytes encode exactly what the
                // final, resident children hold.
                match source.children.kids {
                    Kids::Stored(cid) => {
                        assert(store.contents()[cid] == stored_bytes);
                        match &self.children.kids {
                            Kids::Owned(nv) => {
                                lemma_enc_resolves_kids(parsed, store.contents(), nv@, 0);
                                assert(bytes_resolve_kids(
                                    store.contents()[cid],
                                    store.contents(),
                                    nv@,
                                    0,
                                ));
                            },
                            Kids::Empty => {
                                assert(parsed.len() == 0);
                                assert(enc_nodes(parsed, 0) =~= Seq::<u8>::empty());
                                assert(store.contents()[cid].len() == 0);
                            },
                            _ => {},
                        }
                    },
                    _ => {},
                }
                assert(resolves(source, store.contents(), *self));
            }
        }
        Ok(())
    }
}

} // verus!