//! The self-delimiting wire encoding of node sequences. Every slot starts
//! with one header byte whose high two bits name the variant and whose low
//! six bits carry the payload length: an absent payload is the lone zero
//! byte, resident bytes are stored inline (at most 63 of them), and a store
//! identifier is eight big-endian bytes. A sequence of slots can therefore be
//! scanned without external length information.

use vstd::prelude::*;

use crate::flexref::{FlexData, FlexRef};
use crate::node::{append_bytes, Kids, TreeChildren, TreeNode, TreePrefix, TreeValue};
use crate::store::StoreError;

verus! {

/// The variant bits of an absent payload.
pub const TAG_ABSENT: u8 = 0;

/// The variant bits of an inline payload.
pub const TAG_INLINE: u8 = 1;

/// The variant bits of a payload shared on the local heap, which never
/// appears in serialized form.
pub const TAG_SHARED: u8 = 2;

/// The variant bits of a payload held by the backing store.
pub const TAG_STORED: u8 = 3;

/// The eight big-endian bytes of an identifier.
pub open spec fn u64_be_bytes(x: u64) -> Seq<u8> {
    seq![
        (x >> 56) as u8,
        (x >> 48) as u8,
        (x >> 40) as u8,
        (x >> 32) as u8,
        (x >> 24) as u8,
        (x >> 16) as u8,
        (x >> 8) as u8,
        x as u8,
    ]
}

/// The identifier eight big-endian bytes carry.
pub open spec fn u64_of_be(s: Seq<u8>) -> u64
    recommends
        s.len() == 8,
{
    ((s[0] as u64) << 56) | ((s[1] as u64) << 48) | ((s[2] as u64) << 40) | ((s[3] as u64) << 32)
        | ((s[4] as u64) << 24) | ((s[5] as u64) << 16) | ((s[6] as u64) << 8) | (s[7] as u64)
}

/// Reading back the eight bytes of an identifier restores it.
pub proof fn lemma_u64_be_round_trip(x: u64)
    ensures
        u64_of_be(u64_be_bytes(x)) == x,
{
    let b0 = (x >> 56) as u8;
    let b1 = (x >> 48) as u8;
    let b2 = (x >> 40) as u8;
    let b3 = (x >> 32) as u8;
    let b4 = (x >> 24) as u8;
    let b5 = (x >> 16) as u8;
    let b6 = (x >> 8) as u8;
    let b7 = x as u8;
    assert(((b0 as u64) << 56) | ((b1 as u64) << 48) | ((b2 as u64) << 40) | ((b3 as u64) << 32)
        | ((b4 as u64) << 24) | ((b5 as u64) << 16) | ((b6 as u64) << 8) | (b7 as u64) == x) by (bit_vector)
        requires
            b0 == (x >> 56) as u8,
            b1 == (x >> 48) as u8,
            b2 == (x >> 40) as u8,
            b3 == (x >> 32) as u8,
            b4 == (x >> 24) as u8,
            b5 == (x >> 16) as u8,
            b6 == (x >> 8) as u8,
            b7 == x as u8,
    ;
}

/// The header byte of a slot.
pub open spec fn header_byte(tag: u8, len: nat) -> u8
    recommends
        tag < 4,
        len < 64,
{
    (tag * 64 + len) as u8
}

/// A tagged reference that the wire format can carry: absent, inline bytes
/// shorter than 64, or a store identifier.
pub open spec fn slot_serializable(r: FlexRef) -> bool {
    match r.data {
        FlexData::Absent => true,
        FlexData::Resident(v) => v@.len() < 64,
        FlexData::Stored(_) => true,
    }
}

/// The encoding of one slot.
pub open spec fn enc_slot(r: FlexRef) -> Seq<u8> {
    match r.data {
        FlexData::Absent => seq![header_byte(TAG_ABSENT, 0)],
        FlexData::Resident(v) => seq![header_byte(TAG_INLINE, v@.len())] + v@,
        FlexData::Stored(id) => seq![header_byte(TAG_STORED, 8)] + u64_be_bytes(id),
    }
}

/// The encoding of a children slot: no children, or a store identifier. A
/// child sequence is never embedded inline.
pub open spec fn enc_children(ch: TreeChildren) -> Seq<u8> {
    match ch.kids {
        Kids::Empty => seq![header_byte(TAG_ABSENT, 0)],
        Kids::Stored(id) => seq![header_byte(TAG_STORED, 8)] + u64_be_bytes(id),
        Kids::Owned(_) => Seq::empty(),
    }
}

/// Every field of the node fits the wire format: the prefix is present and
/// inline or stored, the value likewise or absent, and the children are
/// absent or stored, never resident.
pub open spec fn node_serializable(n: TreeNode) -> bool {
    &&& !n.prefix.r.spec_is_none()
    &&& slot_serializable(n.prefix.r)
    &&& slot_serializable(n.value.r)
    &&& !(n.children.kids is Owned)
}

/// The encoding of one node triple: prefix, value, children, in that order.
pub open spec fn enc_node(n: TreeNode) -> Seq<u8> {
    enc_slot(n.prefix.r) + enc_slot(n.value.r) + enc_children(n.children)
}

/// The encoding of the nodes from index `i` on.
pub open spec fn enc_nodes(s: Seq<TreeNode>, i: int) -> Seq<u8>
    decreases s.len() - i,
{
    if 0 <= i < s.len() {
        enc_node(s[i]) + enc_nodes(s, i + 1)
    } else {
        Seq::empty()
    }
}

/// All nodes from index `i` on fit the wire format.
pub open spec fn nodes_serializable(s: Seq<TreeNode>, i: int) -> bool
    decreases s.len() - i,
{
    if 0 <= i < s.len() {
        node_serializable(s[i]) && nodes_serializable(s, i + 1)
    } else {
        true
    }
}

/// Appending a node appends its encoding.
pub proof fn lemma_enc_nodes_push(s: Seq<TreeNode>, x: TreeNode, i: int)
    requires
        0 <= i <= s.len(),
    ensures
        enc_nodes(s.push(x), i) == enc_nodes(s, i) + enc_node(x),
    decreases s.len() - i,
{
    let t = s.push(x);
    if i < s.len() {
        assert(t[i] == s[i]);
        lemma_enc_nodes_push(s, x, i + 1);
        assert(enc_nodes(t, i) =~= enc_nodes(s, i) + enc_node(x));
    } else {
        assert(t[i] == x);
        assert(enc_nodes(t, i + 1) =~= Seq::<u8>::empty());
        assert(enc_nodes(t, i) =~= enc_nodes(s, i) + enc_node(x));
    }
}

/// Append the eight big-endian bytes of an identifier.
pub fn push_u64_be(out: &mut Vec<u8>, x: u64)
    ensures
        final(out)@ == old(out)@ + u64_be_bytes(x),
{
    out.push((x >> 56) as u8);
    out.push((x >> 48) as u8);
    out.push((x >> 40) as u8);
    out.push((x >> 32) as u8);
    out.push((x >> 24) as u8);
    out.push((x >> 16) as u8);
    out.push((x >> 8) as u8);
    out.push(x as u8);
    proof {
        assert(out@ =~= old(out)@ + u64_be_bytes(x));
    }
}

/// Read an identifier from eight big-endian bytes.
pub fn read_u64_be(buf: &[u8], pos: usize) -> (r: u64)
    requires
        pos + 8 <= buf@.len(),
    ensures
        r == u64_of_be(buf@.subrange(pos as int, pos + 8)),
{
    let total = buf.len();
    let b0 = *vstd::slice::slice_index_get(buf, pos);
    let b1 = *vstd::slice::slice_index_get(buf, pos + 1);
    let b2 = *vstd::slice::slice_index_get(buf, pos + 2);
    let b3 = *vstd::slice::slice_index_get(buf, pos + 3);
    let b4 = *vstd::slice::slice_index_get(buf, pos + 4);
    let b5 = *vstd::slice::slice_index_get(buf, pos + 5);
    let b6 = *vstd::slice::slice_index_get(buf, pos + 6);
    let b7 = *vstd::slice::slice_index_get(buf, pos + 7);
    let r = ((b0 as u64) << 56) | ((b1 as u64) << 48) | ((b2 as u64) << 40) | ((b3 as u64) << 32)
        | ((b4 as u64) << 24) | ((b5 as u64) << 16) | ((b6 as u64) << 8) | (b7 as u64);
    proof {
        let s = buf@.subrange(pos as int, pos + 8);
        assert(s[0] == b0 && s[1] == b1 && s[2] == b2 && s[3] == b3 && s[4] == b4 && s[5] == b5
            && s[6] == b6 && s[7] == b7);
    }
    r
}

/// The header byte of a slot.
pub fn make_header_byte(tag: u8, len: usize) -> (r: u8)
    requires
        tag < 4,
        len < 64,
    ensures
        r == header_byte(tag, len as nat),
{
    tag * 64 + (len as u8)
}

/// The variant bits of a header byte.
pub fn header_tag(b: u8) -> (r: u8)
    ensures
        r == b / 64,
        r < 4,
{
    b / 64
}

/// The payload length of a header byte.
pub fn header_len(b: u8) -> (r: usize)
    ensures
        r == b % 64,
        r < 64,
{
    (b % 64) as usize
}

/// Append the encoding of one slot.
pub fn push_slot(out: &mut Vec<u8>, r: &FlexRef)
    requires
        slot_serializable(*r),
    ensures
        final(out)@ == old(out)@ + enc_slot(*r),
{
    match &r.data {
        FlexData::Absent => {
            out.push(0);
            proof {
                assert(out@ =~= old(out)@ + enc_slot(*r));
            }
        },
        FlexData::Resident(v) => {
            out.push(make_header_byte(TAG_INLINE, v.len()));
            let ghost mid = out@;
            append_bytes(out, v.as_slice());
            proof {
                assert(out@ =~= old(out)@ + enc_slot(*r));
            }
        },
        FlexData::Stored(id) => {
            out.push(make_header_byte(TAG_STORED, 8));
            push_u64_be(out, *id);
            proof {
                assert(out@ =~= old(out)@ + enc_slot(*r));
            }
        },
    }
}

/// Append the encoding of one node triple.
pub fn push_node(out: &mut Vec<u8>, n: &TreeNode)
    requires
        node_serializable(*n),
    ensures
        final(out)@ == old(out)@ + enc_node(*n),
{
    push_slot(out, &n.prefix.r);
    push_slot(out, &n.value.r);
    match &n.children.kids {
        Kids::Empty => {
            out.push(0);
        },
        Kids::Stored(id) => {
            out.push(make_header_byte(TAG_STORED, 8));
            push_u64_be(out, *id);
        },
        Kids::Owned(_) => {
            proof {
                assert(false);
            }
        },
    }
    proof {
        assert(out@ =~= old(out)@ + enc_node(*n));
    }
}

/// Serialize a sequence of sibling nodes to its wire form.
pub fn slice_to_bytes(nodes: &Vec<TreeNode>) -> (r: Vec<u8>)
    requires
        nodes_serializable(nodes@, 0),
    ensures
        r@ == enc_nodes(nodes@, 0),
{
    let mut out: Vec<u8> = Vec::new();
    let mut i: usize = 0;
    proof {
        lemma_nodes_serializable_all(nodes@, 0);
    }
    #[verifier::loop_isolation(false)]
    while i < nodes.len()
        invariant
            i <= nodes.len(),
            out@ == enc_nodes(nodes@.take(i as int), 0),
        decreases nodes.len() - i,
    {
        push_node(&mut out, &nodes[i]);
        proof {
            assert(nodes@.take(i + 1) =~= nodes@.take(i as int).push(nodes@[i as int]));
            lemma_enc_nodes_push(nodes@.take(i as int), nodes@[i as int], 0);
        }
        i = i + 1;
    }
    proof {
        assert(nodes@.take(i as int) =~= nodes@);
    }
    out
}

/// Each node from index `i` on is serializable.
pub proof fn lemma_nodes_serializable_all(s: Seq<TreeNode>, i: int)
    requires
        nodes_serializable(s, i),
        0 <= i,
    ensures
        forall|j: int| i <= j < s.len() ==> node_serializable(#[trigger] s[j]),
    decreases s.len() - i,
{
    if i < s.len() {
        lemma_nodes_serializable_all(s, i + 1);
    }
}

/// Serializability of a sequence follows from the elementwise facts.
pub proof fn lemma_nodes_serializable_from_forall(s: Seq<TreeNode>, i: int)
    requires
        0 <= i,
        forall|j: int| i <= j < s.len() ==> node_serializable(#[trigger] s[j]),
    ensures
        nodes_serializable(s, i),
    decreases s.len() - i,
{
    if i < s.len() {
        lemma_nodes_serializable_from_forall(s, i + 1);
    }
}

/// The slot at the head of `s` is complete and carries a wire-legal
/// variant: never the shared-heap tag, an absent slot is the lone zero byte,
/// and a stored slot carries exactly eight identifier bytes.
pub open spec fn wire_slot_at(s: Seq<u8>) -> bool {
    &&& s.len() >= 1
    &&& 1 + (s[0] % 64) <= s.len()
    &&& s[0] / 64 != TAG_SHARED
    &&& (s[0] / 64 == TAG_ABSENT ==> s[0] == 0)
    &&& (s[0] / 64 == TAG_STORED ==> s[0] % 64 == 8)
}

/// The length of the slot at the head of `s`, header byte included.
pub open spec fn wire_slot_len(s: Seq<u8>) -> int
    recommends
        s.len() >= 1,
{
    1 + (s[0] % 64)
}

/// The payload bytes of the slot at the head of `s`.
pub open spec fn wire_slot_payload(s: Seq<u8>) -> Seq<u8>
    recommends
        wire_slot_at(s),
{
    s.subrange(1, wire_slot_len(s))
}

/// One whole node triple sits at the head of `s`: a present prefix slot, a
/// value slot, and a children slot that is absent or stored, never inline.
pub open spec fn wire_node_at(s: Seq<u8>) -> bool {
    let s2 = s.skip(wire_slot_len(s));
    let s3 = s2.skip(wire_slot_len(s2));
    &&& wire_slot_at(s)
    &&& s[0] != 0
    &&& wire_slot_at(s2)
    &&& wire_slot_at(s3)
    &&& s3[0] / 64 != TAG_INLINE
}

/// The length of the node triple at the head of `s`.
pub open spec fn wire_node_len(s: Seq<u8>) -> int
    recommends
        wire_node_at(s),
{
    let s2 = s.skip(wire_slot_len(s));
    let s3 = s2.skip(wire_slot_len(s2));
    wire_slot_len(s) + wire_slot_len(s2) + wire_slot_len(s3)
}

/// The whole byte string is a well-formed sequence of node triples: this is
/// exactly the wire form the parser accepts.
pub open spec fn wire_nodes_ok(bytes: Seq<u8>) -> bool
    decreases bytes.len(),
{
    if bytes.len() == 0 {
        true
    } else if !wire_node_at(bytes) {
        false
    } else {
        wire_nodes_ok(bytes.skip(wire_node_len(bytes)))
    }
}

/// The shape of an encoded slot at the head of a longer byte string.
pub proof fn lemma_enc_slot_shape(r: FlexRef, rest: Seq<u8>)
    requires
        slot_serializable(r),
    ensures
        wire_slot_at(enc_slot(r) + rest),
        wire_slot_len(enc_slot(r) + rest) == enc_slot(r).len(),
        (enc_slot(r) + rest).skip(enc_slot(r).len() as int) == rest,
        r.spec_is_none() ==> (enc_slot(r) + rest)[0] == 0,
        r.is_resident() ==> (enc_slot(r) + rest)[0] / 64 == TAG_INLINE && wire_slot_payload(
            enc_slot(r) + rest,
        ) == r.bytes_spec(),
        r.is_stored() ==> (enc_slot(r) + rest)[0] / 64 == TAG_STORED && wire_slot_payload(
            enc_slot(r) + rest,
        ) == u64_be_bytes(r.id_spec()),
{
    let s = enc_slot(r) + rest;
    match r.data {
        FlexData::Absent => {
            assert(s[0] == 0);
            assert(s.skip(1) =~= rest);
        },
        FlexData::Resident(v) => {
            assert(s[0] == header_byte(TAG_INLINE, v@.len()));
            assert(s[0] == (64 + v@.len()) as u8);
            assert(s[0] / 64 == TAG_INLINE && s[0] % 64 == v@.len());
            assert(wire_slot_payload(s) =~= v@);
            assert(s.skip(enc_slot(r).len() as int) =~= rest);
        },
        FlexData::Stored(id) => {
            assert(s[0] == header_byte(TAG_STORED, 8));
            assert(s[0] == 200);
            assert(s[0] / 64 == TAG_STORED && s[0] % 64 == 8);
            assert(wire_slot_payload(s) =~= u64_be_bytes(id));
            assert(s.skip(enc_slot(r).len() as int) =~= rest);
        },
    }
}

/// The shape of an encoded children slot at the head of a longer byte string.
pub proof fn lemma_enc_children_shape(ch: TreeChildren, rest: Seq<u8>)
    requires
        !(ch.kids is Owned),
    ensures
        wire_slot_at(enc_children(ch) + rest),
        wire_slot_len(enc_children(ch) + rest) == enc_children(ch).len(),
        (enc_children(ch) + rest).skip(enc_children(ch).len() as int) == rest,
        (enc_children(ch) + rest)[0] / 64 != TAG_INLINE,
        ch.kids is Empty ==> (enc_children(ch) + rest)[0] == 0,
        ch.kids is Stored ==> (enc_children(ch) + rest)[0] / 64 == TAG_STORED && wire_slot_payload(
            enc_children(ch) + rest,
        ) == u64_be_bytes(ch.kids->Stored_0),
{
    let s = enc_children(ch) + rest;
    match ch.kids {
        Kids::Empty => {
            assert(s[0] == 0);
            assert(s.skip(1) =~= rest);
        },
        Kids::Stored(id) => {
            assert(s[0] == header_byte(TAG_STORED, 8));
            assert(s[0] == 200);
            assert(s[0] / 64 == TAG_STORED && s[0] % 64 == 8);
            assert(wire_slot_payload(s) =~= u64_be_bytes(id));
            assert(s.skip(enc_children(ch).len() as int) =~= rest);
        },
        Kids::Owned(_) => {},
    }
}

/// The shape of an encoded node triple at the head of a longer byte string.
pub proof fn lemma_enc_node_shape(n: TreeNode, rest: Seq<u8>)
    requires
        node_serializable(n),
    ensures
        wire_node_at(enc_node(n) + rest),
        wire_node_len(enc_node(n) + rest) == enc_node(n).len(),
        (enc_node(n) + rest).skip(enc_node(n).len() as int) == rest,
{
    let s = enc_node(n) + rest;
    let ep = enc_slot(n.prefix.r);
    let ev = enc_slot(n.value.r);
    let ec = enc_children(n.children);
    assert(s =~= ep + (ev + (ec + rest)));
    lemma_enc_slot_shape(n.prefix.r, ev + (ec + rest));
    lemma_enc_slot_shape(n.value.r, ec + rest);
    lemma_enc_children_shape(n.children, rest);
    assert(s.skip(ep.len() as int) =~= ev + (ec + rest));
    assert((ev + (ec + rest)).skip(ev.len() as int) =~= ec + rest);
    assert((ec + rest).skip(ec.len() as int) =~= rest);
    assert(s[0] != 0) by {
        match n.prefix.r.data {
            FlexData::Resident(v) => {
                assert(s[0] == (64 + v@.len()) as u8);
            },
            FlexData::Stored(_) => {
                assert(s[0] == 200);
            },
            FlexData::Absent => {},
        }
    }
    assert(s.skip(enc_node(n).len() as int) =~= rest);
}

/// A serializable node sequence's encoding is well-formed wire input: the
/// parser accepts exactly what the serializer produces.
pub proof fn lemma_enc_nodes_wire_ok(s: Seq<TreeNode>, i: int)
    requires
        0 <= i,
        nodes_serializable(s, i),
    ensures
        wire_nodes_ok(enc_nodes(s, i)),
    decreases s.len() - i,
{
    if 0 <= i < s.len() {
        lemma_enc_nodes_wire_ok(s, i + 1);
        lemma_enc_node_shape(s[i], enc_nodes(s, i + 1));
        assert(enc_nodes(s, i) == enc_node(s[i]) + enc_nodes(s, i + 1));
        assert(enc_nodes(s, i).skip(wire_node_len(enc_nodes(s, i))) == enc_nodes(s, i + 1));
    } else {
        assert(enc_nodes(s, i) =~= Seq::<u8>::empty());
    }
}

/// Parse one slot. On success the slot round-trips: its re-encoding is
/// exactly the bytes consumed.
pub fn read_slot(buf: &[u8], pos: usize) -> (r: Result<(FlexRef, usize), StoreError>)
    requires
        pos <= buf@.len(),
    ensures
        r is Ok <==> wire_slot_at(buf@.skip(pos as int)),
        (match r {
            Ok(p) => pos < p.1 <= buf@.len() && slot_serializable(p.0) && enc_slot(p.0)
                == buf@.subrange(pos as int, p.1 as int) && p.1 - pos == wire_slot_len(
                buf@.skip(pos as int),
            ),
            Err(e) => e == StoreError::MalformedEncoding,
        }),
{
    let ghost s = buf@.skip(pos as int);
    proof {
        if s.len() > 0 {
            assert(s[0] == buf@[pos as int]);
        }
    }
    if pos >= buf.len() {
        return Err(StoreError::MalformedEncoding);
    }
    let b = *vstd::slice::slice_index_get(buf, pos);
    let tag = header_tag(b);
    let len = header_len(b);
    if tag == TAG_ABSENT {
        if b != 0 {
            return Err(StoreError::MalformedEncoding);
        }
        let f = FlexRef::none();
        proof {
            assert(enc_slot(f) =~= buf@.subrange(pos as int, pos + 1));
        }
        Ok((f, pos + 1))
    } else if tag == TAG_INLINE {
        let rem = buf.len() - (pos + 1);
        if len > rem {
            return Err(StoreError::MalformedEncoding);
        }
        let data = vstd::slice::slice_to_vec(vstd::slice::slice_subrange(
            buf,
            pos + 1,
            pos + 1 + len,
        ));
        let f = FlexRef::resident_from_vec(data);
        proof {
            assert(b == header_byte(TAG_INLINE, len as nat));
            assert(enc_slot(f) =~= buf@.subrange(pos as int, pos + 1 + len));
        }
        Ok((f, pos + 1 + len))
    } else if tag == TAG_STORED {
        let rem = buf.len() - (pos + 1);
        if len != 8 || rem < 8 {
            return Err(StoreError::MalformedEncoding);
        }
        let id = read_u64_be(buf, pos + 1);
        let f = FlexRef::with_id(id);
        proof {
            let s = buf@.subrange(pos + 1, pos + 9);
            lemma_u64_of_be_round_trip(s);
            assert(b == header_byte(TAG_STORED, 8));
            assert(enc_slot(f) =~= buf@.subrange(pos as int, pos + 9));
        }
        Ok((f, pos + 9))
    } else {
        // The shared variant never appears in serialized form.
        Err(StoreError::MalformedEncoding)
    }
}

/// Re-encoding the identifier read from eight bytes restores those bytes.
pub proof fn lemma_u64_of_be_round_trip(s: Seq<u8>)
    requires
        s.len() == 8,
    ensures
        u64_be_bytes(u64_of_be(s)) == s,
{
    let x = u64_of_be(s);
    let b0 = s[0];
    let b1 = s[1];
    let b2 = s[2];
    let b3 = s[3];
    let b4 = s[4];
    let b5 = s[5];
    let b6 = s[6];
    let b7 = s[7];
    assert((x >> 56) as u8 == b0 && (x >> 48) as u8 == b1 && (x >> 40) as u8 == b2 && (x >> 32) as u8
        == b3 && (x >> 24) as u8 == b4 && (x >> 16) as u8 == b5 && (x >> 8) as u8 == b6 && x as u8
        == b7) by (bit_vector)
        requires
            x == ((b0 as u64) << 56) | ((b1 as u64) << 48) | ((b2 as u64) << 40) | ((b3 as u64)
                << 32) | ((b4 as u64) << 24) | ((b5 as u64) << 16) | ((b6 as u64) << 8) | (
            b7 as u64),
    ;
    assert(u64_be_bytes(x) =~= s);
}

/// Parse one node triple.
pub fn read_node(buf: &[u8], pos: usize) -> (r: Result<(TreeNode, usize), StoreError>)
    requires
        pos <= buf@.len(),
    ensures
        r is Ok <==> wire_node_at(buf@.skip(pos as int)),
        (match r {
            Ok(p) => pos < p.1 <= buf@.len() && node_serializable(p.0) && enc_node(p.0)
                == buf@.subrange(pos as int, p.1 as int) && p.1 - pos == wire_node_len(
                buf@.skip(pos as int),
            ),
            Err(e) => e == StoreError::MalformedEncoding,
        }),
{
    let ghost s = buf@.skip(pos as int);
    let (pr, pos1) = match read_slot(buf, pos) {
        Ok(p) => p,
        Err(e) => {
            return Err(e);
        },
    };
    if pr.is_none() {
        // A prefix slot is always present.
        return Err(StoreError::MalformedEncoding);
    }
    let (vr, pos2) = match read_slot(buf, pos1) {
        Ok(p) => p,
        Err(e) => {
            return Err(e);
        },
    };
    let (cr, pos3) = match read_slot(buf, pos2) {
        Ok(p) => p,
        Err(e) => {
            return Err(e);
        },
    };
    let children = match cr.data {
        FlexData::Absent => TreeChildren { kids: Kids::Empty },
        FlexData::Stored(id) => TreeChildren { kids: Kids::Stored(id) },
        FlexData::Resident(_) => {
            // A child sequence is never embedded inline.
            return Err(StoreError::MalformedEncoding);
        },
    };
    let n = TreeNode { prefix: TreePrefix { r: pr }, value: TreeValue { r: vr }, children };
    proof {
        assert(enc_node(n) =~= buf@.subrange(pos as int, pos3 as int));
    }
    Ok((n, pos3))
}

/// Parse a whole wire-form sibling sequence. On success the parsed nodes
/// round-trip: re-serializing them yields exactly the input bytes.
pub fn nodes_from_bytes(buf: &[u8]) -> (r: Result<Vec<TreeNode>, StoreError>)
    ensures
        r is Ok <==> wire_nodes_ok(buf@),
        (match r {
            Ok(ns) => nodes_serializable(ns@, 0) && enc_nodes(ns@, 0) == buf@,
            Err(e) => e == StoreError::MalformedEncoding,
        }),
{
    let mut out: Vec<TreeNode> = Vec::new();
    let mut pos: usize = 0;
    proof {
        assert(buf@.skip(0) =~= buf@);
    }
    #[verifier::loop_isolation(false)]
    while pos < buf.len()
        invariant
            pos <= buf@.len(),
            nodes_serializable(out@, 0),
            enc_nodes(out@, 0) == buf@.subrange(0, pos as int),
            wire_nodes_ok(buf@) == wire_nodes_ok(buf@.skip(pos as int)),
        decreases buf@.len() - pos,
    {
        let ghost tail = buf@.skip(pos as int);
        let (n, newpos) = match read_node(buf, pos) {
            Ok(p) => p,
            Err(e) => {
                proof {
                    assert(tail.len() > 0);
                    assert(!wire_nodes_ok(tail));
                }
                return Err(e);
            },
        };
        proof {
            lemma_enc_nodes_push(out@, n, 0);
            lemma_nodes_serializable_push(out@, n, 0);
            assert(buf@.subrange(0, newpos as int) =~= buf@.subrange(0, pos as int)
                + buf@.subrange(pos as int, newpos as int));
            assert(buf@.skip(newpos as int) =~= tail.skip(wire_node_len(tail)));
            assert(wire_nodes_ok(tail) == wire_nodes_ok(tail.skip(wire_node_len(tail))));
        }
        out.push(n);
        pos = newpos;
    }
    proof {
        assert(buf@.subrange(0, pos as int) =~= buf@);
        assert(buf@.skip(pos as int) =~= Seq::<u8>::empty());
    }
    Ok(out)
}

/// Appending a serializable node keeps the sequence serializable.
pub proof fn lemma_nodes_serializable_push(s: Seq<TreeNode>, x: TreeNode, i: int)
    requires
        nodes_serializable(s, i),
        node_serializable(x),
        0 <= i <= s.len(),
    ensures
        nodes_serializable(s.push(x), i),
    decreases s.len() - i,
{
    let t = s.push(x);
    if i < s.len() {
        assert(t[i] == s[i]);
        lemma_nodes_serializable_push(s, x, i + 1);
    } else {
        assert(t[i] == x);
        assert(nodes_serializable(t, i + 1));
    }
}

} // verus!
