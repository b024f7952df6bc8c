//! Tree nodes. A node is a triple of tagged fields: a prefix (the bytes this
//! node contributes to every key below it), an optional value, and a sequence
//! of child nodes ordered by the first byte of their prefixes.
//!
//! The mathematical model of a (resident) node is the ordered sequence of
//! `(key, value)` entries of the subtree it roots, given by [`node_entries`].

use vstd::prelude::*;

use crate::flexref::{same_ref, copy_bytes, FlexData, FlexRef};
use crate::lex::{lemma_lex_prepend, lemma_lex_proper_prefix, lex_lt};

verus! {

/// A tree prefix: a byte string, resident or behind a store identifier.
#[derive(Debug)]
pub struct TreePrefix {
    pub r: FlexRef,
}

/// An optional tree value: absent, resident bytes, or a store identifier.
#[derive(Debug)]
pub struct TreeValue {
    pub r: FlexRef,
}

/// The children of a node: none, resident nodes, or a store identifier.
#[derive(Debug)]
pub enum Kids {
    /// No children.
    Empty,
    /// Children resident in memory.
    Owned(Vec<TreeNode>),
    /// Children held by the backing store under this identifier.
    Stored(u64),
}

/// The child sequence of a node.
#[derive(Debug)]
pub struct TreeChildren {
    pub kids: Kids,
}

/// One tree node: prefix, optional value, ordered children.
#[derive(Debug)]
pub struct TreeNode {
    pub prefix: TreePrefix,
    pub value: TreeValue,
    pub children: TreeChildren,
}

impl TreePrefix {
    /// The prefix bytes are resident.
    pub open spec fn is_resident(&self) -> bool {
        self.r.is_resident()
    }

    /// The resident prefix bytes.
    pub open spec fn view(&self) -> Seq<u8> {
        self.r.bytes_spec()
    }

    /// The empty prefix.
    pub fn empty() -> (r: Self)
        ensures
            r.is_resident(),
            r@ == Seq::<u8>::empty(),
    {
        TreePrefix { r: FlexRef::empty() }
    }

    /// A resident prefix holding the given bytes.
    pub fn from_slice(data: &[u8]) -> (r: Self)
        ensures
            r.is_resident(),
            r@ == data@,
    {
        TreePrefix { r: FlexRef::resident_from_slice(data) }
    }

    /// A resident prefix taking over the given buffer.
    pub fn from_vec(data: Vec<u8>) -> (r: Self)
        ensures
            r.is_resident(),
            r@ == data@,
    {
        TreePrefix { r: FlexRef::resident_from_vec(data) }
    }

    /// The resident bytes of this prefix.
    pub fn bytes(&self) -> (r: &Vec<u8>)
        requires
            self.is_resident(),
        ensures
            r@ == self@,
    {
        match &self.r.data {
            FlexData::Resident(v) => v,
            _ => vstd::pervasive::unreached(),
        }
    }

    /// The prefix holds no bytes.
    pub fn is_empty(&self) -> (r: bool)
        requires
            self.is_resident(),
        ensures
            r == (self@.len() == 0),
    {
        self.bytes().len() == 0
    }

    /// The first byte, by which siblings are ordered.
    pub fn first_opt(&self) -> (r: Option<u8>)
        requires
            self.is_resident(),
        ensures
            self@.len() == 0 ==> r is None,
            self@.len() > 0 ==> r == Some(self@[0]),
    {
        let b = self.bytes();
        if b.len() == 0 {
            None
        } else {
            Some(b[0])
        }
    }

    /// The first byte of a non-empty prefix.
    pub fn first(&self) -> (r: u8)
        requires
            self.is_resident(),
            self@.len() > 0,
        ensures
            r == self@[0],
    {
        self.bytes()[0]
    }

    /// A copy of this prefix.
    pub fn duplicate(&self) -> (r: Self)
        ensures
            same_ref(r.r, self.r),
            r.is_resident() == self.is_resident(),
            r.is_resident() ==> r@ == self@,
    {
        TreePrefix { r: self.r.duplicate() }
    }

    /// The prefix bytes, resident ones directly and stored ones resolved
    /// through the store.
    pub fn load<S: crate::store::BlobStore>(&self, store: &S) -> (r: Result<
        Vec<u8>,
        crate::store::StoreError,
    >)
        requires
            !self.r.spec_is_none(),
        ensures
            (match r {
                Ok(v) => (self.is_resident() ==> v@ == self@) && (self.r.is_stored()
                    ==> store.contents().contains_key(self.r.id_spec()) && v@
                    == store.contents()[self.r.id_spec()]),
                Err(_) => self.r.is_stored() && !store.contents().contains_key(self.r.id_spec()),
            }),
    {
        match &self.r.data {
            FlexData::Resident(v) => Ok(copy_bytes(v)),
            FlexData::Stored(id) => store.read(*id),
            FlexData::Absent => vstd::pervasive::unreached(),
        }
    }
}

impl TreeValue {
    /// The value, if any, is resident.
    pub open spec fn is_resident(&self) -> bool {
        !self.r.is_stored()
    }

    /// The value as an optional byte string; meaningful when resident.
    pub open spec fn opt(&self) -> Option<Seq<u8>> {
        if self.r.is_resident() {
            Some(self.r.bytes_spec())
        } else {
            None
        }
    }

    /// The absent value.
    pub fn none() -> (r: Self)
        ensures
            r.is_resident(),
            r.opt() is None,
    {
        TreeValue { r: FlexRef::none() }
    }

    /// A resident value holding the given bytes.
    pub fn from_slice(data: &[u8]) -> (r: Self)
        ensures
            r.is_resident(),
            r.opt() == Some(data@),
    {
        TreeValue { r: FlexRef::resident_from_slice(data) }
    }

    /// A resident value taking over the given buffer.
    pub fn from_vec(data: Vec<u8>) -> (r: Self)
        ensures
            r.is_resident(),
            r.opt() == Some(data@),
    {
        TreeValue { r: FlexRef::resident_from_vec(data) }
    }

    /// An optional resident value.
    pub fn from_opt(data: Option<Vec<u8>>) -> (r: Self)
        ensures
            r.is_resident(),
            r.opt() == (match data {
                Some(v) => Some(v@),
                None => None::<Seq<u8>>,
            }),
    {
        match data {
            Some(v) => Self::from_vec(v),
            None => Self::none(),
        }
    }

    /// The value is absent.
    pub fn is_none(&self) -> (r: bool)
        requires
            self.is_resident(),
        ensures
            r == (self.opt() is None),
    {
        self.r.is_none()
    }

    /// The value is present.
    pub fn is_some(&self) -> (r: bool)
        requires
            self.is_resident(),
        ensures
            r == (self.opt() is Some),
    {
        self.r.is_some()
    }

    /// The resident bytes of a present value.
    pub fn bytes(&self) -> (r: &Vec<u8>)
        requires
            self.is_resident(),
            self.opt() is Some,
        ensures
            Some(r@) == self.opt(),
    {
        match &self.r.data {
            FlexData::Resident(v) => v,
            _ => vstd::pervasive::unreached(),
        }
    }

    /// The value as optional owned bytes.
    pub fn value_opt(&self) -> (r: Option<Vec<u8>>)
        requires
            self.is_resident(),
        ensures
            (match r {
                Some(v) => self.opt() == Some(v@),
                None => self.opt() is None,
            }),
    {
        match &self.r.data {
            FlexData::Resident(v) => Some(copy_bytes(v)),
            _ => None,
        }
    }

    /// A copy of this value.
    pub fn duplicate(&self) -> (r: Self)
        ensures
            same_ref(r.r, self.r),
            r.is_resident() == self.is_resident(),
            r.is_resident() ==> r.opt() == self.opt(),
    {
        TreeValue { r: self.r.duplicate() }
    }

    /// The optional value bytes, resident ones directly and stored ones
    /// resolved through the store.
    pub fn load<S: crate::store::BlobStore>(&self, store: &S) -> (r: Result<
        Option<Vec<u8>>,
        crate::store::StoreError,
    >)
        ensures
            (match r {
                Ok(v) => (self.is_resident() ==> crate::merge::opt_bytes(v) == self.opt()) && (
                self.r.is_stored() ==> store.contents().contains_key(self.r.id_spec()) && (match v {
                    Some(bs) => bs@ == store.contents()[self.r.id_spec()],
                    None => false,
                })),
                Err(_) => self.r.is_stored() && !store.contents().contains_key(self.r.id_spec()),
            }),
    {
        match &self.r.data {
            FlexData::Resident(v) => Ok(Some(copy_bytes(v))),
            FlexData::Stored(id) => match store.read(*id) {
                Ok(v) => Ok(Some(v)),
                Err(e) => Err(e),
            },
            FlexData::Absent => Ok(None),
        }
    }
}

impl TreeChildren {
    /// The children are not behind a store identifier.
    pub open spec fn is_resident(&self) -> bool {
        !(self.kids is Stored)
    }

    /// The resident child nodes, in sibling order.
    pub open spec fn nodes(&self) -> Seq<TreeNode> {
        match self.kids {
            Kids::Owned(v) => v@,
            _ => Seq::empty(),
        }
    }

    /// No children.
    pub fn empty() -> (r: Self)
        ensures
            r.is_resident(),
            r.nodes() == Seq::<TreeNode>::empty(),
    {
        TreeChildren { kids: Kids::Empty }
    }

    /// Children resident in memory; an empty vector becomes the canonical
    /// empty form.
    pub fn from_vec(v: Vec<TreeNode>) -> (r: Self)
        ensures
            r.is_resident(),
            r.nodes() == v@,
    {
        if v.len() == 0 {
            assert(v@ =~= Seq::<TreeNode>::empty());
            TreeChildren { kids: Kids::Empty }
        } else {
            TreeChildren { kids: Kids::Owned(v) }
        }
    }

    /// There are no resident children.
    pub fn is_empty(&self) -> (r: bool)
        requires
            self.is_resident(),
        ensures
            r == (self.nodes().len() == 0),
    {
        match &self.kids {
            Kids::Empty => true,
            Kids::Owned(v) => v.len() == 0,
            _ => vstd::pervasive::unreached(),
        }
    }

    /// The resident child nodes.
    pub fn as_nodes(&self) -> (r: &Vec<TreeNode>)
        requires
            self.is_resident(),
            self.nodes().len() > 0,
        ensures
            r@ == self.nodes(),
    {
        match &self.kids {
            Kids::Owned(v) => v,
            _ => vstd::pervasive::unreached(),
        }
    }
}

// ---------------------------------------------------------------------------
// The mathematical model: ordered (key, value) entries.
// ---------------------------------------------------------------------------

/// The child sequence of a node.
pub open spec fn kids(n: TreeNode) -> Seq<TreeNode> {
    n.children.nodes()
}

/// Every field of every node of the subtree is resident in memory.
pub open spec fn node_resident(n: TreeNode) -> bool
    decreases n, 0int, 0int,
{
    &&& n.prefix.is_resident()
    &&& n.value.is_resident()
    &&& n.children.is_resident()
    &&& match n.children.kids {
        Kids::Owned(v) => kids_resident(v@, 0),
        _ => true,
    }
}

/// All children from index `i` on are resident.
pub open spec fn kids_resident(s: Seq<TreeNode>, i: int) -> bool
    decreases s, s.len() - i, 1int,
{
    if 0 <= i < s.len() {
        node_resident(s[i]) && kids_resident(s, i + 1)
    } else {
        true
    }
}

/// The node carries no value and no children; a tree rooted here is empty.
pub open spec fn node_is_empty(n: TreeNode) -> bool {
    n.value.opt() is None && kids(n).len() == 0
}

/// Siblings are strictly ordered by the first byte of their prefixes.
pub open spec fn kids_sorted(s: Seq<TreeNode>) -> bool {
    forall|i: int, j: int|
        0 <= i < j < s.len() ==> s[i].prefix@[0] < s[j].prefix@[0]
}

/// Well-formed node: resident, children canonical (non-empty prefix, not
/// empty, themselves well-formed) and strictly ordered by first byte.
pub open spec fn node_wf(n: TreeNode) -> bool
    decreases n, 0int, 0int,
{
    &&& n.prefix.is_resident()
    &&& n.value.is_resident()
    &&& n.children.is_resident()
    &&& match n.children.kids {
        Kids::Owned(v) => kids_wf(v@, 0),
        _ => true,
    }
    &&& kids_sorted(kids(n))
}

/// All children from index `i` on are well-formed, non-empty, and carry a
/// non-empty prefix.
pub open spec fn kids_wf(s: Seq<TreeNode>, i: int) -> bool
    decreases s, s.len() - i, 1int,
{
    if 0 <= i < s.len() {
        &&& node_wf(s[i])
        &&& s[i].prefix@.len() > 0
        &&& !node_is_empty(s[i])
        &&& kids_wf(s, i + 1)
    } else {
        true
    }
}

/// The canonical-root condition: a node with neither value nor children has
/// an empty prefix.
pub open spec fn node_canonical_root(n: TreeNode) -> bool {
    node_is_empty(n) ==> n.prefix@.len() == 0
}

/// Prepend `p` to every key of `es`.
pub open spec fn prepend_keys(p: Seq<u8>, es: Seq<(Seq<u8>, Seq<u8>)>) -> Seq<(Seq<u8>, Seq<u8>)> {
    es.map_values(|e: (Seq<u8>, Seq<u8>)| (p + e.0, e.1))
}

/// The entry this node itself contributes, keyed below its prefix.
pub open spec fn own_entries(n: TreeNode) -> Seq<(Seq<u8>, Seq<u8>)> {
    match n.value.opt() {
        Some(v) => seq![(Seq::<u8>::empty(), v)],
        None => Seq::empty(),
    }
}

/// The entries of the subtree rooted at `n`, keys relative to the node that
/// holds `n`: the node's own prefix is included.
pub open spec fn node_entries(n: TreeNode) -> Seq<(Seq<u8>, Seq<u8>)>
    decreases n, 0int, 4int,
{
    prepend_keys(n.prefix@, node_under(n))
}

/// The entries below `n`'s prefix: its own value, then each child's entries
/// in sibling order.
pub open spec fn node_under(n: TreeNode) -> Seq<(Seq<u8>, Seq<u8>)>
    decreases n, 0int, 3int,
{
    own_entries(n) + (match n.children.kids {
        Kids::Owned(v) => kids_entries(v@, 0),
        _ => Seq::empty(),
    })
}

/// The concatenated entries of the children from index `i` on.
pub open spec fn kids_entries(s: Seq<TreeNode>, i: int) -> Seq<(Seq<u8>, Seq<u8>)>
    decreases s, s.len() - i, 2int,
{
    if 0 <= i < s.len() {
        node_entries(s[i]) + kids_entries(s, i + 1)
    } else {
        Seq::empty()
    }
}

/// Keys are strictly increasing in lexicographic order.
pub open spec fn entries_sorted(es: Seq<(Seq<u8>, Seq<u8>)>) -> bool {
    forall|i: int, j: int| 0 <= i < j < es.len() ==> lex_lt(es[i].0, es[j].0)
}

/// Every key of `es` starts with `p`.
pub open spec fn keys_start_with(es: Seq<(Seq<u8>, Seq<u8>)>, p: Seq<u8>) -> bool {
    forall|i: int|
        0 <= i < es.len() ==> es[i].0.len() >= p.len() && #[trigger] es[i].0.take(
            p.len() as int,
        ) == p
}

/// A structural size measure for merge termination: nodes count two, so that
/// stepping from a node to its child sequence strictly shrinks even when a
/// prefix is peeled off.
pub open spec fn node_size(n: TreeNode) -> nat
    decreases n, 0int, 1int,
{
    2 + (match n.children.kids {
        Kids::Owned(v) => kids_size(v@, 0),
        _ => 0,
    })
}

/// The summed size of the children from index `i` on.
pub open spec fn kids_size(s: Seq<TreeNode>, i: int) -> nat
    decreases s, s.len() - i, 2int,
{
    if 0 <= i < s.len() {
        node_size(s[i]) + kids_size(s, i + 1)
    } else {
        0
    }
}

/// Every element's size is bounded by the sum from any earlier index.
pub proof fn lemma_kids_size_le(s: Seq<TreeNode>, i: int, j: int)
    requires
        0 <= i <= j < s.len(),
    ensures
        node_size(s[j]) <= kids_size(s, i),
    decreases j - i,
{
    if i < j {
        lemma_kids_size_le(s, i + 1, j);
    }
}

/// Every key of `es` is non-empty and begins with a byte at least `b`.
pub open spec fn keys_at_least(es: Seq<(Seq<u8>, Seq<u8>)>, b: u8) -> bool {
    forall|i: int| 0 <= i < es.len() ==> #[trigger] es[i].0.len() > 0 && es[i].0[0] >= b
}

/// Two nodes have the same shape and, slot by slot, the same payloads.
pub open spec fn node_mirror(a: TreeNode, b: TreeNode) -> bool
    decreases a, 0int, 0int,
{
    &&& same_ref(a.prefix.r, b.prefix.r)
    &&& same_ref(a.value.r, b.value.r)
    &&& match (a.children.kids, b.children.kids) {
        (Kids::Empty, Kids::Empty) => true,
        (Kids::Stored(x), Kids::Stored(y)) => x == y,
        (Kids::Owned(x), Kids::Owned(y)) => kids_mirror(x@, y@, 0),
        _ => false,
    }
}

/// The children from index `i` on mirror each other.
pub open spec fn kids_mirror(s: Seq<TreeNode>, t: Seq<TreeNode>, i: int) -> bool
    decreases s, s.len() - i, 1int,
{
    &&& s.len() == t.len()
    &&& if 0 <= i < s.len() {
        node_mirror(s[i], t[i]) && kids_mirror(s, t, i + 1)
    } else {
        true
    }
}

// ---------------------------------------------------------------------------
// Lemmas about the model.
// ---------------------------------------------------------------------------

/// Prepending `p` and then `q` is prepending `p + q`.
pub proof fn lemma_prepend_compose(p: Seq<u8>, q: Seq<u8>, es: Seq<(Seq<u8>, Seq<u8>)>)
    ensures
        prepend_keys(p, prepend_keys(q, es)) == prepend_keys(p + q, es),
{
    assert forall|i: int| 0 <= i < es.len() implies prepend_keys(p, prepend_keys(q, es))[i]
        == prepend_keys(p + q, es)[i] by {
        assert(p + (q + es[i].0) =~= (p + q) + es[i].0);
    }
    assert(prepend_keys(p, prepend_keys(q, es)) =~= prepend_keys(p + q, es));
}

/// Splitting a child sequence at index `i`.
pub proof fn lemma_kids_entries_unfold(s: Seq<TreeNode>, i: int)
    requires
        0 <= i < s.len(),
    ensures
        kids_entries(s, i) == node_entries(s[i]) + kids_entries(s, i + 1),
{
}

/// Appending a child appends its entries.
pub proof fn lemma_kids_entries_push(s: Seq<TreeNode>, x: TreeNode, i: int)
    requires
        0 <= i <= s.len(),
    ensures
        kids_entries(s.push(x), i) == kids_entries(s, i) + node_entries(x),
    decreases s.len() - i,
{
    let t = s.push(x);
    if i < s.len() {
        assert(t[i] == s[i]);
        lemma_kids_entries_push(s, x, i + 1);
        assert(kids_entries(t, i) =~= kids_entries(s, i) + node_entries(x));
    } else {
        assert(t[i] == x);
        assert(kids_entries(t, i + 1) =~= Seq::<(Seq<u8>, Seq<u8>)>::empty());
        assert(kids_entries(t, i) =~= kids_entries(s, i) + node_entries(x));
    }
}

/// Each child from index `i` on of a well-formed child sequence is itself
/// well-formed, non-empty, and carries a non-empty prefix.
pub proof fn lemma_kids_wf_all(s: Seq<TreeNode>, i: int)
    requires
        kids_wf(s, i),
        0 <= i,
    ensures
        forall|j: int|
            i <= j < s.len() ==> node_wf(#[trigger] s[j]) && s[j].prefix@.len() > 0
                && !node_is_empty(s[j]),
    decreases s.len() - i,
{
    if i < s.len() {
        lemma_kids_wf_all(s, i + 1);
    }
}

/// Each child from index `i` on of a resident child sequence is resident.
pub proof fn lemma_kids_resident_all(s: Seq<TreeNode>, i: int)
    requires
        kids_resident(s, i),
        0 <= i,
    ensures
        forall|j: int| i <= j < s.len() ==> node_resident(#[trigger] s[j]),
    decreases s.len() - i,
{
    if i < s.len() {
        lemma_kids_resident_all(s, i + 1);
    }
}

/// Residency of a child sequence follows from the elementwise facts.
pub proof fn lemma_kids_resident_from_forall(s: Seq<TreeNode>, i: int)
    requires
        0 <= i,
        forall|j: int| i <= j < s.len() ==> node_resident(#[trigger] s[j]),
    ensures
        kids_resident(s, i),
    decreases s.len() - i,
{
    if i < s.len() {
        lemma_kids_resident_from_forall(s, i + 1);
    }
}

/// A well-formed node is resident throughout.
pub proof fn lemma_wf_resident(n: TreeNode)
    requires
        node_wf(n),
    ensures
        node_resident(n),
    decreases n, 0int, 0int,
{
    match n.children.kids {
        Kids::Owned(v) => {
            lemma_wf_resident_kids(v@, 0);
        },
        _ => {},
    }
}

/// A well-formed child sequence is resident from index `i` on.
pub proof fn lemma_wf_resident_kids(s: Seq<TreeNode>, i: int)
    requires
        kids_wf(s, i),
        0 <= i,
    ensures
        kids_resident(s, i),
    decreases s, s.len() - i, 1int,
{
    if i < s.len() {
        lemma_wf_resident(s[i]);
        lemma_wf_resident_kids(s, i + 1);
    }
}

/// Mirrored nodes are equally resident and well-formed, and have the same
/// prefix, value, emptiness and entries.
pub proof fn lemma_mirror_node(a: TreeNode, b: TreeNode)
    requires
        node_mirror(a, b),
    ensures
        a.prefix.is_resident() == b.prefix.is_resident(),
        a.prefix.is_resident() ==> a.prefix@ == b.prefix@,
        a.value.is_resident() == b.value.is_resident(),
        a.value.is_resident() ==> a.value.opt() == b.value.opt(),
        a.children.is_resident() == b.children.is_resident(),
        kids(a).len() == kids(b).len(),
        node_resident(a) == node_resident(b),
        node_wf(a) == node_wf(b),
        a.value.is_resident() ==> node_is_empty(a) == node_is_empty(b),
        node_resident(a) ==> node_under(a) == node_under(b),
        node_resident(a) ==> node_entries(a) == node_entries(b),
        node_size(a) == node_size(b),
    decreases a, 0int, 0int,
{
    match (a.children.kids, b.children.kids) {
        (Kids::Owned(x), Kids::Owned(y)) => {
            lemma_mirror_kids(x@, y@, 0);
            if kids_wf(x@, 0) {
                lemma_kids_wf_all(x@, 0);
                lemma_kids_wf_all(y@, 0);
                assert forall|i: int, j: int| 0 <= i < j < x@.len() implies (x@[i].prefix@[0]
                    < x@[j].prefix@[0] <==> y@[i].prefix@[0] < y@[j].prefix@[0]) by {}
                assert(kids_sorted(kids(a)) == kids_sorted(kids(b)));
            }
            if node_resident(a) {
                assert(node_under(a) =~= node_under(b));
                assert(node_entries(a) =~= node_entries(b));
            }
        },
        _ => {
            if node_resident(a) {
                assert(node_under(a) =~= node_under(b));
                assert(node_entries(a) =~= node_entries(b));
            }
        },
    }
}

/// Mirrored child sequences are equally resident and well-formed and have the
/// same entries.
pub proof fn lemma_mirror_kids(s: Seq<TreeNode>, t: Seq<TreeNode>, i: int)
    requires
        kids_mirror(s, t, i),
        0 <= i,
    ensures
        kids_resident(s, i) ==> kids_entries(s, i) == kids_entries(t, i),
        kids_resident(s, i) == kids_resident(t, i),
        kids_wf(s, i) == kids_wf(t, i),
        kids_size(s, i) == kids_size(t, i),
        forall|j: int|
            i <= j < s.len() ==> (s[j].prefix.is_resident() == t[j].prefix.is_resident() && (
            s[j].prefix.is_resident() ==> s[j].prefix@ == t[j].prefix@)),
    decreases s, s.len() - i, 1int,
{
    if i < s.len() {
        lemma_mirror_node(s[i], t[i]);
        lemma_mirror_kids(s, t, i + 1);
        assert forall|j: int| i <= j < s.len() implies (s[j].prefix.is_resident()
            == t[j].prefix.is_resident() && (s[j].prefix.is_resident() ==> s[j].prefix@
            == t[j].prefix@)) by {
            if j == i {
                lemma_mirror_node(s[i], t[i]);
            }
        }
        if kids_resident(s, i) {
            assert(kids_entries(s, i) =~= kids_entries(t, i));
        }
    } else {
        assert(kids_entries(s, i) =~= kids_entries(t, i));
    }
}

/// Well-formedness of a child sequence passes to its suffixes.
pub proof fn lemma_kids_wf_from(s: Seq<TreeNode>, i: int, j: int)
    requires
        kids_wf(s, i),
        0 <= i <= j,
    ensures
        kids_wf(s, j),
    decreases j - i,
{
    if i < j {
        if i < s.len() {
            lemma_kids_wf_from(s, i + 1, j);
        } else {
            lemma_kids_wf_from(s, i + 1, j);
        }
    }
}

/// Appending a canonical child keeps a child sequence well-formed.
pub proof fn lemma_kids_wf_push(s: Seq<TreeNode>, x: TreeNode, i: int)
    requires
        kids_wf(s, i),
        0 <= i,
        node_wf(x),
        x.prefix@.len() > 0,
        !node_is_empty(x),
    ensures
        kids_wf(s.push(x), i),
    decreases s.len() - i,
{
    if i < s.len() {
        lemma_kids_wf_push(s, x, i + 1);
        assert(s.push(x)[i] == s[i]);
    } else if i == s.len() {
        assert(s.push(x)[i] == x);
        assert(kids_wf(s.push(x), i + 1));
    } else {
        assert(kids_wf(s.push(x), i));
    }
}

/// Mirroring is symmetric.
pub proof fn lemma_mirror_sym(a: TreeNode, b: TreeNode)
    requires
        node_mirror(a, b),
    ensures
        node_mirror(b, a),
    decreases a, 0int, 0int,
{
    match (a.children.kids, b.children.kids) {
        (Kids::Owned(x), Kids::Owned(y)) => {
            lemma_kids_mirror_sym(x@, y@, 0);
        },
        _ => {},
    }
}

/// The elementwise form of [`lemma_mirror_sym`].
proof fn lemma_kids_mirror_sym(s: Seq<TreeNode>, t: Seq<TreeNode>, i: int)
    requires
        kids_mirror(s, t, i),
        0 <= i,
    ensures
        kids_mirror(t, s, i),
    decreases s, s.len() - i, 1int,
{
    if i < s.len() {
        lemma_mirror_sym(s[i], t[i]);
        lemma_kids_mirror_sym(s, t, i + 1);
    }
}

/// Mirrored child sequences mirror at every index.
pub proof fn lemma_kids_mirror_index(s: Seq<TreeNode>, t: Seq<TreeNode>, i: int, j: int)
    requires
        kids_mirror(s, t, i),
        0 <= i <= j < s.len(),
    ensures
        node_mirror(s[j], t[j]),
    decreases j - i,
{
    if i < j {
        lemma_kids_mirror_index(s, t, i + 1, j);
    }
}

/// `kids_mirror` follows from elementwise mirroring.
pub proof fn lemma_kids_mirror_from_forall(s: Seq<TreeNode>, t: Seq<TreeNode>, i: int)
    requires
        s.len() == t.len(),
        0 <= i,
        forall|j: int| i <= j < s.len() ==> node_mirror(#[trigger] s[j], t[j]),
    ensures
        kids_mirror(s, t, i),
    decreases s.len() - i,
{
    if i < s.len() {
        lemma_kids_mirror_from_forall(s, t, i + 1);
    }
}

/// Mirroring is reflexive.
pub proof fn lemma_mirror_refl(n: TreeNode)
    ensures
        node_mirror(n, n),
    decreases n, 0int, 0int,
{
    match n.children.kids {
        Kids::Owned(v) => {
            lemma_kids_mirror_refl(v@, 0);
        },
        _ => {},
    }
}

/// Elementwise reflexive mirroring of a child sequence.
pub proof fn lemma_kids_mirror_refl(s: Seq<TreeNode>, i: int)
    requires
        0 <= i,
    ensures
        kids_mirror(s, s, i),
    decreases s, s.len() - i, 1int,
{
    if i < s.len() {
        lemma_mirror_refl(s[i]);
        lemma_kids_mirror_refl(s, i + 1);
    }
}

/// The from-index functions depend only on the suffix of the sequence.
pub proof fn lemma_kids_suffix(s: Seq<TreeNode>, i: int, t: Seq<TreeNode>, k: int)
    requires
        0 <= i <= s.len(),
        0 <= k <= t.len(),
        s.skip(i) == t.skip(k),
    ensures
        kids_entries(s, i) == kids_entries(t, k),
        kids_size(s, i) == kids_size(t, k),
        kids_wf(s, i) == kids_wf(t, k),
    decreases s.len() - i,
{
    assert(s.skip(i).len() == t.skip(k).len());
    assert(s.skip(i).len() == s.len() - i);
    assert(t.skip(k).len() == t.len() - k);
    assert(t.len() - k == s.len() - i);
    if i < s.len() {
        assert(k < t.len());
        assert(s.skip(i)[0] == s[i + 0]);
        assert(t.skip(k)[0] == t[k + 0]);
        assert(s[i] == t[k]);
        assert forall|j0: int| 0 <= j0 < s.len() - i - 1 implies #[trigger] s.skip(i + 1)[j0]
            == t.skip(k + 1)[j0] by {
            assert(s.skip(i)[j0 + 1] == t.skip(k)[j0 + 1]);
            assert(s.skip(i)[j0 + 1] == s[(j0 + 1) + i]);
            assert(t.skip(k)[j0 + 1] == t[(j0 + 1) + k]);
            assert(s.skip(i + 1)[j0] == s[j0 + (i + 1)]);
            assert(t.skip(k + 1)[j0] == t[j0 + (k + 1)]);
        }
        assert(s.skip(i + 1) =~= t.skip(k + 1));
        lemma_kids_suffix(s, i + 1, t, k + 1);
    }
}

/// Equal suffixes stay equal when both drop their first element.
pub proof fn lemma_skip_succ(s: Seq<TreeNode>, i: int, t: Seq<TreeNode>, k: int)
    requires
        0 <= i < s.len(),
        0 <= k <= t.len(),
        s.skip(i) == t.skip(k),
    ensures
        s.skip(i + 1) == t.skip(k + 1),
{
    assert(s.skip(i).len() == t.skip(k).len());
    assert(s.skip(i).len() == s.len() - i);
    assert(t.skip(k).len() == t.len() - k);
    assert(k < t.len());
    assert forall|j0: int| 0 <= j0 < s.len() - i - 1 implies #[trigger] s.skip(i + 1)[j0] == t.skip(
        k + 1,
    )[j0] by {
        assert(s.skip(i)[j0 + 1] == t.skip(k)[j0 + 1]);
        assert(s.skip(i)[j0 + 1] == s[(j0 + 1) + i]);
        assert(t.skip(k)[j0 + 1] == t[(j0 + 1) + k]);
        assert(s.skip(i + 1)[j0] == s[j0 + (i + 1)]);
        assert(t.skip(k + 1)[j0] == t[j0 + (k + 1)]);
    }
    assert(s.skip(i + 1) =~= t.skip(k + 1));
}

/// The entries of a child sequence split at any index.
pub proof fn lemma_kids_entries_take_split(s: Seq<TreeNode>, i: int)
    requires
        0 <= i <= s.len(),
    ensures
        kids_entries(s, 0) == kids_entries(s.take(i), 0) + kids_entries(s, i),
    decreases i,
{
    if i == 0 {
        assert(kids_entries(s.take(0), 0) =~= Seq::<(Seq<u8>, Seq<u8>)>::empty());
        assert(kids_entries(s, 0) =~= kids_entries(s.take(0), 0) + kids_entries(s, 0));
    } else {
        lemma_kids_entries_take_split(s, i - 1);
        assert(s.take(i) =~= s.take(i - 1).push(s[i - 1]));
        lemma_kids_entries_push(s.take(i - 1), s[i - 1], 0);
        lemma_kids_entries_unfold(s, i - 1);
        assert((kids_entries(s.take(i - 1), 0) + node_entries(s[i - 1])) + kids_entries(s, i)
            =~= kids_entries(s.take(i - 1), 0) + (node_entries(s[i - 1]) + kids_entries(s, i)));
    }
}

/// `kids_wf` follows from the elementwise facts.
pub proof fn lemma_kids_wf_from_all(s: Seq<TreeNode>, i: int)
    requires
        0 <= i,
        forall|j: int|
            i <= j < s.len() ==> node_wf(#[trigger] s[j]) && s[j].prefix@.len() > 0
                && !node_is_empty(s[j]),
    ensures
        kids_wf(s, i),
    decreases s.len() - i,
{
    if i < s.len() {
        lemma_kids_wf_from_all(s, i + 1);
    }
}

/// The structural facts about a well-formed node's entries: they are sorted,
/// they all start with the node's prefix, and they are empty exactly when the
/// node is.
pub proof fn lemma_node_entries_wf(n: TreeNode)
    requires
        node_wf(n),
    ensures
        entries_sorted(node_entries(n)),
        keys_start_with(node_entries(n), n.prefix@),
        node_entries(n).len() == 0 <==> node_is_empty(n),
        n.value.opt() is Some ==> node_entries(n).len() > 0 && node_entries(n)[0] == (
        n.prefix@, n.value.opt()->0),
        forall|i: int|
            0 <= i < node_entries(n).len() ==> (#[trigger] node_entries(n)[i].0.len()
                > n.prefix@.len() <==> !(n.value.opt() is Some && i == 0)),
    decreases n, 0int, 0int,
{
    let p = n.prefix@;
    let under = node_under(n);
    let ks = kids(n);
    match n.children.kids {
        Kids::Owned(v) => {
            lemma_kids_entries_wf(v@, 0);
        },
        _ => {},
    }
    let ke = kids_entries(ks, 0);
    assert(under =~= own_entries(n) + ke);
    // Every relative key in `under` is sorted and the own entry (key empty)
    // comes first.
    assert forall|i: int, j: int| 0 <= i < j < under.len() implies lex_lt(
        under[i].0,
        under[j].0,
    ) by {
        if n.value.opt() is Some {
            if i == 0 {
                assert(under[j].0 == ke[j - 1].0);
                assert(under[j].0.len() > 0);
            } else {
                assert(under[i].0 == ke[i - 1].0);
                assert(under[j].0 == ke[j - 1].0);
            }
        } else {
            assert(under[i].0 == ke[i].0);
            assert(under[j].0 == ke[j].0);
        }
    }
    assert forall|i: int, j: int| 0 <= i < j < node_entries(n).len() implies lex_lt(
        node_entries(n)[i].0,
        node_entries(n)[j].0,
    ) by {
        lemma_lex_prepend(p, under[i].0, under[j].0);
    }
    assert forall|i: int| 0 <= i < node_entries(n).len() implies node_entries(n)[i].0.len()
        >= p.len() && #[trigger] node_entries(n)[i].0.take(p.len() as int) == p by {
        assert((p + under[i].0).take(p.len() as int) =~= p);
    }
    if node_is_empty(n) {
        assert(under.len() == 0);
    } else {
        if n.value.opt() is Some {
            assert(under[0] == (Seq::<u8>::empty(), n.value.opt()->0));
            assert(node_entries(n)[0].0 =~= p);
        } else {
            assert(ks.len() > 0);
            assert(under.len() > 0);
        }
    }
    assert forall|i: int|
        0 <= i < node_entries(n).len() implies (#[trigger] node_entries(n)[i].0.len() > p.len()
        <==> !(n.value.opt() is Some && i == 0)) by {
        if n.value.opt() is Some && i == 0 {
            assert(node_entries(n)[0].0 =~= p);
        } else {
            let k = if n.value.opt() is Some {
                i - 1
            } else {
                i
            };
            assert(under[i].0 == ke[k].0);
            assert(ke[k].0.len() > 0);
        }
    }
}

/// The structural facts about a well-formed, sorted child sequence's entries,
/// from index `i` on: sorted, non-empty keys bounded below by child `i`'s
/// first byte, and at least one entry per child.
pub proof fn lemma_kids_entries_wf(s: Seq<TreeNode>, i: int)
    requires
        kids_wf(s, i),
        kids_sorted(s),
        0 <= i,
    ensures
        entries_sorted(kids_entries(s, i)),
        i < s.len() ==> keys_at_least(kids_entries(s, i), s[i].prefix@[0]),
        i < s.len() ==> kids_entries(s, i).len() > 0,
        i >= s.len() ==> kids_entries(s, i).len() == 0,
        forall|k: int|
            0 <= k < kids_entries(s, i).len() ==> #[trigger] kids_entries(s, i)[k].0.len() > 0,
    decreases s, s.len() - i, 1int,
{
    if i < s.len() {
        let c = s[i];
        let ce = node_entries(c);
        let rest = kids_entries(s, i + 1);
        lemma_node_entries_wf(c);
        lemma_kids_entries_wf(s, i + 1);
        assert(kids_entries(s, i) =~= ce + rest);
        // Entries of child i start with its prefix, hence with its first byte.
        assert forall|k: int| 0 <= k < ce.len() implies ce[k].0.len() > 0 && ce[k].0[0]
            == c.prefix@[0] by {
            assert(ce[k].0.take(c.prefix@.len() as int) == c.prefix@);
            assert(ce[k].0[0] == c.prefix@[0]);
        }
        assert(ce.len() > 0);
        assert forall|a: int, b: int| 0 <= a < b < kids_entries(s, i).len() implies lex_lt(
            kids_entries(s, i)[a].0,
            kids_entries(s, i)[b].0,
        ) by {
            if a < ce.len() && b >= ce.len() {
                let kb = rest[b - ce.len()].0;
                assert(kb.len() > 0 && kb[0] >= s[i + 1].prefix@[0]);
                assert(c.prefix@[0] < s[i + 1].prefix@[0]);
                assert(lex_lt(ce[a].0, kb));
            }
        }
        assert forall|k: int| 0 <= k < kids_entries(s, i).len() implies #[trigger] kids_entries(
            s,
            i,
        )[k].0.len() > 0 && kids_entries(s, i)[k].0[0] >= c.prefix@[0] by {
            if k >= ce.len() {
                assert(kids_entries(s, i)[k] == rest[k - ce.len()]);
                assert(c.prefix@[0] < s[i + 1].prefix@[0]);
            }
        }
    }
}

/// The last entry of a non-empty child sequence is the last entry of its
/// last child.
pub proof fn lemma_kids_entries_last(s: Seq<TreeNode>, i: int)
    requires
        kids_wf(s, i),
        kids_sorted(s),
        0 <= i < s.len(),
    ensures
        kids_entries(s, i).len() > 0,
        node_entries(s[s.len() - 1]).len() > 0,
        kids_entries(s, i).last() == node_entries(s[s.len() - 1]).last(),
    decreases s.len() - i,
{
    lemma_node_entries_wf(s[i]);
    if i == s.len() - 1 {
        assert(kids_entries(s, i) =~= node_entries(s[i]) + kids_entries(s, i + 1));
        assert(kids_entries(s, i + 1) =~= Seq::<(Seq<u8>, Seq<u8>)>::empty());
    } else {
        lemma_kids_entries_last(s, i + 1);
    }
}

// ---------------------------------------------------------------------------
// Executable node operations.
// ---------------------------------------------------------------------------

/// Append the bytes of `src` to `dst`.
pub fn append_bytes(dst: &mut Vec<u8>, src: &[u8])
    ensures
        final(dst)@ == old(dst)@ + src@,
{
    let mut i: usize = 0;
    while i < src.len()
        invariant
            i <= src@.len(),
            dst@ == old(dst)@ + src@.take(i as int),
        decreases src@.len() - i,
    {
        dst.push(*vstd::slice::slice_index_get(src, i));
        proof {
            assert(old(dst)@ + src@.take(i + 1) =~= (old(dst)@ + src@.take(i as int)).push(
                src@[i as int],
            ));
        }
        i = i + 1;
    }
    proof {
        assert(src@.take(i as int) =~= src@);
    }
}

impl TreeChildren {
    /// A copy of these children, slot by slot.
    pub fn duplicate(&self) -> (r: Self)
        ensures
            (match (self.kids, r.kids) {
                (Kids::Empty, Kids::Empty) => true,
                (Kids::Stored(x), Kids::Stored(y)) => x == y,
                (Kids::Owned(x), Kids::Owned(y)) => kids_mirror(x@, y@, 0),
                _ => false,
            }),
        decreases *self,
    {
        match &self.kids {
            Kids::Empty => TreeChildren { kids: Kids::Empty },
            Kids::Stored(id) => TreeChildren { kids: Kids::Stored(*id) },
            Kids::Owned(v) => {
                let mut out: Vec<TreeNode> = Vec::new();
                let mut i: usize = 0;
                #[verifier::loop_isolation(false)]
                while i < v.len()
                    invariant
                        i <= v.len(),
                        out.len() == i,
                        forall|j: int| 0 <= j < i ==> node_mirror(#[trigger] v@[j], out@[j]),
                    decreases v.len() - i,
                {
                    out.push(v[i].deep_clone());
                    i = i + 1;
                }
                proof {
                    lemma_kids_mirror_from_forall(v@, out@, 0);
                }
                TreeChildren { kids: Kids::Owned(out) }
            },
        }
    }
}

impl TreeNode {
    /// The node's prefix field.
    pub fn prefix(&self) -> (r: &TreePrefix)
        ensures
            r == &self.prefix,
    {
        &self.prefix
    }

    /// The node's value field.
    pub fn value(&self) -> (r: &TreeValue)
        ensures
            r == &self.value,
    {
        &self.value
    }

    /// The node's children field.
    pub fn children(&self) -> (r: &TreeChildren)
        ensures
            r == &self.children,
    {
        &self.children
    }

    /// The node carries neither value nor children.
    pub fn is_empty(&self) -> (r: bool)
        requires
            self.value.is_resident(),
            self.children.is_resident(),
        ensures
            r == node_is_empty(*self),
    {
        self.children.is_empty() && self.value.is_none()
    }

    /// Whether this subtree is well-formed: fully resident, every child
    /// canonical, non-empty, and strictly ordered by leading byte.
    pub fn check_wf(&self) -> (r: bool)
        ensures
            r == node_wf(*self),
        decreases *self,
    {
        if !self.prefix.r.is_inline() {
            return false;
        }
        if self.value.r.is_id() {
            return false;
        }
        match &self.children.kids {
            Kids::Stored(_) => false,
            Kids::Empty => true,
            Kids::Owned(v) => {
                let mut i: usize = 0;
                #[verifier::loop_isolation(false)]
                while i < v.len()
                    invariant
                        i <= v.len(),
                        forall|j: int|
                            0 <= j < i ==> node_wf(#[trigger] v@[j]) && v@[j].prefix@.len() > 0
                                && !node_is_empty(v@[j]),
                        forall|a: int, b: int|
                            0 <= a < b < i ==> (#[trigger] v@[a].prefix@)[0] < (
                            #[trigger] v@[b].prefix@)[0],
                    decreases v.len() - i,
                {
                    if !v[i].check_wf() {
                        proof {
                            if kids_wf(v@, 0) {
                                lemma_kids_wf_all(v@, 0);
                            }
                        }
                        return false;
                    }
                    if v[i].prefix.is_empty() {
                        proof {
                            if kids_wf(v@, 0) {
                                lemma_kids_wf_all(v@, 0);
                            }
                        }
                        return false;
                    }
                    if v[i].is_empty() {
                        proof {
                            if kids_wf(v@, 0) {
                                lemma_kids_wf_all(v@, 0);
                            }
                        }
                        return false;
                    }
                    if i > 0 {
                        if v[i - 1].prefix.first() >= v[i].prefix.first() {
                            // A witness pair against the sibling order.
                            return false;
                        }
                    }
                    proof {
                        assert forall|a: int, b: int| 0 <= a < b < i + 1 implies (
                        #[trigger] v@[a].prefix@)[0] < (#[trigger] v@[b].prefix@)[0] by {
                            if b == i && a < i - 1 {
                                assert(v@[a].prefix@[0] < v@[i - 1].prefix@[0]);
                            }
                        }
                    }
                    i = i + 1;
                }
                proof {
                    lemma_kids_wf_from_all(v@, 0);
                }
                true
            },
        }
    }

    /// The root of an empty tree: empty prefix, no value, no children.
    pub fn empty() -> (r: Self)
        ensures
            node_wf(r),
            node_canonical_root(r),
            node_entries(r) == Seq::<(Seq<u8>, Seq<u8>)>::empty(),
            node_is_empty(r),
            r.prefix@ == Seq::<u8>::empty(),
    {
        let r = TreeNode {
            prefix: TreePrefix::empty(),
            value: TreeValue::none(),
            children: TreeChildren::empty(),
        };
        proof {
            assert(node_entries(r) =~= Seq::<(Seq<u8>, Seq<u8>)>::empty());
        }
        r
    }

    /// A node holding one value under the empty key.
    pub fn leaf(value: &[u8]) -> (r: Self)
        ensures
            node_wf(r),
            node_canonical_root(r),
            node_entries(r) == seq![(Seq::<u8>::empty(), value@)],
            r.prefix@ == Seq::<u8>::empty(),
    {
        let r = TreeNode {
            prefix: TreePrefix::empty(),
            value: TreeValue::from_slice(value),
            children: TreeChildren::empty(),
        };
        proof {
            assert(node_entries(r) =~= seq![(Seq::<u8>::empty(), value@)]);
        }
        r
    }

    /// A node holding exactly one key-value pair.
    pub fn single(key: &[u8], value: &[u8]) -> (r: Self)
        ensures
            node_wf(r),
            node_canonical_root(r),
            node_entries(r) == seq![(key@, value@)],
            r.prefix@ == key@,
    {
        let r = TreeNode {
            prefix: TreePrefix::from_slice(key),
            value: TreeValue::from_slice(value),
            children: TreeChildren::empty(),
        };
        proof {
            assert(key@ + Seq::<u8>::empty() =~= key@);
            assert(node_entries(r) =~= seq![(key@, value@)]);
        }
        r
    }

    /// A node assembled from a prefix, an optional value, and children that
    /// are already in canonical sibling order.
    pub fn new(key: &[u8], value: Option<&[u8]>, children: Vec<TreeNode>) -> (r: Self)
        requires
            kids_wf(children@, 0),
            kids_sorted(children@),
        ensures
            node_wf(r),
            r.prefix@ == key@,
            r.value.opt() == (match value {
                Some(v) => Some(v@),
                None => None::<Seq<u8>>,
            }),
            kids(r) == children@,
            node_entries(r) == prepend_keys(
                key@,
                (match value {
                    Some(v) => seq![(Seq::<u8>::empty(), v@)],
                    None => Seq::empty(),
                }) + kids_entries(children@, 0),
            ),
    {
        let v = match value {
            Some(bytes) => TreeValue::from_slice(bytes),
            None => TreeValue::none(),
        };
        let r = TreeNode {
            prefix: TreePrefix::from_slice(key),
            value: v,
            children: TreeChildren::from_vec(children),
        };
        r
    }

    /// A copy of this node, slot by slot.
    pub fn deep_clone(&self) -> (r: Self)
        ensures
            node_mirror(*self, r),
        decreases *self,
    {
        TreeNode {
            prefix: self.prefix.duplicate(),
            value: self.value.duplicate(),
            children: self.children.duplicate(),
        }
    }

    /// This node with the first `cnt` bytes of its prefix peeled off, its
    /// value and children copied: the form a node takes when it becomes a
    /// child of a node holding those `cnt` bytes.
    pub fn detached_shortened(&self, cnt: usize) -> (r: Self)
        requires
            self.prefix.is_resident(),
            cnt <= self.prefix@.len(),
        ensures
            r.prefix@ == self.prefix@.skip(cnt as int),
            r.prefix.is_resident(),
            r.value.is_resident() == self.value.is_resident(),
            r.value.is_resident() ==> r.value.opt() == self.value.opt(),
            node_resident(*self) ==> node_under(r) == node_under(*self),
            node_wf(*self) ==> node_wf(r),
            node_resident(*self) ==> node_resident(r),
            node_is_empty(r) == node_is_empty(*self),
            node_resident(*self) ==> node_entries(r) == prepend_keys(
                self.prefix@.skip(cnt as int),
                node_under(*self),
            ),
            node_size(r) == node_size(*self),
    {
        let b = self.prefix.bytes();
        let suffix = vstd::slice::slice_to_vec(vstd::slice::slice_subrange(
            b.as_slice(),
            cnt,
            b.len(),
        ));
        let twin = TreeNode {
            prefix: TreePrefix::from_vec(suffix),
            value: self.value.duplicate(),
            children: self.children.duplicate(),
        };
        proof {
            lemma_shorten_model(*self, twin);
        }
        twin
    }

    /// Merge this node with its only child as long as it carries no value
    /// of its own: the path-compression step. The entries are unchanged,
    /// and the result never pairs an absent value with exactly one child.
    pub fn unsplit(&mut self)
        requires
            node_wf(*old(self)),
        ensures
            node_wf(*final(self)),
            node_entries(*final(self)) == node_entries(*old(self)),
            node_is_empty(*final(self)) ==> node_is_empty(*old(self)),
            !(final(self).value.opt() is None && kids(*final(self)).len() == 1),
    {
        #[verifier::loop_isolation(false)]
        loop
            invariant
                node_wf(*self),
                node_entries(*self) == node_entries(*old(self)),
                node_is_empty(*self) ==> node_is_empty(*old(self)),
            decreases node_size(*self),
        {
            let single_child = match &self.children.kids {
                Kids::Owned(v) => v.len() == 1,
                _ => false,
            };
            if !(self.value.is_none() && single_child) {
                return ;
            }
            let ghost pre_step = *self;
            let mut taken = TreeChildren { kids: Kids::Empty };
            core::mem::swap(&mut self.children, &mut taken);
            match taken.kids {
                Kids::Owned(mut v) => {
                    let ghost kid_seq = v@;
                    let child = match v.pop() {
                        Some(c) => c,
                        None => vstd::pervasive::unreached(),
                    };
                    proof {
                        assert(child == kid_seq[0]);
                        lemma_kids_wf_all(kid_seq, 0);
                    }
                    let mut p = copy_bytes(self.prefix.bytes());
                    append_bytes(&mut p, child.prefix.bytes().as_slice());
                    let ghost oldp = self.prefix@;
                    self.prefix = TreePrefix::from_vec(p);
                    self.value = child.value;
                    self.children = child.children;
                    proof {
                        let c = kid_seq[0];
                        assert(kids_entries(kid_seq, 1) =~= Seq::<(Seq<u8>, Seq<u8>)>::empty());
                        assert(node_under(pre_step) =~= node_entries(c));
                        assert(node_under(*self) =~= node_under(c));
                        lemma_prepend_compose(oldp, c.prefix@, node_under(c));
                        assert(self.prefix@ =~= oldp + c.prefix@);
                        assert(node_entries(*self) =~= node_entries(pre_step));
                        assert(kids_size(kid_seq, 1) == 0);
                        assert(kids_size(kid_seq, 0) == node_size(c));
                        assert(node_size(*self) == node_size(c));
                        assert(node_size(*self) < node_size(pre_step));
                    }
                },
                _ => {
                    proof {
                        assert(false);
                    }
                },
            }
        }
    }

    /// The value under the smallest key of this subtree, if any.
    pub fn first_value(&self) -> (r: Option<Vec<u8>>)
        requires
            node_wf(*self),
        ensures
            (match r {
                Some(v) => node_entries(*self).len() > 0 && v@ == node_entries(*self)[0].1,
                None => node_entries(*self).len() == 0,
            }),
        decreases *self,
    {
        proof {
            lemma_node_entries_wf(*self);
        }
        if self.value.is_some() {
            self.value.value_opt()
        } else {
            match &self.children.kids {
                Kids::Owned(v) => {
                    if v.len() > 0 {
                        proof {
                            lemma_kids_wf_all(v@, 0);
                            lemma_node_entries_wf(v@[0]);
                            lemma_kids_entries_wf(v@, 0);
                            assert(node_entries(*self)[0] == (self.prefix@ + kids_entries(v@, 0)[0].0,
                                kids_entries(v@, 0)[0].1));
                            assert(kids_entries(v@, 0)[0] == node_entries(v@[0])[0]);
                        }
                        let r = v[0].first_value();
                        r
                    } else {
                        None
                    }
                },
                _ => None,
            }
        }
    }

    /// The value under the largest key of this subtree, if any.
    pub fn last_value(&self) -> (r: Option<Vec<u8>>)
        requires
            node_wf(*self),
        ensures
            (match r {
                Some(v) => node_entries(*self).len() > 0 && v@ == node_entries(*self).last().1,
                None => node_entries(*self).len() == 0,
            }),
        decreases *self,
    {
        proof {
            lemma_node_entries_wf(*self);
        }
        match &self.children.kids {
            Kids::Owned(v) => {
                if v.len() > 0 {
                    proof {
                        lemma_kids_wf_all(v@, 0);
                        lemma_kids_entries_last(v@, 0);
                        let ce = kids_entries(v@, 0);
                        assert(node_entries(*self).last() == (self.prefix@ + node_under(
                            *self,
                        ).last().0, node_under(*self).last().1));
                        assert(node_under(*self).last() == ce.last());
                    }
                    let r = v[v.len() - 1].last_value();
                    r
                } else {
                    self.value.value_opt()
                }
            },
            _ => self.value.value_opt(),
        }
    }

    /// The smallest key of this subtree appended to `acc`, with its value.
    pub fn first_entry(&self, acc: Vec<u8>) -> (r: Option<(Vec<u8>, Vec<u8>)>)
        requires
            node_wf(*self),
        ensures
            (match r {
                Some(kv) => node_entries(*self).len() > 0 && kv.0@ == acc@ + node_entries(
                    *self,
                )[0].0 && kv.1@ == node_entries(*self)[0].1,
                None => node_entries(*self).len() == 0,
            }),
        decreases *self,
    {
        proof {
            lemma_node_entries_wf(*self);
        }
        let mut path = acc;
        append_bytes(&mut path, self.prefix.bytes().as_slice());
        if self.value.is_some() {
            match self.value.value_opt() {
                Some(v) => Some((path, v)),
                None => vstd::pervasive::unreached(),
            }
        } else {
            match &self.children.kids {
                Kids::Owned(v) => {
                    if v.len() > 0 {
                        proof {
                            lemma_kids_wf_all(v@, 0);
                            lemma_node_entries_wf(v@[0]);
                            lemma_kids_entries_wf(v@, 0);
                            assert(node_entries(*self)[0] == (self.prefix@ + kids_entries(v@, 0)[0].0,
                                kids_entries(v@, 0)[0].1));
                            assert(kids_entries(v@, 0)[0] == node_entries(v@[0])[0]);
                        }
                        let r = v[0].first_entry(path);
                        proof {
                            assert((acc@ + self.prefix@) + node_entries(v@[0])[0].0 =~= acc@ + (
                            self.prefix@ + node_entries(v@[0])[0].0));
                        }
                        r
                    } else {
                        None
                    }
                },
                _ => None,
            }
        }
    }

    /// The largest key of this subtree appended to `acc`, with its value.
    pub fn last_entry(&self, acc: Vec<u8>) -> (r: Option<(Vec<u8>, Vec<u8>)>)
        requires
            node_wf(*self),
        ensures
            (match r {
                Some(kv) => node_entries(*self).len() > 0 && kv.0@ == acc@ + node_entries(
                    *self,
                ).last().0 && kv.1@ == node_entries(*self).last().1,
                None => node_entries(*self).len() == 0,
            }),
        decreases *self,
    {
        proof {
            lemma_node_entries_wf(*self);
        }
        let mut path = acc;
        append_bytes(&mut path, self.prefix.bytes().as_slice());
        match &self.children.kids {
            Kids::Owned(v) => {
                if v.len() > 0 {
                    proof {
                        lemma_kids_wf_all(v@, 0);
                        lemma_kids_entries_last(v@, 0);
                        let ce = kids_entries(v@, 0);
                        assert(node_entries(*self).last() == (self.prefix@ + node_under(
                            *self,
                        ).last().0, node_under(*self).last().1));
                        assert(node_under(*self).last() == ce.last());
                    }
                    let last = v.len() - 1;
                    let r = v[last].last_entry(path);
                    proof {
                        assert((acc@ + self.prefix@) + node_entries(v@[v@.len() - 1]).last().0
                            =~= acc@ + (self.prefix@ + node_entries(v@[v@.len() - 1]).last().0));
                    }
                    r
                } else {
                    match self.value.value_opt() {
                        Some(val) => {
                            proof {
                                assert(node_entries(*self)[0].0 =~= self.prefix@);
                                assert(path@ =~= acc@ + self.prefix@);
                            }
                            Some((path, val))
                        },
                        None => None,
                    }
                }
            },
            _ => {
                match self.value.value_opt() {
                    Some(val) => {
                        proof {
                            assert(node_entries(*self)[0].0 =~= self.prefix@);
                            assert(path@ =~= acc@ + self.prefix@);
                        }
                        Some((path, val))
                    },
                    None => None,
                }
            },
        }
    }
}

/// The mirror facts carried over to a node whose prefix alone was replaced.
pub proof fn lemma_shorten_model(orig: TreeNode, twin: TreeNode)
    requires
        same_ref(orig.value.r, twin.value.r),
        twin.prefix.is_resident(),
        match (orig.children.kids, twin.children.kids) {
            (Kids::Empty, Kids::Empty) => true,
            (Kids::Stored(x), Kids::Stored(y)) => x == y,
            (Kids::Owned(x), Kids::Owned(y)) => kids_mirror(x@, y@, 0),
            _ => false,
        },
    ensures
        twin.value.is_resident() == orig.value.is_resident(),
        twin.value.is_resident() ==> twin.value.opt() == orig.value.opt(),
        node_resident(orig) ==> node_under(twin) == node_under(orig),
        node_is_empty(twin) == node_is_empty(orig),
        node_wf(orig) ==> node_wf(twin),
        node_resident(orig) ==> node_resident(twin),
        node_resident(orig) ==> node_entries(twin) == prepend_keys(twin.prefix@, node_under(orig)),
        node_size(twin) == node_size(orig),
{
    let ghost_twin = TreeNode { prefix: orig.prefix, value: twin.value, children: twin.children };
    assert(node_mirror(orig, ghost_twin));
    lemma_mirror_node(orig, ghost_twin);
    assert(node_under(twin) == node_under(ghost_twin));
    assert(kids(twin) == kids(ghost_twin));
    assert(node_is_empty(twin) == node_is_empty(ghost_twin));
    if node_wf(orig) {
        assert(node_wf(ghost_twin));
        assert(node_wf(twin));
    }
    if node_resident(orig) {
        assert(node_resident(ghost_twin));
        assert(node_resident(twin));
    }
}

} // verus!
