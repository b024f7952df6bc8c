//! The in-place sequence builder: one buffer split into a finished target
//! region, a gap of free space, and an unconsumed source region, so that a
//! sequence of tagged slots can be rewritten in place. Slots move from the
//! source to the target unchanged (`forward`), are discarded (`drop`), are
//! undone (`rewind`), or fresh slots are written into the gap. A typed
//! cursor sequences the three slots of a node triple: prefix, then value,
//! then children.

use vstd::prelude::*;

use crate::encoding::{
    enc_node, enc_slot, header_byte, make_header_byte, node_serializable, slot_serializable,
    u64_be_bytes, TAG_ABSENT, TAG_INLINE, TAG_STORED,
};
use crate::flexref::{FlexData, FlexRef};
use crate::node::{Kids, TreeNode};

verus! {

/// The length of the slot starting at the head of `s`, header byte included;
/// zero when no complete slot is there.
pub open spec fn head_slot_len(s: Seq<u8>) -> int {
    if s.len() == 0 {
        0
    } else {
        1 + (s[0] % 64)
    }
}

/// How many complete tagged slots the byte string holds, stopping at a
/// truncated tail.
pub open spec fn slot_count(s: Seq<u8>) -> nat
    decreases s.len(),
{
    if s.len() == 0 {
        0
    } else if head_slot_len(s) > s.len() {
        0
    } else {
        1 + slot_count(s.skip(head_slot_len(s)))
    }
}

/// A builder over one buffer: `[0, t1)` holds the finished target, `[t1,
/// s0)` is free space, and `[s0, len)` holds the unconsumed source.
pub struct InPlaceFlexRefSeqBuilder {
    pub vec: Vec<u8>,
    pub t1: usize,
    pub s0: usize,
}

impl InPlaceFlexRefSeqBuilder {
    /// The regions are in order within the buffer.
    pub open spec fn wf(&self) -> bool {
        self.t1 <= self.s0 <= self.vec@.len()
    }

    /// The finished output.
    pub open spec fn target(&self) -> Seq<u8> {
        self.vec@.take(self.t1 as int)
    }

    /// The unconsumed input.
    pub open spec fn source(&self) -> Seq<u8> {
        self.vec@.skip(self.s0 as int)
    }

    /// Take over a buffer; everything in it is source.
    pub fn new(vec: Vec<u8>) -> (r: Self)
        ensures
            r.wf(),
            r.target() == Seq::<u8>::empty(),
            r.source() == vec@,
            r.t1 == 0 && r.s0 == 0,
    {
        let r = InPlaceFlexRefSeqBuilder { vec, t1: 0, s0: 0 };
        proof {
            assert(r.target() =~= Seq::<u8>::empty());
            assert(r.source() =~= r.vec@);
        }
        r
    }

    /// The free space between target and source.
    pub fn gap(&self) -> (r: usize)
        requires
            self.wf(),
        ensures
            r == self.s0 - self.t1,
    {
        self.s0 - self.t1
    }

    /// Whether any source remains.
    pub fn has_remaining(&self) -> (r: bool)
        requires
            self.wf(),
        ensures
            r == (self.source().len() > 0),
    {
        self.s0 < self.vec.len()
    }

    /// The finished output.
    pub fn target_slice(&self) -> (r: &[u8])
        requires
            self.wf(),
        ensures
            r@ == self.target(),
    {
        vstd::slice::slice_subrange(self.vec.as_slice(), 0, self.t1)
    }

    /// The unconsumed input.
    pub fn source_slice(&self) -> (r: &[u8])
        requires
            self.wf(),
        ensures
            r@ == self.source(),
    {
        vstd::slice::slice_subrange(self.vec.as_slice(), self.s0, self.vec.len())
    }

    /// How many complete slots the source still holds.
    pub fn source_count(&self) -> (r: usize)
        requires
            self.wf(),
        ensures
            r == slot_count(self.source()),
    {
        count_slots(self.source_slice())
    }

    /// How many complete slots the target holds.
    pub fn target_count(&self) -> (r: usize)
        requires
            self.wf(),
        ensures
            r == slot_count(self.target()),
    {
        count_slots(self.target_slice())
    }

    /// How many complete slots both regions hold together.
    pub fn total_count(&self) -> (r: usize)
        requires
            self.wf(),
            slot_count(self.source()) + slot_count(self.target()) <= usize::MAX,
        ensures
            r == slot_count(self.source()) + slot_count(self.target()),
    {
        self.source_count() + self.target_count()
    }

    /// Copy `n` bytes from the head of the source to the end of the target:
    /// keep them in the output unchanged.
    pub fn forward(&mut self, n: usize)
        requires
            old(self).wf(),
            n <= old(self).source().len(),
        ensures
            final(self).wf(),
            final(self).target() == old(self).target() + old(self).source().take(n as int),
            final(self).source() == old(self).source().skip(n as int),
            final(self).vec@.len() == old(self).vec@.len(),
    {
        proof {
            assert(old(self).source().len() == old(self).vec@.len() - old(self).s0);
        }
        let len = self.vec.len();
        let ghost pre = *self;
        let mut i: usize = 0;
        #[verifier::loop_isolation(false)]
        while i < n
            invariant
                i <= n,
                self.t1 == pre.t1,
                self.s0 == pre.s0,
                self.vec@.len() == len,
                self.vec@.len() == pre.vec@.len(),
                pre.s0 + n <= pre.vec@.len(),
                forall|j: int| 0 <= j < self.t1 ==> #[trigger] self.vec@[j] == pre.vec@[j],
                forall|j: int|
                    pre.t1 <= j < pre.t1 + i ==> #[trigger] self.vec@[j] == pre.vec@[j - pre.t1
                        + pre.s0],
                forall|j: int|
                    pre.s0 + i <= j < self.vec@.len() ==> #[trigger] self.vec@[j] == pre.vec@[j],
            decreases n - i,
        {
            let b = self.vec[self.s0 + i];
            proof {
                assert(b == pre.vec@[pre.s0 + i]);
            }
            let ghost mid = self.vec@;
            self.vec.set(self.t1 + i, b);
            proof {
                assert forall|j: int| pre.s0 + i + 1 <= j < self.vec@.len() implies
                    #[trigger] self.vec@[j] == pre.vec@[j] by {
                    assert(self.t1 + i <= pre.s0 + i);
                    assert(self.vec@[j] == mid[j]);
                }
                assert forall|j: int| pre.t1 <= j < pre.t1 + i + 1 implies #[trigger] self.vec@[j]
                    == pre.vec@[j - pre.t1 + pre.s0] by {
                    if j < pre.t1 + i {
                        assert(self.vec@[j] == mid[j]);
                    }
                }
            }
            i = i + 1;
        }
        self.t1 = self.t1 + n;
        self.s0 = self.s0 + n;
        proof {
            let want = old(self).target() + old(self).source().take(n as int);
            assert forall|j: int| 0 <= j < self.t1 implies #[trigger] self.target()[j]
                == want[j] by {
                if j < pre.t1 {
                } else {
                    assert(self.vec@[j] == pre.vec@[j - pre.t1 + pre.s0]);
                    assert(want[j] == old(self).source().take(n as int)[j - pre.t1]);
                }
            }
            assert(self.target() =~= want);
            assert(self.source() =~= old(self).source().skip(n as int));
        }
    }

    /// Give back everything after position `to` of the target: the bytes
    /// return to the head of the source, undoing speculative output.
    pub fn rewind(&mut self, to: usize)
        requires
            old(self).wf(),
            to <= old(self).t1,
        ensures
            final(self).wf(),
            final(self).target() == old(self).target().take(to as int),
            final(self).source() == old(self).target().skip(to as int) + old(self).source(),
            final(self).vec@.len() == old(self).vec@.len(),
    {
        let len = self.vec.len();
        let ghost pre = *self;
        let n = self.t1 - to;
        let mut i: usize = 0;
        #[verifier::loop_isolation(false)]
        while i < n
            invariant
                i <= n,
                self.t1 == pre.t1,
                self.s0 == pre.s0,
                self.vec@.len() == len,
                self.vec@.len() == pre.vec@.len(),
                n == pre.t1 - to,
                forall|j: int| 0 <= j < pre.t1 - i ==> #[trigger] self.vec@[j] == pre.vec@[j],
                forall|j: int|
                    pre.s0 - i <= j < pre.s0 ==> #[trigger] self.vec@[j] == pre.vec@[j - pre.s0
                        + pre.t1],
                forall|j: int|
                    pre.s0 <= j < self.vec@.len() ==> #[trigger] self.vec@[j] == pre.vec@[j],
            decreases n - i,
        {
            // Copy backward so that an overlapping move stays intact.
            let src = self.t1 - 1 - i;
            let dst = self.s0 - 1 - i;
            let b = self.vec[src];
            proof {
                assert(src < pre.t1 - i);
                assert(b == pre.vec@[to + (n - 1 - i)]);
            }
            let ghost mid = self.vec@;
            self.vec.set(dst, b);
            proof {
                assert forall|j: int| 0 <= j < pre.t1 - (i + 1) implies #[trigger] self.vec@[j]
                    == pre.vec@[j] by {
                    if j == dst as int {
                        assert(dst == src);
                    } else {
                        assert(self.vec@[j] == mid[j]);
                    }
                }
                assert forall|j: int| pre.s0 - (i + 1) <= j < pre.s0 implies
                    #[trigger] self.vec@[j] == pre.vec@[j - pre.s0 + pre.t1] by {
                    if j == dst as int {
                        assert(b == pre.vec@[src as int]);
                        assert(src as int == dst as int - pre.s0 + pre.t1);
                    } else {
                        assert(self.vec@[j] == mid[j]);
                    }
                }
                assert forall|j: int| pre.s0 <= j < self.vec@.len() implies #[trigger] self.vec@[j]
                    == pre.vec@[j] by {
                    assert(dst < pre.s0);
                    assert(self.vec@[j] == mid[j]);
                }
            }
            i = i + 1;
        }
        self.t1 = to;
        self.s0 = self.s0 - n;
        proof {
            assert(self.target() =~= old(self).target().take(to as int));
            let want = old(self).target().skip(to as int) + old(self).source();
            assert forall|j: int| 0 <= j < want.len() implies #[trigger] self.source()[j]
                == want[j] by {
                assert(self.source()[j] == self.vec@[self.s0 + j]);
                if j < n {
                    assert(self.vec@[pre.s0 - n + j] == pre.vec@[(pre.s0 - n + j) - pre.s0
                        + pre.t1]);
                } else {
                    assert(self.vec@[pre.s0 - n + j] == pre.vec@[pre.s0 + (j - n)]);
                }
            }
            assert(self.source() =~= want);
        }
    }

    /// Advance past `n` bytes of source without keeping them.
    pub fn drop(&mut self, n: usize)
        requires
            old(self).wf(),
            n <= old(self).source().len(),
        ensures
            final(self).wf(),
            final(self).target() == old(self).target(),
            final(self).source() == old(self).source().skip(n as int),
            final(self).vec@.len() == old(self).vec@.len(),
    {
        let len = self.vec.len();
        proof {
            assert(old(self).source().len() == len - old(self).s0);
        }
        self.s0 = self.s0 + n;
        proof {
            assert(self.target() =~= old(self).target());
            assert(self.source() =~= old(self).source().skip(n as int));
        }
    }

    /// Widen the gap by `n` bytes of free space: split the buffer at the
    /// gap's end, pad, and splice the source back on, one pass in all.
    pub fn reserve(&mut self, n: usize)
        requires
            old(self).wf(),
        ensures
            final(self).wf(),
            final(self).target() == old(self).target(),
            final(self).source() == old(self).source(),
            final(self).s0 - final(self).t1 == old(self).s0 - old(self).t1 + n,
            final(self).vec@.len() == old(self).vec@.len() + n,
    {
        let ghost pre = *self;
        let mut tail = self.vec.split_off(self.s0);
        let tail_len = tail.len();
        let mut j: usize = 0;
        #[verifier::loop_isolation(false)]
        while j < n
            invariant
                j <= n,
                self.t1 == pre.t1,
                self.s0 == pre.s0,
                tail@ == pre.vec@.subrange(pre.s0 as int, pre.vec@.len() as int),
                self.vec@.len() == pre.s0 + j,
                self.vec@.take(pre.s0 as int) == pre.vec@.subrange(0, pre.s0 as int),
            decreases n - j,
        {
            self.vec.push(0);
            proof {
                assert(self.vec@.take(pre.s0 as int) =~= pre.vec@.subrange(0, pre.s0 as int));
            }
            j = j + 1;
        }
        self.vec.append(&mut tail);
        let total = self.vec.len();
        self.s0 = total - tail_len;
        proof {
            assert(self.s0 == pre.s0 + n);
            assert(self.target() =~= pre.target()) by {
                assert forall|i: int| 0 <= i < self.t1 implies self.vec@[i] == pre.vec@[i] by {
                    assert(pre.vec@.subrange(0, pre.s0 as int)[i] == pre.vec@[i]);
                }
            }
            assert(self.source() =~= pre.source()) by {
                assert forall|k: int| self.s0 <= k < self.vec@.len() implies #[trigger] self.vec@[k]
                    == pre.vec@[k - n] by {
                    assert(pre.vec@.subrange(pre.s0 as int, pre.vec@.len() as int)[k - self.s0]
                        == pre.vec@[k - n]);
                }
            }
        }
    }

    /// Write one byte at the end of the target, into the gap.
    pub fn push(&mut self, b: u8)
        requires
            old(self).wf(),
        ensures
            final(self).wf(),
            final(self).target() == old(self).target().push(b),
            final(self).source() == old(self).source(),
            final(self).vec@.len() <= old(self).vec@.len() + 1,
    {
        if self.s0 == self.t1 {
            self.reserve(1);
        }
        let ghost mid = *self;
        self.vec.set(self.t1, b);
        self.t1 = self.t1 + 1;
        proof {
            assert(self.target() =~= old(self).target().push(b));
            assert(self.source() =~= old(self).source());
        }
    }

    /// Write bytes at the end of the target.
    pub fn extend_from_slice(&mut self, data: &[u8])
        requires
            old(self).wf(),
        ensures
            final(self).wf(),
            final(self).target() == old(self).target() + data@,
            final(self).source() == old(self).source(),
            final(self).vec@.len() <= old(self).vec@.len() + data@.len(),
    {
        let mut i: usize = 0;
        #[verifier::loop_isolation(false)]
        while i < data.len()
            invariant
                i <= data@.len(),
                self.wf(),
                self.target() == old(self).target() + data@.take(i as int),
                self.source() == old(self).source(),
                self.vec@.len() <= old(self).vec@.len() + i,
            decreases data@.len() - i,
        {
            self.push(*vstd::slice::slice_index_get(data, i));
            proof {
                assert((old(self).target() + data@.take(i as int)).push(data@[i as int])
                    =~= old(self).target() + data@.take(i + 1));
            }
            i = i + 1;
        }
        proof {
            assert(data@.take(i as int) =~= data@);
        }
    }

    /// Take the finished output out, discarding the gap; the source must be
    /// fully consumed.
    pub fn into_inner(self) -> (r: Vec<u8>)
        requires
            self.wf(),
            self.source().len() == 0,
        ensures
            r@ == self.target(),
    {
        let mut v = self.vec;
        v.truncate(self.t1);
        proof {
            assert(v@ =~= self.target());
        }
        v
    }
}

/// How many complete tagged slots a byte string holds.
pub fn count_slots(bytes: &[u8]) -> (r: usize)
    ensures
        r == slot_count(bytes@),
{
    let mut pos: usize = 0;
    let mut n: usize = 0;
    proof {
        assert(bytes@.skip(0) =~= bytes@);
    }
    #[verifier::loop_isolation(false)]
    while pos < bytes.len()
        invariant
            pos <= bytes@.len(),
            n <= pos,
            slot_count(bytes@) == n + slot_count(bytes@.skip(pos as int)),
        decreases bytes@.len() - pos,
    {
        let ghost rest = bytes@.skip(pos as int);
        let header = *vstd::slice::slice_index_get(bytes, pos);
        let l = 1 + (header % 64) as usize;
        proof {
            assert(rest[0] == bytes@[pos as int]);
            assert(head_slot_len(rest) == l);
        }
        if l > bytes.len() - pos {
            proof {
                assert(slot_count(rest) == 0);
            }
            return n;
        }
        proof {
            assert(rest.skip(l as int) =~= bytes@.skip(pos + l));
            assert(slot_count(rest) == 1 + slot_count(bytes@.skip(pos + l)));
        }
        pos = pos + l;
        n = n + 1;
    }
    proof {
        assert(bytes@.skip(pos as int) =~= Seq::<u8>::empty());
    }
    n
}

/// The cursor is at the prefix slot of a triple.
pub struct AtPrefix;

/// The cursor is at the value slot of a triple.
pub struct AtValue;

/// The cursor is at the children slot of a triple.
pub struct AtChildren;

/// A typed cursor over an in-place builder: the type parameter sequences the
/// prefix, value, children protocol of one node triple statically.
#[verifier::reject_recursive_types(P)]
pub struct InPlaceBuilderRef<'a, P> {
    pub b: &'a mut InPlaceFlexRefSeqBuilder,
    pub marker: core::marker::PhantomData<P>,
}

/// No complete slot sits at the head of the source: it is empty or its head
/// slot is truncated. The cursor operations fail exactly here.
pub open spec fn source_headless(b: InPlaceFlexRefSeqBuilder) -> bool {
    b.source().len() == 0 || head_slot_len(b.source()) > b.source().len()
}

/// The length of the complete slot at the head of the source, when one is
/// there.
fn source_head_len(b: &InPlaceFlexRefSeqBuilder) -> (r: Option<usize>)
    requires
        b.wf(),
    ensures
        r is Some <==> !source_headless(*b),
        (match r {
            Some(l) => l == head_slot_len(b.source()) && 0 < l <= b.source().len(),
            None => source_headless(*b),
        }),
{
    let s = b.source_slice();
    if s.len() == 0 {
        return None;
    }
    let l = 1 + (*vstd::slice::slice_index_get(s, 0) % 64) as usize;
    if l <= s.len() {
        Some(l)
    } else {
        None
    }
}

impl<'a, P> InPlaceBuilderRef<'a, P> {
    /// The builder under the cursor.
    pub open spec fn inner(&self) -> InPlaceFlexRefSeqBuilder {
        *self.b
    }

    /// The header byte of the slot at the head of the source.
    pub fn peek(&self) -> (r: Option<u8>)
        requires
            self.inner().wf(),
        ensures
            (match r {
                Some(h) => self.inner().source().len() > 0 && h == self.inner().source()[0],
                None => self.inner().source().len() == 0,
            }),
    {
        let s = self.b.source_slice();
        if s.len() == 0 {
            None
        } else {
            Some(*vstd::slice::slice_index_get(s, 0))
        }
    }

    /// Advance past the slot at the head of the source without keeping it.
    pub fn drop_current(&mut self) -> (r: Result<(), crate::store::StoreError>)
        requires
            old(self).inner().wf(),
        ensures
            final(self).inner().wf(),
            r is Err <==> source_headless(old(self).inner()),
            (match r {
                Ok(()) => final(self).inner().target() == old(self).inner().target()
                    && final(self).inner().source() == old(self).inner().source().skip(
                    head_slot_len(old(self).inner().source()),
                ),
                Err(_) => final(self).inner() == old(self).inner(),
            }),
    {
        match source_head_len(self.b) {
            Some(l) => {
                self.b.drop(l);
                Ok(())
            },
            None => Err(crate::store::StoreError::MalformedEncoding),
        }
    }

    /// The position of the end of the target, to rewind to.
    pub fn mark(&self) -> (r: usize)
        requires
            self.inner().wf(),
        ensures
            r == self.inner().target().len(),
    {
        self.b.target_slice().len()
    }
}

impl<'a> InPlaceBuilderRef<'a, AtPrefix> {
    /// A cursor at the start of a triple.
    pub fn at_prefix(b: &'a mut InPlaceFlexRefSeqBuilder) -> (r: Self)
        ensures
            r.inner() == *old(b),
    {
        InPlaceBuilderRef { b, marker: core::marker::PhantomData }
    }

    /// Keep the prefix slot at the head of the source unchanged.
    pub fn move_prefix(self) -> (r: Result<InPlaceBuilderRef<'a, AtValue>, crate::store::StoreError>)
        requires
            self.inner().wf(),
        ensures
            r is Err <==> source_headless(self.inner()),
            (match r {
                Ok(c) => c.inner().wf() && c.inner().target() == self.inner().target()
                    + self.inner().source().take(head_slot_len(self.inner().source()))
                    && c.inner().source() == self.inner().source().skip(
                    head_slot_len(self.inner().source()),
                ),
                Err(_) => true,
            }),
    {
        let b = self.b;
        match source_head_len(b) {
            Some(l) => {
                b.forward(l);
                Ok(InPlaceBuilderRef { b, marker: core::marker::PhantomData })
            },
            None => Err(crate::store::StoreError::MalformedEncoding),
        }
    }

    /// Replace the prefix slot at the head of the source with the given
    /// bytes, written inline.
    pub fn push_prefix_ref(self, prefix: &[u8]) -> (r: Result<
        InPlaceBuilderRef<'a, AtValue>,
        crate::store::StoreError,
    >)
        requires
            self.inner().wf(),
            prefix@.len() < 64,
        ensures
            r is Err <==> source_headless(self.inner()),
            (match r {
                Ok(c) => c.inner().wf() && c.inner().target() == self.inner().target() + seq![
                    header_byte(TAG_INLINE, prefix@.len()),
                ] + prefix@ && c.inner().source() == self.inner().source().skip(
                    head_slot_len(self.inner().source()),
                ),
                Err(_) => true,
            }),
    {
        let b = self.b;
        match source_head_len(b) {
            Some(l) => {
                b.drop(l);
                b.push(make_header_byte(TAG_INLINE, prefix.len()));
                b.extend_from_slice(prefix);
                proof {
                    assert(b.target() =~= self.inner().target() + seq![
                        header_byte(TAG_INLINE, prefix@.len()),
                    ] + prefix@);
                }
                Ok(InPlaceBuilderRef { b, marker: core::marker::PhantomData })
            },
            None => Err(crate::store::StoreError::MalformedEncoding),
        }
    }

    /// Write a fresh prefix slot without consuming the source: used when a
    /// whole triple is spliced in.
    pub fn insert_converted(self, prefix: &FlexRef) -> (r: InPlaceBuilderRef<'a, AtValue>)
        requires
            self.inner().wf(),
            slot_serializable(*prefix),
            !prefix.spec_is_none(),
        ensures
            r.inner().wf(),
            r.inner().target() == self.inner().target() + enc_slot(*prefix),
            r.inner().source() == self.inner().source(),
    {
        let b = self.b;
        push_slot_into(b, prefix);
        InPlaceBuilderRef { b, marker: core::marker::PhantomData }
    }
}

impl<'a> InPlaceBuilderRef<'a, AtValue> {
    /// Keep the value slot at the head of the source unchanged.
    pub fn move_value(self) -> (r: Result<
        InPlaceBuilderRef<'a, AtChildren>,
        crate::store::StoreError,
    >)
        requires
            self.inner().wf(),
        ensures
            r is Err <==> source_headless(self.inner()),
            (match r {
                Ok(c) => c.inner().wf() && c.inner().target() == self.inner().target()
                    + self.inner().source().take(head_slot_len(self.inner().source()))
                    && c.inner().source() == self.inner().source().skip(
                    head_slot_len(self.inner().source()),
                ),
                Err(_) => true,
            }),
    {
        let b = self.b;
        match source_head_len(b) {
            Some(l) => {
                b.forward(l);
                Ok(InPlaceBuilderRef { b, marker: core::marker::PhantomData })
            },
            None => Err(crate::store::StoreError::MalformedEncoding),
        }
    }

    /// Replace the value slot at the head of the source with an absent one.
    pub fn push_value_none(self) -> (r: Result<
        InPlaceBuilderRef<'a, AtChildren>,
        crate::store::StoreError,
    >)
        requires
            self.inner().wf(),
        ensures
            r is Err <==> source_headless(self.inner()),
            (match r {
                Ok(c) => c.inner().wf() && c.inner().target() == self.inner().target().push(
                    header_byte(TAG_ABSENT, 0),
                ) && c.inner().source() == self.inner().source().skip(
                    head_slot_len(self.inner().source()),
                ),
                Err(_) => true,
            }),
    {
        let b = self.b;
        match source_head_len(b) {
            Some(l) => {
                b.drop(l);
                b.push(0);
                Ok(InPlaceBuilderRef { b, marker: core::marker::PhantomData })
            },
            None => Err(crate::store::StoreError::MalformedEncoding),
        }
    }

    /// Replace the value slot at the head of the source with the given
    /// optional bytes, written inline.
    pub fn push_value_opt(self, value: Option<&[u8]>) -> (r: Result<
        InPlaceBuilderRef<'a, AtChildren>,
        crate::store::StoreError,
    >)
        requires
            self.inner().wf(),
            (match value {
                Some(v) => v@.len() < 64,
                None => true,
            }),
        ensures
            r is Err <==> source_headless(self.inner()),
            (match r {
                Ok(c) => c.inner().wf() && c.inner().source() == self.inner().source().skip(
                    head_slot_len(self.inner().source()),
                ) && c.inner().target() == self.inner().target() + (match value {
                    Some(v) => seq![header_byte(TAG_INLINE, v@.len())] + v@,
                    None => seq![header_byte(TAG_ABSENT, 0)],
                }),
                Err(_) => true,
            }),
    {
        let b = self.b;
        match source_head_len(b) {
            Some(l) => {
                b.drop(l);
                match value {
                    Some(v) => {
                        b.push(make_header_byte(TAG_INLINE, v.len()));
                        b.extend_from_slice(v);
                        proof {
                            assert(b.target() =~= self.inner().target() + (seq![
                                header_byte(TAG_INLINE, v@.len()),
                            ] + v@));
                        }
                    },
                    None => {
                        b.push(0);
                        proof {
                            assert(b.target() =~= self.inner().target() + seq![
                                header_byte(TAG_ABSENT, 0),
                            ]);
                        }
                    },
                }
                Ok(InPlaceBuilderRef { b, marker: core::marker::PhantomData })
            },
            None => Err(crate::store::StoreError::MalformedEncoding),
        }
    }

    /// Replace the value slot at the head of the source with the given slot.
    pub fn push_converted(self, value: &FlexRef) -> (r: Result<
        InPlaceBuilderRef<'a, AtChildren>,
        crate::store::StoreError,
    >)
        requires
            self.inner().wf(),
            slot_serializable(*value),
        ensures
            r is Err <==> source_headless(self.inner()),
            (match r {
                Ok(c) => c.inner().wf() && c.inner().target() == self.inner().target() + enc_slot(
                    *value,
                ) && c.inner().source() == self.inner().source().skip(
                    head_slot_len(self.inner().source()),
                ),
                Err(_) => true,
            }),
    {
        let b = self.b;
        match source_head_len(b) {
            Some(l) => {
                b.drop(l);
                push_slot_into(b, value);
                Ok(InPlaceBuilderRef { b, marker: core::marker::PhantomData })
            },
            None => Err(crate::store::StoreError::MalformedEncoding),
        }
    }

    /// Write a fresh value slot without consuming the source.
    pub fn insert_converted(self, value: &FlexRef) -> (r: InPlaceBuilderRef<'a, AtChildren>)
        requires
            self.inner().wf(),
            slot_serializable(*value),
        ensures
            r.inner().wf(),
            r.inner().target() == self.inner().target() + enc_slot(*value),
            r.inner().source() == self.inner().source(),
    {
        let b = self.b;
        push_slot_into(b, value);
        InPlaceBuilderRef { b, marker: core::marker::PhantomData }
    }
}

impl<'a> InPlaceBuilderRef<'a, AtChildren> {
    /// Keep the children slot at the head of the source unchanged.
    pub fn move_children(self) -> (r: Result<
        InPlaceBuilderRef<'a, AtPrefix>,
        crate::store::StoreError,
    >)
        requires
            self.inner().wf(),
        ensures
            r is Err <==> source_headless(self.inner()),
            (match r {
                Ok(c) => c.inner().wf() && c.inner().target() == self.inner().target()
                    + self.inner().source().take(head_slot_len(self.inner().source()))
                    && c.inner().source() == self.inner().source().skip(
                    head_slot_len(self.inner().source()),
                ),
                Err(_) => true,
            }),
    {
        let b = self.b;
        match source_head_len(b) {
            Some(l) => {
                b.forward(l);
                Ok(InPlaceBuilderRef { b, marker: core::marker::PhantomData })
            },
            None => Err(crate::store::StoreError::MalformedEncoding),
        }
    }

    /// Replace the children slot at the head of the source with an empty one.
    pub fn push_empty(self) -> (r: Result<
        InPlaceBuilderRef<'a, AtPrefix>,
        crate::store::StoreError,
    >)
        requires
            self.inner().wf(),
        ensures
            r is Err <==> source_headless(self.inner()),
            (match r {
                Ok(c) => c.inner().wf() && c.inner().target() == self.inner().target().push(
                    header_byte(TAG_ABSENT, 0),
                ) && c.inner().source() == self.inner().source().skip(
                    head_slot_len(self.inner().source()),
                ),
                Err(_) => true,
            }),
    {
        let b = self.b;
        match source_head_len(b) {
            Some(l) => {
                b.drop(l);
                b.push(0);
                Ok(InPlaceBuilderRef { b, marker: core::marker::PhantomData })
            },
            None => Err(crate::store::StoreError::MalformedEncoding),
        }
    }

    /// Write a fresh children slot without consuming the source.
    pub fn insert_converted(self, children: &FlexRef) -> (r: InPlaceBuilderRef<'a, AtPrefix>)
        requires
            self.inner().wf(),
            slot_serializable(*children),
            !children.is_resident(),
        ensures
            r.inner().wf(),
            r.inner().target() == self.inner().target() + enc_slot(*children),
            r.inner().source() == self.inner().source(),
    {
        let b = self.b;
        push_slot_into(b, children);
        InPlaceBuilderRef { b, marker: core::marker::PhantomData }
    }
}

/// Write the encoding of one node triple at the end of the target: the
/// builder as the writer of wire-form sibling sequences.
pub fn push_node_into(b: &mut InPlaceFlexRefSeqBuilder, n: &TreeNode)
    requires
        old(b).wf(),
        node_serializable(*n),
    ensures
        final(b).wf(),
        final(b).target() == old(b).target() + enc_node(*n),
        final(b).source() == old(b).source(),
{
    push_slot_into(b, &n.prefix.r);
    push_slot_into(b, &n.value.r);
    match &n.children.kids {
        Kids::Empty => {
            b.push(0);
        },
        Kids::Stored(id) => {
            b.push(make_header_byte(TAG_STORED, 8));
            let x = *id;
            b.push((x >> 56) as u8);
            b.push((x >> 48) as u8);
            b.push((x >> 40) as u8);
            b.push((x >> 32) as u8);
            b.push((x >> 24) as u8);
            b.push((x >> 16) as u8);
            b.push((x >> 8) as u8);
            b.push(x as u8);
        },
        Kids::Owned(_) => {
            proof {
                assert(false);
            }
        },
    }
    proof {
        assert(b.target() =~= old(b).target() + enc_node(*n));
    }
}

/// Write the encoding of one slot at the end of the target.
fn push_slot_into(b: &mut InPlaceFlexRefSeqBuilder, r: &FlexRef)
    requires
        old(b).wf(),
        slot_serializable(*r),
    ensures
        final(b).wf(),
        final(b).target() == old(b).target() + enc_slot(*r),
        final(b).source() == old(b).source(),
{
    match &r.data {
        FlexData::Absent => {
            b.push(0);
            proof {
                assert(b.target() =~= old(b).target() + enc_slot(*r));
            }
        },
        FlexData::Resident(v) => {
            b.push(make_header_byte(TAG_INLINE, v.len()));
            b.extend_from_slice(v.as_slice());
            proof {
                assert(b.target() =~= old(b).target() + enc_slot(*r));
            }
        },
        FlexData::Stored(id) => {
            b.push(make_header_byte(TAG_STORED, 8));
            let bytes = *id;
            b.push((bytes >> 56) as u8);
            b.push((bytes >> 48) as u8);
            b.push((bytes >> 40) as u8);
            b.push((bytes >> 32) as u8);
            b.push((bytes >> 24) as u8);
            b.push((bytes >> 16) as u8);
            b.push((bytes >> 8) as u8);
            b.push(bytes as u8);
            proof {
                assert(b.target() =~= old(b).target() + enc_slot(*r));
            }
        },
    }
}

} // verus!
