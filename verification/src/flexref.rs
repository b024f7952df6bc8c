//! The tagged reference: one node field, discriminating between an absent
//! payload, bytes resident in memory, and bytes held by the backing store
//! under a 64-bit identifier.

use vstd::prelude::*;

verus! {

/// The payload of a tagged reference.
#[derive(Debug)]
pub enum FlexData {
    /// No content.
    Absent,
    /// Bytes resident in memory.
    Resident(Vec<u8>),
    /// Bytes held by the backing store under this identifier.
    Stored(u64),
}

/// A tagged reference to a byte payload. When serialized (see the `encoding`
/// module) each variant costs one header byte plus its payload.
#[derive(Debug)]
pub struct FlexRef {
    pub data: FlexData,
}

/// Two tagged references carry the same variant and the same payload, up to
/// the contents of their buffers.
pub open spec fn same_ref(a: FlexRef, b: FlexRef) -> bool {
    &&& a.spec_is_none() == b.spec_is_none()
    &&& a.is_resident() == b.is_resident()
    &&& a.is_stored() == b.is_stored()
    &&& a.is_resident() ==> a.bytes_spec() == b.bytes_spec()
    &&& a.is_stored() ==> a.id_spec() == b.id_spec()
}

impl FlexRef {
    /// The payload is absent.
    pub open spec fn spec_is_none(&self) -> bool {
        self.data is Absent
    }

    /// The payload is resident in memory.
    pub open spec fn is_resident(&self) -> bool {
        self.data is Resident
    }

    /// The payload is behind a store identifier.
    pub open spec fn is_stored(&self) -> bool {
        self.data is Stored
    }

    /// The resident bytes; meaningful only when `is_resident()`.
    pub open spec fn bytes_spec(&self) -> Seq<u8> {
        self.data->Resident_0@
    }

    /// The stored identifier; meaningful only when `is_stored()`.
    pub open spec fn id_spec(&self) -> u64 {
        self.data->Stored_0
    }

    /// The marker for an absent payload.
    pub fn none() -> (r: Self)
        ensures
            r.spec_is_none(),
    {
        FlexRef { data: FlexData::Absent }
    }

    /// An empty resident payload.
    pub fn empty() -> (r: Self)
        ensures
            r.is_resident(),
            r.bytes_spec() == Seq::<u8>::empty(),
    {
        FlexRef { data: FlexData::Resident(Vec::new()) }
    }

    /// A resident payload holding the given bytes.
    pub fn resident_from_slice(data: &[u8]) -> (r: Self)
        ensures
            r.is_resident(),
            r.bytes_spec() == data@,
    {
        FlexRef { data: FlexData::Resident(vstd::slice::slice_to_vec(data)) }
    }

    /// A resident payload taking over the given buffer.
    pub fn resident_from_vec(data: Vec<u8>) -> (r: Self)
        ensures
            r.is_resident(),
            r.bytes_spec() == data@,
    {
        FlexRef { data: FlexData::Resident(data) }
    }

    /// A payload behind the given store identifier.
    pub fn with_id(id: u64) -> (r: Self)
        ensures
            r.is_stored(),
            r.id_spec() == id,
    {
        FlexRef { data: FlexData::Stored(id) }
    }

    /// True when the payload is absent.
    pub fn is_none(&self) -> (r: bool)
        ensures
            r == self.spec_is_none(),
    {
        match self.data {
            FlexData::Absent => true,
            _ => false,
        }
    }

    /// True when the payload is present, resident or stored.
    pub fn is_some(&self) -> (r: bool)
        ensures
            r == !self.spec_is_none(),
    {
        match self.data {
            FlexData::Absent => false,
            _ => true,
        }
    }

    /// True when the payload is resident.
    pub fn is_inline(&self) -> (r: bool)
        ensures
            r == self.is_resident(),
    {
        match self.data {
            FlexData::Resident(_) => true,
            _ => false,
        }
    }

    /// True when the payload is behind a store identifier.
    pub fn is_id(&self) -> (r: bool)
        ensures
            r == self.is_stored(),
    {
        match self.data {
            FlexData::Stored(_) => true,
            _ => false,
        }
    }

    /// The resident bytes.
    pub fn inline_as_ref(&self) -> (r: Option<&Vec<u8>>)
        ensures
            match r {
                Some(v) => self.is_resident() && v@ == self.bytes_spec(),
                None => !self.is_resident(),
            },
    {
        match &self.data {
            FlexData::Resident(v) => Some(v),
            _ => None,
        }
    }

    /// The store identifier.
    pub fn id_u64(&self) -> (r: Option<u64>)
        ensures
            match r {
                Some(id) => self.is_stored() && id == self.id_spec(),
                None => !self.is_stored(),
            },
    {
        match &self.data {
            FlexData::Stored(id) => Some(*id),
            _ => None,
        }
    }

    /// A copy of this reference, carrying the same variant and payload.
    pub fn duplicate(&self) -> (r: Self)
        ensures
            same_ref(r, *self),
    {
        match &self.data {
            FlexData::Absent => FlexRef { data: FlexData::Absent },
            FlexData::Resident(v) => {
                let c: Vec<u8> = copy_bytes(v);
                assert(c@ =~= v@);
                FlexRef { data: FlexData::Resident(c) }
            },
            FlexData::Stored(id) => FlexRef { data: FlexData::Stored(*id) },
        }
    }
}

/// An exact copy of a byte buffer.
pub fn copy_bytes(v: &Vec<u8>) -> (r: Vec<u8>)
    ensures
        r@ == v@,
{
    let r = v.clone();
    assert(r@ =~= v@);
    r
}

} // verus!
