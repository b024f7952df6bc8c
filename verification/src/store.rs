//! The backing-store boundary: bytes addressed by opaque 64-bit identifiers,
//! with an in-memory store and the store-less marker for fully resident
//! trees.

use vstd::prelude::*;

use crate::flexref::copy_bytes;

verus! {

/// What can go wrong at the storage boundary.
#[derive(Clone, Copy, Debug, PartialEq, Eq)]
pub enum StoreError {
    /// A tagged-reference byte stream is corrupt or truncated; fatal.
    MalformedEncoding,
    /// The backing store could not resolve an identifier.
    StoreReadFailure,
    /// A value to be promoted into identifier form does not fit the
    /// identifier width.
    IdentifierOverflow,
}

/// A backing store: a resolver of 64-bit identifiers to byte strings, and an
/// appender that hands out fresh identifiers. The core only ever reads on
/// its own behalf; appending happens when the caller attaches a tree.
pub trait BlobStore: Sized {
    /// The identifier-to-bytes mapping the store currently holds.
    spec fn contents(&self) -> Map<u64, Seq<u8>>;

    /// Resolve an identifier. Exactly the held identifiers resolve.
    fn read(&self, id: u64) -> (r: Result<Vec<u8>, StoreError>)
        ensures
            (match r {
                Ok(v) => self.contents().contains_key(id) && v@ == self.contents()[id],
                Err(_) => !self.contents().contains_key(id),
            }),
    ;

    /// Append a byte string; on success the returned identifier is fresh and
    /// now resolves to exactly those bytes.
    fn append(&mut self, data: &[u8]) -> (r: Result<u64, StoreError>)
        ensures
            (match r {
                Ok(id) => !old(self).contents().contains_key(id) && final(self).contents() == old(
                    self,
                ).contents().insert(id, data@),
                Err(_) => final(self).contents() == old(self).contents(),
            }),
    ;
}

/// The store of a fully resident tree: it holds nothing and resolves
/// nothing, and a tree bound to it never performs a read.
pub struct NoStore;

impl BlobStore for NoStore {
    open spec fn contents(&self) -> Map<u64, Seq<u8>> {
        Map::empty()
    }

    fn read(&self, id: u64) -> (r: Result<Vec<u8>, StoreError>) {
        Err(StoreError::StoreReadFailure)
    }

    fn append(&mut self, data: &[u8]) -> (r: Result<u64, StoreError>) {
        Err(StoreError::StoreReadFailure)
    }
}

/// An in-memory backing store: identifiers are handed out densely from one.
#[derive(Debug)]
pub struct MemStore {
    blocks: Vec<Vec<u8>>,
}

impl MemStore {
    /// An empty store.
    pub fn new() -> (r: Self)
        ensures
            r.contents() == Map::<u64, Seq<u8>>::empty(),
    {
        let r = MemStore { blocks: Vec::new() };
        proof {
            assert(r.contents() =~= Map::<u64, Seq<u8>>::empty());
        }
        r
    }

    /// Whether the store holds an identifier.
    pub fn holds(&self, id: u64) -> (r: bool)
        ensures
            r == self.contents().contains_key(id),
    {
        id >= 1 && id <= self.blocks.len() as u64
    }
}

impl Default for MemStore {
    fn default() -> (r: Self)
        ensures
            r.contents() == Map::<u64, Seq<u8>>::empty(),
    {
        MemStore::new()
    }
}

impl BlobStore for MemStore {
    /// Block `k` is held under identifier `k + 1`.
    closed spec fn contents(&self) -> Map<u64, Seq<u8>> {
        Map::new(
            |id: u64| 1 <= id <= self.blocks@.len(),
            |id: u64| self.blocks@[id - 1]@,
        )
    }

    fn read(&self, id: u64) -> (r: Result<Vec<u8>, StoreError>) {
        if id >= 1 && id <= self.blocks.len() as u64 {
            Ok(copy_bytes(&self.blocks[(id - 1) as usize]))
        } else {
            Err(StoreError::StoreReadFailure)
        }
    }

    fn append(&mut self, data: &[u8]) -> (r: Result<u64, StoreError>) {
        if self.blocks.len() as u64 == u64::MAX {
            return Err(StoreError::IdentifierOverflow);
        }
        self.blocks.push(vstd::slice::slice_to_vec(data));
        let id = self.blocks.len() as u64;
        proof {
            assert(self.contents() =~= old(self).contents().insert(id, data@));
        }
        Ok(id)
    }
}

} // verus!
