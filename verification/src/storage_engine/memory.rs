//! The simplest storage engine: every pair lives in memory.
use super::byte_map::ByteMap;
use super::{copy_bytes, StorageEngine, StorageError};
use vstd::prelude::*;

verus! {

/// A storage engine that keeps its pairs in memory.
pub struct MemoryStorage {
    map: ByteMap<Vec<u8>>,
}

impl View for MemoryStorage {
    type V = Map<Seq<u8>, Seq<u8>>;

    /// The pairs held, keys and values as byte sequences.
    closed spec fn view(&self) -> Map<Seq<u8>, Seq<u8>> {
        self.map@.map_values(|v: Vec<u8>| v@)
    }
}

impl MemoryStorage {
    /// An engine that holds nothing.
    pub fn new() -> (r: Self)
        ensures
            r@ == Map::<Seq<u8>, Seq<u8>>::empty(),
    {
        let r = MemoryStorage { map: ByteMap::new() };
        assert(r@ =~= Map::<Seq<u8>, Seq<u8>>::empty());
        r
    }
}

impl StorageEngine for MemoryStorage {
    /// Stores `value` at `key`; this never fails.
    fn put(&mut self, key: Vec<u8>, value: Vec<u8>) -> (r: Result<(), StorageError>)
        ensures
            final(self)@ == old(self)@.insert(key@, value@),
            r is Ok,
    {
        self.map.insert(key, value);
        assert(self@ =~= old(self)@.insert(key@, value@));
        Ok(())
    }

    /// A copy of the value at `key`, or `None` where there is none; this never fails.
    fn get(&self, key: &[u8]) -> (r: Result<Option<Vec<u8>>, StorageError>)
        ensures
            match r {
                Ok(Some(v)) => self@.contains_key(key@) && v@ == self@[key@],
                Ok(None) => !self@.contains_key(key@),
                Err(_) => false,
            },
    {
        match self.map.get(key) {
            Some(v) => Ok(Some(copy_bytes(v))),
            None => Ok(None),
        }
    }

    /// Removes `key` and its value, if any; this never fails.
    fn delete(&mut self, key: Vec<u8>) -> (r: Result<(), StorageError>)
        ensures
            final(self)@ == old(self)@.remove(key@),
            r is Ok,
    {
        let _ = self.map.remove(key.as_slice());
        assert(self@ =~= old(self)@.remove(key@));
        Ok(())
    }
}

} // verus!
