//! Key-value storage engines over byte strings.
pub mod byte_map;
pub mod lsm;
pub mod memory;

use vstd::prelude::*;

verus! {

#[verifier::external_type_specification]
#[verifier::external_body]
pub struct ExIoError(std::io::Error);

/// Why a storage engine could not do what was asked.
#[derive(Debug)]
pub enum StorageError {
    Io(std::io::Error),
}

/// What every storage engine offers: put, get and delete of byte-string keys.
pub trait StorageEngine {
    fn put(&mut self, key: Vec<u8>, value: Vec<u8>) -> Result<(), StorageError>;

    fn get(&self, key: &[u8]) -> Result<Option<Vec<u8>>, StorageError>;

    fn delete(&mut self, key: Vec<u8>) -> Result<(), StorageError>;
}

/// A copy of a byte string.
pub fn copy_bytes(v: &Vec<u8>) -> (r: Vec<u8>)
    ensures
        r@ == v@,
{
    let r = v.clone();
    assert(r@ =~= v@);
    r
}

} // verus!
