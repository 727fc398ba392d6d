//! The family of hash functions of the index, told apart by a parameter.
//!
//! The hashes must be the same on every platform and in every process, so
//! they are taken over the serialised bytes of a key, never over the way a
//! key is held in memory.

use crate::fileformat_write::StaticSizeSerializable;
use vstd::prelude::*;

verus! {

/// The SipHash-2-4 of `bytes` under the 128-bit key made of `key0` and `key1`.
pub uninterp spec fn siphash24(key0: u64, key1: u64, bytes: Seq<u8>) -> u64;

/// Hashes `bytes` with SipHash-2-4 under the key (`key0`, `key1`).
///
/// Trusted: `siphasher::sip::SipHasher::new_with_keys` makes a SipHash-2-4
/// state from the two key words, and `SipHasher::hash` returns the hash of a
/// byte slice from that state. The result depends on the key and the bytes
/// alone; it is given the name `siphash24`.
#[verifier::external_body]
fn sip_hash_bytes(key0: u64, key1: u64, bytes: &[u8]) -> (hash: u64)
    ensures
        hash == siphash24(key0, key1, bytes@),
{
    siphasher::sip::SipHasher::new_with_keys(key0, key1).hash(bytes)
}

/// One hash function of the family.
#[derive(Clone, Copy, Debug)]
pub struct SipHasherFactory {
    pub p: u64,
}

impl SipHasherFactory {
    /// The hash function with the parameter `param`.
    pub fn new(param: u64) -> (hasher: Self)
        ensures
            hasher.p == param,
    {
        SipHasherFactory { p: param }
    }

    /// The hash of a key's bytes under this function.
    pub open spec fn spec_hash_bytes(self, bytes: Seq<u8>) -> u64 {
        siphash24(self.p, 0, bytes)
    }

    /// The hash of a key under this function.
    pub open spec fn spec_hash<K: StaticSizeSerializable>(self, key: K) -> u64 {
        self.spec_hash_bytes(key.spec_write()->Ok_0)
    }

    /// Hashes the serialised bytes of a key.
    pub fn hash_bytes(&self, bytes: &[u8]) -> (hash: u64)
        ensures
            hash == self.spec_hash_bytes(bytes@),
    {
        sip_hash_bytes(self.p, 0, bytes)
    }

    /// Hashes a key: the hash of its serialised bytes.
    pub fn hash<K: StaticSizeSerializable>(&self, key: &K) -> (hash: u64)
        requires
            key.spec_write() is Ok,
        ensures
            hash == self.spec_hash(*key),
    {
        match key.to_bytes() {
            Ok(bytes) => self.hash_bytes(bytes.as_slice()),
            Err(_) => 0,
        }
    }
}

} // verus!
