//! Tagged fixed-size digests, the keys of the store.
//!
//! A key is serialised to a fixed number of bytes, so the length and the code
//! are not written as variable-length integers: the digest has `N` bytes and
//! the code has one.

use vstd::prelude::*;

verus! {

/// The code that marks an empty slot of the index. No key carries it.
pub const CODE_EMPTY: u8 = 0;

/// A digest of `N` bytes together with the code of the algorithm that made it.
#[derive(Debug, Clone, Copy, PartialEq, Eq, Hash)]
pub struct Multihash<const N: usize> {
    pub code: u8,
    pub digest: [u8; N],
}

impl<const N: usize> Multihash<N> {
    /// Whether this value may stand for a key: its code is not the one
    /// reserved for empty slots.
    pub open spec fn is_key(self) -> bool {
        self.code != CODE_EMPTY
    }

    /// The key with this code and digest.
    pub fn wrap(code: u8, digest: [u8; N]) -> (key: Multihash<N>)
        ensures
            key == (Multihash { code, digest }),
    {
        Multihash { code, digest }
    }

    /// The code of the algorithm.
    pub fn code(&self) -> (code: u8)
        ensures
            code == self.code,
    {
        self.code
    }

    /// The digest.
    pub fn digest(&self) -> (digest: &[u8; N])
        ensures
            *digest == self.digest,
    {
        &self.digest
    }

    /// Compares two keys byte by byte.
    pub fn same(&self, other: &Multihash<N>) -> (same: bool)
        ensures
            same == (*self == *other),
    {
        if self.code != other.code {
            return false;
        }
        let mut i: usize = 0;
        while i < N
            invariant
                i <= N,
                self.code == other.code,
                forall|j: int| 0 <= j < i ==> self.digest[j] == other.digest[j],
            decreases N - i,
        {
            if self.digest[i] != other.digest[i] {
                return false;
            }
            i += 1;
        }
        assert(self.digest =~= other.digest);
        true
    }
}

} // verus!
