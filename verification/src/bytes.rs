//! Little-endian words and fixed-size byte arrays.

use byteorder::{ByteOrder, LittleEndian};
use vstd::bytes::{
    spec_u32_from_le_bytes, spec_u32_to_le_bytes, spec_u64_from_le_bytes, spec_u64_to_le_bytes,
};
use vstd::prelude::*;

verus! {

/// The eight bytes of `n`, least significant first.
///
/// Trusted: `byteorder::LittleEndian::write_u64` copies `n.to_le_bytes()` into
/// the first eight bytes of the buffer it is given, which here has eight.
#[verifier::external_body]
pub(crate) fn u64_to_le(n: u64) -> (bytes: Vec<u8>)
    ensures
        bytes@ == spec_u64_to_le_bytes(n),
{
    let mut bytes = vec![0u8; 8];
    LittleEndian::write_u64(&mut bytes, n);
    bytes
}

/// The word that the first eight bytes of `bytes` hold, least significant
/// first.
///
/// Trusted: `byteorder::LittleEndian::read_u64` returns
/// `u64::from_le_bytes` of the first eight bytes, and panics on fewer.
#[verifier::external_body]
pub(crate) fn u64_from_le(bytes: &[u8]) -> (n: u64)
    requires
        bytes@.len() >= 8,
    ensures
        n == spec_u64_from_le_bytes(bytes@.subrange(0, 8)),
{
    LittleEndian::read_u64(bytes)
}

/// The four bytes of `n`, least significant first.
///
/// Trusted: `byteorder::LittleEndian::write_u32` copies `n.to_le_bytes()` into
/// the first four bytes of the buffer it is given, which here has four.
#[verifier::external_body]
pub(crate) fn u32_to_le(n: u32) -> (bytes: Vec<u8>)
    ensures
        bytes@ == spec_u32_to_le_bytes(n),
{
    let mut bytes = vec![0u8; 4];
    LittleEndian::write_u32(&mut bytes, n);
    bytes
}

/// The word that the first four bytes of `bytes` hold, least significant
/// first.
///
/// Trusted: `byteorder::LittleEndian::read_u32` returns
/// `u32::from_le_bytes` of the first four bytes, and panics on fewer.
#[verifier::external_body]
pub(crate) fn u32_from_le(bytes: &[u8]) -> (n: u32)
    requires
        bytes@.len() >= 4,
    ensures
        n == spec_u32_from_le_bytes(bytes@.subrange(0, 4)),
{
    LittleEndian::read_u32(bytes)
}

/// The array whose elements are those of `s`, where `s` has `N` of them.
pub open spec fn array_from_seq<const N: usize>(s: Seq<u8>) -> [u8; N] {
    choose|a: [u8; N]| a@ == s
}

/// An array is the array of its own elements.
pub proof fn lemma_array_from_seq<const N: usize>(a: [u8; N])
    ensures
        array_from_seq::<N>(a@) == a,
{
    let b = array_from_seq::<N>(a@);
    assert(b@ == a@);
    assert(b =~= a);
}

/// Appends `bytes` to `out`.
pub fn append_bytes(out: &mut Vec<u8>, bytes: &[u8])
    ensures
        final(out)@ == old(out)@ + bytes@,
{
    let mut i: usize = 0;
    while i < bytes.len()
        invariant
            i <= bytes@.len(),
            out@ == old(out)@ + bytes@.take(i as int),
        decreases bytes@.len() - i,
    {
        out.push(bytes[i]);
        i += 1;
    }
}

/// Appends `count` zero bytes to `out`.
pub fn append_zeros(out: &mut Vec<u8>, count: usize)
    ensures
        final(out)@ == old(out)@ + Seq::new(count as nat, |i: int| 0u8),
{
    let mut i: usize = 0;
    while i < count
        invariant
            i <= count,
            out@ == old(out)@ + Seq::new(i as nat, |j: int| 0u8),
        decreases count - i,
    {
        out.push(0u8);
        i += 1;
    }
}

/// The first `N` bytes of `bytes`, as an array.
pub fn array_from_prefix<const N: usize>(bytes: &[u8]) -> (a: [u8; N])
    requires
        bytes@.len() >= N,
    ensures
        a == array_from_seq::<N>(bytes@.take(N as int)),
        a@ == bytes@.take(N as int),
{
    let mut a: [u8; N] = [0u8; N];
    let mut i: usize = 0;
    while i < N
        invariant
            i <= N,
            bytes@.len() >= N,
            forall|j: int| 0 <= j < i ==> a@[j] == bytes@[j],
        decreases N - i,
    {
        a[i] = bytes[i];
        i += 1;
    }
    assert(a@ =~= bytes@.take(N as int));
    proof {
        lemma_array_from_seq(a);
    }
    a
}

} // verus!
