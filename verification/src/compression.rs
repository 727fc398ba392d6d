//! Compression of values with a shared dictionary.

use crate::error::IkvblobError;
use vstd::prelude::*;

verus! {

/// The level at which values are compressed.
pub const COMPRESSION_LEVEL: i32 = 5;

/// The size of the first buffer that a decompression tries.
pub const FIRST_BUFFER_SIZE: usize = 8192;

/// The number of buffer sizes that a decompression tries, each twice the one
/// before.
pub const BUFFER_ATTEMPTS: usize = 6;

/// The frame that Zstandard makes of `data` at `level` with the dictionary
/// `dict`, or `None` where it makes none.
pub uninterp spec fn zstd_compressed(dict: Seq<u8>, level: i32, data: Seq<u8>) -> Option<Seq<u8>>;

/// What Zstandard regenerates from the frame `data` with the dictionary `dict`
/// into a buffer of `capacity` bytes, or `None` where it fails: on a corrupt
/// frame, on another dictionary, on a buffer that is too small.
pub uninterp spec fn zstd_decompressed(dict: Seq<u8>, data: Seq<u8>, capacity: usize) -> Option<
    Seq<u8>,
>;

/// Compresses `data` at `level` with the dictionary `dict`.
///
/// Trusted: `zstd::bulk::Compressor::with_dictionary` makes a compressor with
/// that level and dictionary, and `Compressor::compress` returns the
/// compressed block; an error of either is `None` here. The result depends on
/// the three arguments alone; it is given the name `zstd_compressed`.
#[verifier::external_body]
fn zstd_compress(dict: &[u8], level: i32, data: &[u8]) -> (frame: Option<Vec<u8>>)
    ensures
        match frame {
            Some(f) => zstd_compressed(dict@, level, data@) == Some(f@),
            None => zstd_compressed(dict@, level, data@) is None,
        },
{
    let mut compressor = match zstd::bulk::Compressor::with_dictionary(level, dict) {
        Ok(compressor) => compressor,
        Err(_) => return None,
    };
    compressor.compress(data).ok()
}

/// Decompresses the frame `data` with the dictionary `dict` into at most
/// `capacity` bytes.
///
/// Trusted: `zstd::bulk::Decompressor::with_dictionary` makes a decompressor
/// with that dictionary, and `Decompressor::decompress` returns the
/// regenerated bytes, or an error where they would be more than `capacity`;
/// an error of either is `None` here. It allocates `capacity` bytes, which
/// std refuses above `isize::MAX`. The result depends on the three arguments
/// alone; it is given the name `zstd_decompressed`.
#[verifier::external_body]
fn zstd_decompress(dict: &[u8], data: &[u8], capacity: usize) -> (value: Option<Vec<u8>>)
    requires
        capacity <= isize::MAX,
    ensures
        match value {
            Some(v) => zstd_decompressed(dict@, data@, capacity) == Some(v@),
            None => zstd_decompressed(dict@, data@, capacity) is None,
        },
{
    let mut decompressor = match zstd::bulk::Decompressor::with_dictionary(dict) {
        Ok(decompressor) => decompressor,
        Err(_) => return None,
    };
    decompressor.decompress(data, capacity).ok()
}

/// The buffer size of attempt `i`: `FIRST_BUFFER_SIZE` doubled `i` times.
pub open spec fn buffer_size(i: nat) -> nat
    decreases i,
{
    if i == 0 {
        FIRST_BUFFER_SIZE as nat
    } else {
        2 * buffer_size((i - 1) as nat)
    }
}

/// The buffer sizes double up to 256 KiB.
pub proof fn lemma_buffer_sizes()
    ensures
        buffer_size(0) == 8192,
        buffer_size(1) == 16384,
        buffer_size(2) == 32768,
        buffer_size(3) == 65536,
        buffer_size(4) == 131072,
        buffer_size(5) == 262144,
{
    reveal_with_fuel(buffer_size, 7);
}

/// The buffer size of attempt `i`.
pub fn attempt_capacity(i: usize) -> (capacity: usize)
    requires
        i < BUFFER_ATTEMPTS,
    ensures
        capacity == buffer_size(i as nat),
        capacity <= 262144,
{
    proof {
        lemma_buffer_sizes();
    }
    let mut capacity: usize = FIRST_BUFFER_SIZE;
    let mut k: usize = 0;
    while k < i
        invariant
            k <= i < BUFFER_ATTEMPTS,
            capacity == buffer_size(k as nat),
            buffer_size(0) == 8192,
            buffer_size(1) == 16384,
            buffer_size(2) == 32768,
            buffer_size(3) == 65536,
            buffer_size(4) == 131072,
            buffer_size(5) == 262144,
        decreases i - k,
    {
        capacity = capacity * 2;
        k += 1;
    }
    capacity
}

/// What decompression with growing buffers returns from attempt `from` on:
/// the result of the first attempt that succeeds, or an error after the last
/// one.
pub open spec fn spec_decompress_from(dict: Seq<u8>, data: Seq<u8>, from: nat) -> Result<
    Seq<u8>,
    IkvblobError,
>
    decreases BUFFER_ATTEMPTS - from,
{
    if from >= BUFFER_ATTEMPTS {
        Err(IkvblobError::DecompressionFailed)
    } else {
        match zstd_decompressed(dict, data, buffer_size(from) as usize) {
            Some(value) => Ok(value),
            None => spec_decompress_from(dict, data, from + 1),
        }
    }
}

/// The value of a stored frame: the frame itself where the file declares no
/// compression; with a dictionary, what decompression with growing buffers
/// returns.
pub open spec fn spec_try_decompress(dict: Option<Seq<u8>>, data: Seq<u8>) -> Result<
    Seq<u8>,
    IkvblobError,
> {
    match dict {
        None => Ok(data),
        Some(d) => spec_decompress_from(d, data, 0),
    }
}

/// What is stored for a value: the frame that Zstandard makes of it at
/// `COMPRESSION_LEVEL` with the dictionary.
pub open spec fn spec_compress_value(dict: Seq<u8>, value: Seq<u8>) -> Result<Seq<u8>, IkvblobError> {
    match zstd_compressed(dict, COMPRESSION_LEVEL, value) {
        Some(frame) => Ok(frame),
        None => Err(IkvblobError::CompressionFailed),
    }
}

/// Compresses one value with the dictionary.
pub fn compress_value(dict: &[u8], value: &[u8]) -> (frame: Result<Vec<u8>, IkvblobError>)
    ensures
        match frame {
            Ok(f) => spec_compress_value(dict@, value@) == Ok::<Seq<u8>, IkvblobError>(f@),
            Err(e) => spec_compress_value(dict@, value@) == Err::<Seq<u8>, IkvblobError>(e),
        },
{
    match zstd_compress(dict, COMPRESSION_LEVEL, value) {
        Some(frame) => Ok(frame),
        None => Err(IkvblobError::CompressionFailed),
    }
}

/// Decompresses a stored frame. The frame does not say how long its value is,
/// so buffers of growing sizes are tried: `FIRST_BUFFER_SIZE` bytes first, then
/// twice as many, `BUFFER_ATTEMPTS` sizes in all. A value that fits none of
/// them is a decompression failure.
pub fn try_decompress(dict: Option<&Vec<u8>>, bytes: &[u8]) -> (value: Result<Vec<u8>, IkvblobError>)
    ensures
        match value {
            Ok(v) => spec_try_decompress(
                match dict {
                    Some(d) => Some(d@),
                    None => None,
                },
                bytes@,
            ) == Ok::<Seq<u8>, IkvblobError>(v@),
            Err(e) => spec_try_decompress(
                match dict {
                    Some(d) => Some(d@),
                    None => None,
                },
                bytes@,
            ) == Err::<Seq<u8>, IkvblobError>(e),
        },
{
    match dict {
        None => {
            let mut copy: Vec<u8> = Vec::new();
            crate::bytes::append_bytes(&mut copy, bytes);
            assert(copy@ =~= bytes@);
            Ok(copy)
        },
        Some(d) => {
            let mut i: usize = 0;
            while i < BUFFER_ATTEMPTS
                invariant
                    i <= BUFFER_ATTEMPTS,
                    dict == Some(d),
                    spec_decompress_from(d@, bytes@, 0) == spec_decompress_from(d@, bytes@, i as nat),
                decreases BUFFER_ATTEMPTS - i,
            {
                let capacity = attempt_capacity(i);
                match zstd_decompress(d.as_slice(), bytes, capacity) {
                    Some(value) => {
                        return Ok(value);
                    },
                    None => {},
                }
                i += 1;
            }
            Err(IkvblobError::DecompressionFailed)
        },
    }
}

/// The largest buffer that a decompression tries.
pub const LARGEST_BUFFER_SIZE: usize = 262144;

/// Zstandard is lossless with the dictionary `dict`: whatever it regenerates
/// from a frame of a value is that value, and it regenerates the value into
/// every buffer that has room for it.
pub open spec fn lossless(dict: Seq<u8>) -> bool {
    forall|value: Seq<u8>, frame: Seq<u8>, capacity: usize|
        #![trigger zstd_compressed(dict, COMPRESSION_LEVEL, value), zstd_decompressed(dict, frame, capacity)]
        zstd_compressed(dict, COMPRESSION_LEVEL, value) == Some(frame) ==> {
            &&& zstd_decompressed(dict, frame, capacity) matches Some(back) ==> back == value
            &&& value.len() <= capacity ==> zstd_decompressed(dict, frame, capacity) is Some
        }
}

/// Where Zstandard is lossless with the dictionary, the growing buffers give
/// back, from attempt `from` on, every value of at most `LARGEST_BUFFER_SIZE`
/// bytes that was compressed with the dictionary.
pub proof fn lemma_decompress_from_gives_back(
    dict: Seq<u8>,
    value: Seq<u8>,
    frame: Seq<u8>,
    from: nat,
)
    requires
        lossless(dict),
        value.len() <= LARGEST_BUFFER_SIZE,
        spec_compress_value(dict, value) == Ok::<Seq<u8>, IkvblobError>(frame),
        from < BUFFER_ATTEMPTS,
    ensures
        spec_decompress_from(dict, frame, from) == Ok::<Seq<u8>, IkvblobError>(value),
    decreases BUFFER_ATTEMPTS - from,
{
    lemma_buffer_sizes();
    let capacity = buffer_size(from) as usize;
    assert(zstd_compressed(dict, COMPRESSION_LEVEL, value) == Some(frame));
    match zstd_decompressed(dict, frame, capacity) {
        Some(back) => {},
        None => {
            assert(from < 5);
            lemma_decompress_from_gives_back(dict, value, frame, from + 1);
        },
    }
}

/// Compression round trip, for a lossless Zstandard: every value of at most
/// `LARGEST_BUFFER_SIZE` bytes that was compressed with a dictionary comes
/// back from the decompression with growing buffers.
pub proof fn lemma_compression_round_trip(dict: Seq<u8>, value: Seq<u8>, frame: Seq<u8>)
    requires
        lossless(dict),
        value.len() <= LARGEST_BUFFER_SIZE,
        spec_compress_value(dict, value) == Ok::<Seq<u8>, IkvblobError>(frame),
    ensures
        spec_try_decompress(Some(dict), frame) == Ok::<Seq<u8>, IkvblobError>(value),
{
    lemma_decompress_from_gives_back(dict, value, frame, 0);
}

} // verus!
