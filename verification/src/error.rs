//! The errors of the library.

use vstd::prelude::*;

verus! {

/// What can go wrong while a file is built, opened or queried.
///
/// "Key not found" is no error: lookups return it as `None`.
#[derive(Debug, Clone, Copy, PartialEq, Eq)]
pub enum IkvblobError {
    /// Fewer bytes were available than a record or a region needs.
    Truncated,
    /// The file does not start with the magic constant.
    BadMagic,
    /// The file declares a format version that this library does not read.
    UnsupportedVersion { found: u64 },
    /// The regions of the file are not laid out one after the other.
    RegionOverlap,
    /// The length of the source differs from the size that the header gives.
    SizeMismatch,
    /// The header declares index records of another width than the reader's.
    EntrySizeMismatch { expected: u64, found: u64 },
    /// The header's description of the index table cannot be used.
    BadTableGeometry,
    /// The index table has no bucket of that number.
    NoSuchBucket,
    /// The metadata block is no well-formed structured value.
    MetadataNotDecodable,
    /// The metadata block is well-formed, but it is not a map.
    MetadataNotMap,
    /// A key of the metadata map is not a text string.
    MetadataKeyNotText,
    /// Only one of the compression type and the dictionary is present.
    CompressionHalfDeclared,
    /// The compression type is not a text string.
    CompressionTypeNotText,
    /// The compression type is not one that this library supports.
    UnsupportedCompression,
    /// The compression dictionary is not a byte string.
    CompressionDictNotBytes,
    /// The metadata could not be encoded.
    MetadataNotEncodable,
    /// An entry could not be placed within the displacement bound. `input`
    /// is the position, in the input, of the entry whose insertion failed.
    CollisionBoundExceeded { input: usize, displacements: usize },
    /// A locator's offset does not fit the 56 bits of the packed word.
    OffsetTooLarge { offset: u64 },
    /// A size of the file to write does not fit a 64-bit field.
    FileTooLarge,
    /// No buffer size of the schedule was enough to decompress a value.
    DecompressionFailed,
    /// A value could not be compressed.
    CompressionFailed,
    /// No dictionary could be trained from the samples.
    DictionaryTrainingFailed,
    /// The source of bytes failed to deliver a range.
    ReadFailed,
    /// The trailing checksum is not that of the bytes before it.
    ChecksumMismatch,
    /// A locator points outside the value blob.
    LocatorOutOfRange,
    /// Results reached the ordering stage twice or never.
    ItemsLostInReordering { pending: usize },
}

} // verus!
