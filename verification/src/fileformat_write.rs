//! The binary layout of a file: the fixed-width records, the header, and the
//! writer that lays out a whole file.

use crate::bytes::{
    append_bytes, append_zeros, array_from_prefix, array_from_seq, lemma_array_from_seq, u32_to_le,
    u64_from_le, u64_to_le,
};
use crate::cuckoo::{StaticCuckooTable, TableKey};
use crate::error::IkvblobError;
use crate::metadata::{encode_metadata, spec_metadata_bytes};
use crate::utils::{crc32, CRC32Writer};
use crate::multihash::{Multihash, CODE_EMPTY};
use vstd::bytes::{
    lemma_auto_spec_u64_to_from_le_bytes, spec_u32_to_le_bytes, spec_u64_from_le_bytes,
    spec_u64_to_le_bytes,
};
use vstd::prelude::*;
use vstd::slice::slice_subrange;

verus! {

/// A value with a serialisation of a fixed number of bytes.
pub trait StaticSizeSerializable: Sized {
    /// The number of bytes of every serialised value.
    const SER_SIZE: usize;

    /// The bytes of a value, or the reason for which it has none.
    spec fn spec_write(&self) -> Result<Seq<u8>, IkvblobError>;

    /// The value that the front of `bytes` holds, or the reason for which it
    /// holds none.
    spec fn spec_read(bytes: Seq<u8>) -> Result<Self, IkvblobError>;

    /// Appends the bytes of the value to `write`. On an error nothing is
    /// appended.
    fn write(&self, write: &mut Vec<u8>) -> (done: Result<(), IkvblobError>)
        ensures
            match self.spec_write() {
                Ok(bytes) => done is Ok && final(write)@ == old(write)@ + bytes,
                Err(e) => done == Err::<(), IkvblobError>(e) && final(write)@ == old(write)@,
            },
    ;

    /// Reads a value from the front of `read`; what follows the value is not
    /// looked at.
    fn read(read: &[u8]) -> (value: Result<Self, IkvblobError>)
        ensures
            value == Self::spec_read(read@),
    ;

    /// The bytes of the value.
    fn to_bytes(&self) -> (bytes: Result<Vec<u8>, IkvblobError>)
        ensures
            match self.spec_write() {
                Ok(b) => bytes matches Ok(v) && v@ == b,
                Err(e) => bytes matches Err(f) && f == e,
            },
    {
        let mut buf: Vec<u8> = Vec::new();
        match self.write(&mut buf) {
            Ok(()) => {
                assert(buf@ =~= self.spec_write()->Ok_0);
                Ok(buf)
            },
            Err(e) => Err(e),
        }
    }

    /// Every serialisation has `SER_SIZE` bytes.
    proof fn lemma_written_len(&self)
        ensures
            self.spec_write() matches Ok(bytes) ==> bytes.len() == Self::SER_SIZE,
    ;
}

impl StaticSizeSerializable for u64 {
    const SER_SIZE: usize = 8;

    open spec fn spec_write(&self) -> Result<Seq<u8>, IkvblobError> {
        Ok(spec_u64_to_le_bytes(*self))
    }

    open spec fn spec_read(bytes: Seq<u8>) -> Result<Self, IkvblobError> {
        if bytes.len() < 8 {
            Err(IkvblobError::Truncated)
        } else {
            Ok(spec_u64_from_le_bytes(bytes.subrange(0, 8)))
        }
    }

    fn write(&self, write: &mut Vec<u8>) -> (done: Result<(), IkvblobError>) {
        let word = u64_to_le(*self);
        append_bytes(write, word.as_slice());
        Ok(())
    }

    fn read(read: &[u8]) -> (value: Result<Self, IkvblobError>) {
        if read.len() < 8 {
            Err(IkvblobError::Truncated)
        } else {
            Ok(u64_from_le(read))
        }
    }

    proof fn lemma_written_len(&self) {
        lemma_auto_spec_u64_to_from_le_bytes();
    }
}

impl StaticSizeSerializable for Multihash<32> {
    const SER_SIZE: usize = 33;

    /// The digest, then the code.
    open spec fn spec_write(&self) -> Result<Seq<u8>, IkvblobError> {
        Ok(self.digest@.push(self.code))
    }

    open spec fn spec_read(bytes: Seq<u8>) -> Result<Self, IkvblobError> {
        if bytes.len() < 33 {
            Err(IkvblobError::Truncated)
        } else {
            Ok(Multihash { code: bytes[32], digest: array_from_seq::<32>(bytes.take(32)) })
        }
    }

    fn write(&self, write: &mut Vec<u8>) -> (done: Result<(), IkvblobError>) {
        append_bytes(write, self.digest().as_slice());
        write.push(self.code());
        assert(write@ =~= old(write)@ + self.digest@.push(self.code));
        Ok(())
    }

    fn read(read: &[u8]) -> (value: Result<Self, IkvblobError>) {
        if read.len() < 33 {
            Err(IkvblobError::Truncated)
        } else {
            let digest: [u8; 32] = array_from_prefix::<32>(read);
            Ok(Multihash::wrap(read[32], digest))
        }
    }

    proof fn lemma_written_len(&self) {
    }
}

/// Writing a word and reading it back gives the word.
pub proof fn lemma_u64_round_trip(n: u64)
    ensures
        u64::spec_read(n.spec_write()->Ok_0) == Ok::<u64, IkvblobError>(n),
{
    lemma_auto_spec_u64_to_from_le_bytes();
    let b = spec_u64_to_le_bytes(n);
    assert(b.subrange(0, 8) =~= b);
}

/// Writing a key and reading it back gives the key.
pub proof fn lemma_multihash_round_trip(key: Multihash<32>)
    ensures
        Multihash::<32>::spec_read(key.spec_write()->Ok_0) == Ok::<Multihash<32>, IkvblobError>(key),
{
    let b = key.digest@.push(key.code);
    assert(b.take(32) =~= key.digest@);
    lemma_array_from_seq(key.digest);
}

/// The first value that an offset may not take: offsets fill the low 56 bits
/// of the packed word.
pub const OFFSET_LIMIT: u64 = 0x0100_0000_0000_0000;

/// The number of bytes of a digest in an index record.
pub const DIGEST_SIZE: usize = 32;

/// A slot of the index: empty, or a key with the locator (offset, length) of
/// its value in the value blob.
pub type IndexTableEntry = Option<(Multihash<32>, (u64, u64))>;

/// The word whose top byte is `code` and whose low 56 bits are `offset`.
pub open spec fn pack_word(code: u8, offset: u64) -> u64
    recommends
        offset < OFFSET_LIMIT,
{
    (code as int * OFFSET_LIMIT as int + offset as int) as u64
}

/// The top byte of a packed word.
pub open spec fn packed_code(word: u64) -> u8 {
    (word as int / OFFSET_LIMIT as int) as u8
}

/// The low 56 bits of a packed word.
pub open spec fn packed_offset(word: u64) -> u64 {
    (word as int % OFFSET_LIMIT as int) as u64
}

/// `count` zero bytes.
pub open spec fn zeros(count: nat) -> Seq<u8> {
    Seq::new(count, |i: int| 0u8)
}

/// Packs a code and an offset below `OFFSET_LIMIT` into one word.
pub fn pack(code: u8, offset: u64) -> (word: u64)
    requires
        offset < OFFSET_LIMIT,
    ensures
        word == pack_word(code, offset),
        packed_code(word) == code,
        packed_offset(word) == offset,
{
    let c: u64 = code as u64;
    let word: u64 = (offset & 0x00FF_FFFF_FFFF_FFFF) | (c << 56);
    assert(word == c * 0x0100_0000_0000_0000 + offset) by (bit_vector)
        requires
            c < 256,
            offset < 0x0100_0000_0000_0000,
            word == (offset & 0x00FF_FFFF_FFFF_FFFF) | (c << 56),
    ;
    word
}

/// Takes a packed word apart into its code and its offset.
pub fn unpack(word: u64) -> (parts: (u8, u64))
    ensures
        parts.0 == packed_code(word),
        parts.1 == packed_offset(word),
        parts.1 < OFFSET_LIMIT,
        word == pack_word(parts.0, parts.1),
{
    let top: u64 = word >> 56;
    let offset: u64 = word & 0x00FF_FFFF_FFFF_FFFF;
    assert(top == word / 0x0100_0000_0000_0000 && top < 256) by (bit_vector)
        requires
            top == word >> 56,
    ;
    assert(offset == word % 0x0100_0000_0000_0000) by (bit_vector)
        requires
            offset == word & 0x00FF_FFFF_FFFF_FFFF,
    ;
    (top as u8, offset)
}

impl StaticSizeSerializable for IndexTableEntry {
    const SER_SIZE: usize = 48;

    /// The digest, then the packed word of code and offset, then the length.
    /// An empty slot is 48 zero bytes. An offset of `OFFSET_LIMIT` or more
    /// cannot be packed.
    open spec fn spec_write(&self) -> Result<Seq<u8>, IkvblobError> {
        match *self {
            Some((key, (offset, size))) => if offset >= OFFSET_LIMIT {
                Err(IkvblobError::OffsetTooLarge { offset })
            } else {
                Ok(
                    key.digest@ + spec_u64_to_le_bytes(pack_word(key.code, offset))
                        + spec_u64_to_le_bytes(size),
                )
            },
            None => Ok(zeros(32) + spec_u64_to_le_bytes(0) + spec_u64_to_le_bytes(0)),
        }
    }

    /// A record whose code byte is zero is an empty slot, whatever else it
    /// holds.
    open spec fn spec_read(bytes: Seq<u8>) -> Result<Self, IkvblobError> {
        if bytes.len() < 48 {
            Err(IkvblobError::Truncated)
        } else {
            let word = spec_u64_from_le_bytes(bytes.subrange(32, 40));
            let size = spec_u64_from_le_bytes(bytes.subrange(40, 48));
            if packed_code(word) == CODE_EMPTY {
                Ok(None)
            } else {
                Ok(
                    Some(
                        (
                            Multihash {
                                code: packed_code(word),
                                digest: array_from_seq::<32>(bytes.take(32)),
                            },
                            (packed_offset(word), size),
                        ),
                    ),
                )
            }
        }
    }

    fn write(&self, write: &mut Vec<u8>) -> (done: Result<(), IkvblobError>) {
        match self {
            Some((key, (offset, size))) => {
                if *offset >= OFFSET_LIMIT {
                    return Err(IkvblobError::OffsetTooLarge { offset: *offset });
                }
                append_bytes(write, key.digest().as_slice());
                let word = u64_to_le(pack(key.code(), *offset));
                append_bytes(write, word.as_slice());
                let length = u64_to_le(*size);
                append_bytes(write, length.as_slice());
            },
            None => {
                append_zeros(write, 32);
                let word = u64_to_le(0);
                append_bytes(write, word.as_slice());
                let length = u64_to_le(0);
                append_bytes(write, length.as_slice());
            },
        }
        assert(write@ =~= old(write)@ + self.spec_write()->Ok_0);
        Ok(())
    }

    fn read(read: &[u8]) -> (value: Result<Self, IkvblobError>) {
        if read.len() < 48 {
            return Err(IkvblobError::Truncated);
        }
        let digest: [u8; 32] = array_from_prefix::<32>(read);
        let word: u64 = u64_from_le(slice_subrange(read, 32, 40));
        let size: u64 = u64_from_le(slice_subrange(read, 40, 48));
        assert(read@.subrange(32, 40).subrange(0, 8) =~= read@.subrange(32, 40));
        assert(read@.subrange(40, 48).subrange(0, 8) =~= read@.subrange(40, 48));
        let (code, offset) = unpack(word);
        if code == CODE_EMPTY {
            Ok(None)
        } else {
            Ok(Some((Multihash::wrap(code, digest), (offset, size))))
        }
    }

    proof fn lemma_written_len(&self) {
        lemma_auto_spec_u64_to_from_le_bytes();
    }
}

/// Writing a slot and reading it back gives the slot: the empty slot, and
/// every occupied slot whose key is a key and whose offset can be packed.
pub proof fn lemma_entry_round_trip(entry: IndexTableEntry)
    requires
        entry matches Some((key, (offset, _))) ==> key.is_key() && offset < OFFSET_LIMIT,
    ensures
        entry.spec_write() matches Ok(bytes) && IndexTableEntry::spec_read(bytes) == Ok::<
            IndexTableEntry,
            IkvblobError,
        >(entry),
{
    lemma_auto_spec_u64_to_from_le_bytes();
    let bytes = entry.spec_write()->Ok_0;
    match entry {
        Some((key, (offset, size))) => {
            let word = pack_word(key.code, offset);
            assert(bytes.subrange(32, 40) =~= spec_u64_to_le_bytes(word));
            assert(bytes.subrange(40, 48) =~= spec_u64_to_le_bytes(size));
            assert(bytes.take(32) =~= key.digest@);
            lemma_array_from_seq(key.digest);
            assert(packed_code(word) == key.code);
            assert(packed_offset(word) == offset);
        },
        None => {
            assert(bytes.subrange(32, 40) =~= spec_u64_to_le_bytes(0));
            assert(bytes.subrange(40, 48) =~= spec_u64_to_le_bytes(0));
            assert(packed_code(0) == 0);
        },
    }
}

/// Packing bound. A slot can be written exactly when its offset is below two
/// to the power of 56.
pub proof fn lemma_packing_bound(key: Multihash<32>, offset: u64, size: u64)
    ensures
        OFFSET_LIMIT == 72057594037927936,
        offset < OFFSET_LIMIT <==> Some((key, (offset, size))).spec_write() is Ok,
        offset >= OFFSET_LIMIT ==> Some((key, (offset, size))).spec_write() == Err::<
            Seq<u8>,
            IkvblobError,
        >(IkvblobError::OffsetTooLarge { offset }),
{
}

/// The empty slot is written as 48 zero bytes.
pub proof fn lemma_empty_slot_is_zero_bytes()
    ensures
        None::<(Multihash<32>, (u64, u64))>.spec_write() == Ok::<Seq<u8>, IkvblobError>(zeros(48)),
{
    lemma_auto_spec_u64_to_from_le_bytes();
    vstd::bytes::spec_u64_to_le_bytes_to_open(0);
    let w = vstd::bytes::spec_u64_to_le_bytes_open(0);
    assert(0u64 & 0xff == 0 && (0u64 >> 8) & 0xff == 0 && (0u64 >> 16) & 0xff == 0 && (0u64 >> 24)
        & 0xff == 0 && (0u64 >> 32) & 0xff == 0 && (0u64 >> 40) & 0xff == 0 && (0u64 >> 48) & 0xff
        == 0 && (0u64 >> 56) & 0xff == 0) by (bit_vector);
    assert(w =~= zeros(8));
    assert(zeros(32) + zeros(8) + zeros(8) =~= zeros(48));
}

} // verus!

verus! {

/// The version of the format that this library writes, and the latest that it
/// reads.
pub const FILE_FORMAT_VERSION: u64 = 1;

/// The number of bytes of the trailing checksum.
pub const CHECKSUM_SIZE: u64 = 4;

/// The bytes with which every file begins.
pub const MAGIC: [u8; 8] = [0x00, 0x49, 0x6b, 0x76, 0x62, 0x6c, 0x6f, 0x62];

/// The fixed-size record at the start of a file. It says where the three
/// regions of the file lie and how the index table is shaped.
#[derive(Debug, PartialEq, Eq, Clone, Copy)]
pub struct IkvblobHeader {
    pub version: u64,
    pub dynamic_metadata_offset: u64,
    pub dynamic_metadata_size: u64,
    pub cuckoo_table_offset: u64,
    pub cuckoo_table_size: u64,
    pub cuckoo_entry_size: u64,
    pub cuckoo_table_elems_per_bucket: u64,
    pub cuckoo_table_num_hashers: u64,
    pub value_blob_offset: u64,
    pub value_blob_size: u64,
}

impl IkvblobHeader {
    /// The ten fields in the order in which the file holds them.
    pub open spec fn fields(self) -> Seq<u64> {
        seq![
            self.version,
            self.dynamic_metadata_offset,
            self.dynamic_metadata_size,
            self.cuckoo_table_offset,
            self.cuckoo_table_size,
            self.cuckoo_entry_size,
            self.cuckoo_table_elems_per_bucket,
            self.cuckoo_table_num_hashers,
            self.value_blob_offset,
            self.value_blob_size,
        ]
    }

    /// The header whose fields, in the order of the file, are `fields`.
    pub open spec fn from_fields(fields: Seq<u64>) -> IkvblobHeader {
        IkvblobHeader {
            version: fields[0],
            dynamic_metadata_offset: fields[1],
            dynamic_metadata_size: fields[2],
            cuckoo_table_offset: fields[3],
            cuckoo_table_size: fields[4],
            cuckoo_entry_size: fields[5],
            cuckoo_table_elems_per_bucket: fields[6],
            cuckoo_table_num_hashers: fields[7],
            value_blob_offset: fields[8],
            value_blob_size: fields[9],
        }
    }

    /// The 88 bytes of the header: the magic constant, then the ten fields.
    pub open spec fn spec_bytes(self) -> Seq<u8> {
        MAGIC@ + words_to_le(self.fields())
    }

    /// The number of bytes of one bucket.
    pub open spec fn spec_bucket_size(self) -> int {
        self.cuckoo_table_elems_per_bucket * self.cuckoo_entry_size
    }

    /// The number of whole buckets that fit the index table.
    pub open spec fn spec_num_buckets(self) -> int {
        self.cuckoo_table_size as int / self.spec_bucket_size()
    }

    /// The size of the whole file: everything up to the end of the value
    /// blob, and the checksum.
    pub open spec fn spec_total_size(self) -> int {
        self.value_blob_offset + self.value_blob_size + CHECKSUM_SIZE
    }

    /// The metadata, the index table and the value blob lie in that order and
    /// do not overlap.
    pub open spec fn regions_in_order(self) -> bool {
        &&& self.dynamic_metadata_offset + self.dynamic_metadata_size <= self.cuckoo_table_offset
        &&& self.cuckoo_table_offset + self.cuckoo_table_size <= self.value_blob_offset
    }

    /// The number of buckets of the index table.
    pub fn cuckoo_table_num_buckets(&self) -> (buckets: usize)
        requires
            0 < self.spec_bucket_size() <= u64::MAX,
            self.spec_num_buckets() <= usize::MAX,
        ensures
            buckets == self.spec_num_buckets(),
    {
        (self.cuckoo_table_size / (self.cuckoo_table_elems_per_bucket * self.cuckoo_entry_size))
            as usize
    }

    /// The size of the whole file.
    pub fn total_size(&self) -> (size: usize)
        requires
            self.spec_total_size() <= usize::MAX,
        ensures
            size == self.spec_total_size(),
    {
        (self.value_blob_offset + self.value_blob_size + CHECKSUM_SIZE) as usize
    }

    /// Checks that the three regions lie one after the other.
    pub fn invariant_check(&self) -> (checked: Result<(), IkvblobError>)
        ensures
            self.regions_in_order() ==> checked is Ok,
            !self.regions_in_order() ==> checked == Err::<(), IkvblobError>(
                IkvblobError::RegionOverlap,
            ),
    {
        let metadata_end = self.dynamic_metadata_offset.checked_add(self.dynamic_metadata_size);
        let table_end = self.cuckoo_table_offset.checked_add(self.cuckoo_table_size);
        match (metadata_end, table_end) {
            (Some(metadata_end), Some(table_end)) => {
                if metadata_end <= self.cuckoo_table_offset && table_end <= self.value_blob_offset {
                    Ok(())
                } else {
                    Err(IkvblobError::RegionOverlap)
                }
            },
            _ => Err(IkvblobError::RegionOverlap),
        }
    }
}

/// The bytes of a sequence of words, each least significant byte first.
pub open spec fn words_to_le(words: Seq<u64>) -> Seq<u8>
    decreases words.len(),
{
    if words.len() == 0 {
        Seq::empty()
    } else {
        words_to_le(words.drop_last()) + spec_u64_to_le_bytes(words.last())
    }
}

/// The `count` words that `bytes` begins with, each least significant byte
/// first.
pub open spec fn words_from_le(bytes: Seq<u8>, count: nat) -> Seq<u64> {
    Seq::new(count, |i: int| spec_u64_from_le_bytes(bytes.subrange(8 * i, 8 * i + 8)))
}

/// Words written and read back are the same words.
pub proof fn lemma_words_round_trip(words: Seq<u64>)
    ensures
        words_to_le(words).len() == 8 * words.len(),
        words_from_le(words_to_le(words), words.len()) == words,
    decreases words.len(),
{
    lemma_auto_spec_u64_to_from_le_bytes();
    if words.len() > 0 {
        let front = words.drop_last();
        lemma_words_round_trip(front);
        let bytes = words_to_le(words);
        let back = words_from_le(bytes, words.len());
        assert forall|i: int| 0 <= i < words.len() implies back[i] == words[i] by {
            if i < front.len() {
                assert(bytes.subrange(8 * i, 8 * i + 8) =~= words_to_le(front).subrange(
                    8 * i,
                    8 * i + 8,
                ));
                assert(words_from_le(words_to_le(front), front.len())[i] == front[i]);
            } else {
                assert(bytes.subrange(8 * i, 8 * i + 8) =~= spec_u64_to_le_bytes(words.last()));
            }
        }
        assert(back =~= words);
    } else {
        assert(words_from_le(words_to_le(words), words.len()) =~= words);
    }
}

impl StaticSizeSerializable for IkvblobHeader {
    const SER_SIZE: usize = 88;

    /// The magic constant, then the ten fields. A header whose regions do not
    /// lie in order is not written.
    open spec fn spec_write(&self) -> Result<Seq<u8>, IkvblobError> {
        if self.regions_in_order() {
            Ok(self.spec_bytes())
        } else {
            Err(IkvblobError::RegionOverlap)
        }
    }

    /// The magic constant is checked first, then the version, then that all
    /// ten fields are there, then that the regions lie in order.
    open spec fn spec_read(bytes: Seq<u8>) -> Result<Self, IkvblobError> {
        if bytes.len() < 8 {
            Err(IkvblobError::Truncated)
        } else if bytes.take(8) != MAGIC@ {
            Err(IkvblobError::BadMagic)
        } else if bytes.len() < 16 {
            Err(IkvblobError::Truncated)
        } else if spec_u64_from_le_bytes(bytes.subrange(8, 16)) > FILE_FORMAT_VERSION {
            Err(
                IkvblobError::UnsupportedVersion {
                    found: spec_u64_from_le_bytes(bytes.subrange(8, 16)),
                },
            )
        } else if bytes.len() < 88 {
            Err(IkvblobError::Truncated)
        } else if !IkvblobHeader::from_fields(words_from_le(bytes.skip(8), 10)).regions_in_order() {
            Err(IkvblobError::RegionOverlap)
        } else {
            Ok(IkvblobHeader::from_fields(words_from_le(bytes.skip(8), 10)))
        }
    }

    fn write(&self, write: &mut Vec<u8>) -> (done: Result<(), IkvblobError>) {
        match self.invariant_check() {
            Ok(()) => {},
            Err(e) => {
                return Err(e);
            },
        }
        append_bytes(write, MAGIC.as_slice());
        let fields: [u64; 10] = [
            self.version,
            self.dynamic_metadata_offset,
            self.dynamic_metadata_size,
            self.cuckoo_table_offset,
            self.cuckoo_table_size,
            self.cuckoo_entry_size,
            self.cuckoo_table_elems_per_bucket,
            self.cuckoo_table_num_hashers,
            self.value_blob_offset,
            self.value_blob_size,
        ];
        assert(fields@ =~= self.fields());
        let mut i: usize = 0;
        while i < 10
            invariant
                i <= 10,
                fields@ == self.fields(),
                write@ == old(write)@ + MAGIC@ + words_to_le(fields@.take(i as int)),
            decreases 10 - i,
        {
            let word = u64_to_le(fields[i]);
            append_bytes(write, word.as_slice());
            proof {
                assert(fields@.take(i + 1).drop_last() =~= fields@.take(i as int));
                assert(fields@.take(i + 1).last() == fields@[i as int]);
            }
            i += 1;
        }
        assert(fields@.take(10) =~= fields@);
        assert(write@ =~= old(write)@ + (MAGIC@ + words_to_le(self.fields())));
        Ok(())
    }

    fn read(read: &[u8]) -> (value: Result<Self, IkvblobError>) {
        if read.len() < 8 {
            return Err(IkvblobError::Truncated);
        }
        let mut i: usize = 0;
        while i < 8
            invariant
                i <= 8,
                read@.len() >= 8,
                forall|j: int| 0 <= j < i ==> read@[j] == MAGIC@[j],
            decreases 8 - i,
        {
            if read[i] != MAGIC[i] {
                assert(read@.take(8)[i as int] != MAGIC@[i as int]);
                return Err(IkvblobError::BadMagic);
            }
            i += 1;
        }
        assert(read@.take(8) =~= MAGIC@);
        if read.len() < 16 {
            return Err(IkvblobError::Truncated);
        }
        let version: u64 = u64_from_le(slice_subrange(read, 8, 16));
        assert(read@.subrange(8, 16).subrange(0, 8) =~= read@.subrange(8, 16));
        if version > FILE_FORMAT_VERSION {
            return Err(IkvblobError::UnsupportedVersion { found: version });
        }
        if read.len() < 88 {
            return Err(IkvblobError::Truncated);
        }
        let mut fields: [u64; 10] = [0u64; 10];
        let mut k: usize = 0;
        while k < 10
            invariant
                k <= 10,
                read@.len() >= 88,
                forall|j: int| 0 <= j < k ==> fields@[j] == words_from_le(read@.skip(8), 10)[j],
            decreases 10 - k,
        {
            let word: u64 = u64_from_le(slice_subrange(read, 8 + 8 * k, 16 + 8 * k));
            proof {
                let piece = read@.subrange(8 + 8 * k, 16 + 8 * k);
                assert(piece.subrange(0, 8) =~= piece);
                assert(read@.skip(8).subrange(8 * k, 8 * k + 8) =~= piece);
            }
            fields[k] = word;
            k += 1;
        }
        assert(fields@ =~= words_from_le(read@.skip(8), 10));
        let header = IkvblobHeader {
            version: fields[0],
            dynamic_metadata_offset: fields[1],
            dynamic_metadata_size: fields[2],
            cuckoo_table_offset: fields[3],
            cuckoo_table_size: fields[4],
            cuckoo_entry_size: fields[5],
            cuckoo_table_elems_per_bucket: fields[6],
            cuckoo_table_num_hashers: fields[7],
            value_blob_offset: fields[8],
            value_blob_size: fields[9],
        };
        match header.invariant_check() {
            Ok(()) => Ok(header),
            Err(e) => Err(e),
        }
    }

    proof fn lemma_written_len(&self) {
        lemma_words_round_trip(self.fields());
    }
}

/// Writing a header and reading it back gives the header, for every header
/// of a version that this library reads whose regions lie in order.
pub proof fn lemma_header_round_trip(header: IkvblobHeader)
    requires
        header.version <= FILE_FORMAT_VERSION,
        header.regions_in_order(),
    ensures
        header.spec_write() matches Ok(bytes) && IkvblobHeader::spec_read(bytes) == Ok::<
            IkvblobHeader,
            IkvblobError,
        >(header),
{
    let words = header.fields();
    let bytes = MAGIC@ + words_to_le(words);
    lemma_words_round_trip(words);
    assert(bytes.take(8) =~= MAGIC@);
    assert(bytes.skip(8) =~= words_to_le(words));
    let back = words_from_le(bytes.skip(8), 10);
    assert(back == words);
    assert(bytes.subrange(8, 16) =~= bytes.skip(8).subrange(0, 8));
    assert(back[0] == spec_u64_from_le_bytes(bytes.skip(8).subrange(0, 8)));
}

} // verus!

verus! {

/// The bytes of the records of `entries`, one after the other, or the error
/// of the first one that cannot be written.
pub open spec fn spec_bucket_bytes<E: StaticSizeSerializable>(entries: Seq<E>) -> Result<
    Seq<u8>,
    IkvblobError,
>
    decreases entries.len(),
{
    if entries.len() == 0 {
        Ok(Seq::empty())
    } else {
        match spec_bucket_bytes(entries.drop_last()) {
            Err(e) => Err(e),
            Ok(bytes) => match entries.last().spec_write() {
                Err(e) => Err(e),
                Ok(record) => Ok(bytes + record),
            },
        }
    }
}

/// The bytes of the buckets of `table`, one after the other, or the error of
/// the first record that cannot be written.
pub open spec fn spec_table_bytes<E: StaticSizeSerializable>(table: Seq<Seq<E>>) -> Result<
    Seq<u8>,
    IkvblobError,
>
    decreases table.len(),
{
    if table.len() == 0 {
        Ok(Seq::empty())
    } else {
        match spec_table_bytes(table.drop_last()) {
            Err(e) => Err(e),
            Ok(bytes) => match spec_bucket_bytes(table.last()) {
                Err(e) => Err(e),
                Ok(bucket) => Ok(bytes + bucket),
            },
        }
    }
}

/// An error among the first records is the error of them all.
pub proof fn lemma_bucket_error_stays<E: StaticSizeSerializable>(entries: Seq<E>, n: int)
    requires
        0 <= n <= entries.len(),
        spec_bucket_bytes(entries.take(n)) is Err,
    ensures
        spec_bucket_bytes(entries) == spec_bucket_bytes(entries.take(n)),
    decreases entries.len(),
{
    if n < entries.len() {
        assert(entries.drop_last().take(n) =~= entries.take(n));
        lemma_bucket_error_stays(entries.drop_last(), n);
    } else {
        assert(entries.take(n) =~= entries);
    }
}

/// An error among the first buckets is the error of them all.
pub proof fn lemma_table_error_stays<E: StaticSizeSerializable>(table: Seq<Seq<E>>, n: int)
    requires
        0 <= n <= table.len(),
        spec_table_bytes(table.take(n)) is Err,
    ensures
        spec_table_bytes(table) == spec_table_bytes(table.take(n)),
    decreases table.len(),
{
    if n < table.len() {
        assert(table.drop_last().take(n) =~= table.take(n));
        lemma_table_error_stays(table.drop_last(), n);
    } else {
        assert(table.take(n) =~= table);
    }
}

/// The records of a bucket have `SER_SIZE` bytes each.
pub proof fn lemma_bucket_bytes_len<E: StaticSizeSerializable>(entries: Seq<E>)
    ensures
        spec_bucket_bytes(entries) matches Ok(bytes) ==> bytes.len() == entries.len() * E::SER_SIZE,
    decreases entries.len(),
{
    if entries.len() > 0 {
        lemma_bucket_bytes_len(entries.drop_last());
        entries.last().lemma_written_len();
        assert((entries.len() - 1) * E::SER_SIZE + E::SER_SIZE == entries.len() * E::SER_SIZE)
            by (nonlinear_arith);
    }
}

/// The buckets of a table of `bs` slots have `bs * SER_SIZE` bytes each.
pub proof fn lemma_table_bytes_len<E: StaticSizeSerializable>(table: Seq<Seq<E>>, bs: nat)
    requires
        forall|b: int| 0 <= b < table.len() ==> (#[trigger] table[b]).len() == bs,
    ensures
        spec_table_bytes(table) matches Ok(bytes) ==> bytes.len() == table.len() * (bs
            * E::SER_SIZE),
    decreases table.len(),
{
    if table.len() > 0 {
        lemma_table_bytes_len(table.drop_last(), bs);
        lemma_bucket_bytes_len(table.last());
        assert((table.len() - 1) * (bs * E::SER_SIZE) + bs * E::SER_SIZE == table.len() * (bs
            * E::SER_SIZE)) by (nonlinear_arith);
    }
}

/// Appends the records of a bucket to `out`. On an error nothing is appended.
pub fn write_bucket<E: StaticSizeSerializable, const BS: usize>(
    bucket: &[E; BS],
    out: &mut Vec<u8>,
) -> (done: Result<(), IkvblobError>)
    ensures
        match done {
            Ok(()) => spec_bucket_bytes(bucket@) matches Ok(bytes) && final(out)@ == old(out)@
                + bytes,
            Err(e) => spec_bucket_bytes(bucket@) == Err::<Seq<u8>, IkvblobError>(e) && final(out)@
                == old(out)@,
        },
{
    let before = out.len();
    let mut s: usize = 0;
    while s < BS
        invariant
            s <= BS,
            before == old(out)@.len(),
            spec_bucket_bytes(bucket@.take(s as int)) matches Ok(bytes) && out@ == old(out)@
                + bytes,
        decreases BS - s,
    {
        proof {
            assert(bucket@.take(s + 1).drop_last() =~= bucket@.take(s as int));
            assert(bucket@.take(s + 1).last() == bucket@[s as int]);
        }
        let ghost sofar = out@;
        match bucket[s].write(out) {
            Ok(()) => {
                assert(out@ =~= old(out)@ + spec_bucket_bytes(bucket@.take(s + 1))->Ok_0);
            },
            Err(e) => {
                proof {
                    lemma_bucket_error_stays(bucket@, s + 1);
                }
                out.truncate(before);
                assert(out@ =~= old(out)@);
                return Err(e);
            },
        }
        s += 1;
    }
    assert(bucket@.take(BS as int) =~= bucket@);
    Ok(())
}

/// The number of bytes of `len` bytes padded to a multiple of eight.
pub open spec fn padded_len(len: nat) -> nat {
    if len % 8 == 0 {
        len
    } else {
        (len + 8 - len % 8) as nat
    }
}

/// The header of the file that holds a table of `buckets` buckets of `bs`
/// records of `entry_size` bytes with `hs` hash functions, metadata of
/// `metadata_len` bytes and values of `values_len` bytes: the regions follow
/// the header one after the other, the metadata padded to a multiple of eight
/// bytes.
pub open spec fn spec_file_header(
    buckets: nat,
    bs: nat,
    hs: nat,
    entry_size: nat,
    metadata_len: nat,
    values_len: nat,
) -> IkvblobHeader {
    IkvblobHeader {
        version: FILE_FORMAT_VERSION,
        dynamic_metadata_offset: 88,
        dynamic_metadata_size: metadata_len as u64,
        cuckoo_table_offset: (88 + padded_len(metadata_len)) as u64,
        cuckoo_table_size: (buckets * (bs * entry_size)) as u64,
        cuckoo_entry_size: entry_size as u64,
        cuckoo_table_elems_per_bucket: bs as u64,
        cuckoo_table_num_hashers: hs as u64,
        value_blob_offset: (88 + padded_len(metadata_len) + buckets * (bs * entry_size)) as u64,
        value_blob_size: values_len as u64,
    }
}

/// The bytes of the file that holds `table` and `values`, compressed with
/// `dict` where `dict` is not empty: the header, the metadata padded with
/// zeros to a multiple of eight bytes, the records of the table bucket by
/// bucket, the values, and the checksum of all of that.
///
/// There is no file where `values` has not the declared length, where the
/// metadata cannot be encoded, where a size does not fit 64 bits, or where a
/// record cannot be written.
pub open spec fn spec_file<E: StaticSizeSerializable>(
    table: Seq<Seq<E>>,
    bs: nat,
    hs: nat,
    dict: Seq<u8>,
    values: Seq<u8>,
    declared_len: nat,
) -> Result<Seq<u8>, IkvblobError> {
    if values.len() != declared_len {
        Err(IkvblobError::SizeMismatch)
    } else {
        match spec_metadata_bytes(dict) {
            Err(e) => Err(e),
            Ok(metadata) => if 88 + padded_len(metadata.len()) + table.len() * (bs * E::SER_SIZE)
                + values.len() + 4 > u64::MAX {
                Err(IkvblobError::FileTooLarge)
            } else {
                match spec_table_bytes(table) {
                    Err(e) => Err(e),
                    Ok(records) => {
                        let header = spec_file_header(
                            table.len(),
                            bs,
                            hs,
                            E::SER_SIZE as nat,
                            metadata.len(),
                            values.len(),
                        );
                        let body = header.spec_bytes() + metadata + zeros(
                            (padded_len(metadata.len()) - metadata.len()) as nat,
                        ) + records + values;
                        Ok(body + spec_u32_to_le_bytes(crc32(body)))
                    },
                }
            },
        }
    }
}

/// Writes the file that holds the table `map_table` and the values `values`,
/// which the locators of the table address. `compression_dict` is the
/// dictionary with which the values were compressed, empty where they were
/// not. `result_byte_len` is the length that the values are declared to have.
pub fn write_combined_file<const BS: usize, const HS: usize, K: TableKey, V: Copy>(
    map_table: &StaticCuckooTable<BS, HS, K, V>,
    compression_dict: &[u8],
    values: &[u8],
    result_byte_len: usize,
) -> (file: Result<Vec<u8>, IkvblobError>) where Option<(K, V)>: StaticSizeSerializable
    ensures
        match file {
            Ok(f) => spec_file(
                map_table.slots(),
                BS as nat,
                HS as nat,
                compression_dict@,
                values@,
                result_byte_len as nat,
            ) == Ok::<Seq<u8>, IkvblobError>(f@),
            Err(e) => spec_file(
                map_table.slots(),
                BS as nat,
                HS as nat,
                compression_dict@,
                values@,
                result_byte_len as nat,
            ) == Err::<Seq<u8>, IkvblobError>(e),
        },
{
    if values.len() != result_byte_len {
        return Err(IkvblobError::SizeMismatch);
    }
    let mut md_bytes = match encode_metadata(compression_dict) {
        Ok(bytes) => bytes,
        Err(e) => {
            return Err(e);
        },
    };
    let ghost metadata = md_bytes@;
    let md_size = md_bytes.len();
    let padding: usize = if md_size % 8 == 0 {
        0
    } else {
        8 - md_size % 8
    };
    let entry_size: usize = <Option<(K, V)> as StaticSizeSerializable>::SER_SIZE;
    let buckets: usize = map_table.table.len();
    let ghost total = 88 + padded_len(md_size as nat) + buckets * (BS * entry_size) + values@.len()
        + 4;
    let sizes = checked_layout(md_size, padding, buckets, BS, entry_size, values.len());
    let (table_size, table_offset, blob_offset) = match sizes {
        Some(sizes) => sizes,
        None => {
            return Err(IkvblobError::FileTooLarge);
        },
    };
    let header = IkvblobHeader {
        version: FILE_FORMAT_VERSION,
        dynamic_metadata_offset: 88,
        dynamic_metadata_size: md_size as u64,
        cuckoo_table_offset: table_offset,
        cuckoo_table_size: table_size,
        cuckoo_entry_size: entry_size as u64,
        cuckoo_table_elems_per_bucket: BS as u64,
        cuckoo_table_num_hashers: HS as u64,
        value_blob_offset: blob_offset,
        value_blob_size: values.len() as u64,
    };
    assert(header == spec_file_header(
        buckets as nat,
        BS as nat,
        HS as nat,
        entry_size as nat,
        md_size as nat,
        values@.len(),
    ));
    let mut out: Vec<u8> = Vec::new();
    let _ = header.write(&mut out);
    append_bytes(&mut out, md_bytes.as_slice());
    append_zeros(&mut out, padding);
    let ghost front = out@;
    let ghost slots = map_table.slots();
    let mut b: usize = 0;
    while b < buckets
        invariant
            b <= buckets,
            buckets == map_table.table@.len(),
            slots == map_table.slots(),
            values@.len() == result_byte_len,
            spec_metadata_bytes(compression_dict@) == Ok::<Seq<u8>, IkvblobError>(metadata),
            entry_size == <Option<(K, V)> as StaticSizeSerializable>::SER_SIZE,
            88 + padded_len(metadata.len()) + buckets * (BS * entry_size) + values@.len() + 4
                <= u64::MAX,
            spec_table_bytes(slots.take(b as int)) matches Ok(records) && out@ == front + records,
        decreases buckets - b,
    {
        proof {
            assert(slots.take(b + 1).drop_last() =~= slots.take(b as int));
            assert(slots.take(b + 1).last() == map_table.table@[b as int]@);
        }
        match write_bucket(&map_table.table[b], &mut out) {
            Ok(()) => {
                assert(out@ =~= front + spec_table_bytes(slots.take(b + 1))->Ok_0);
            },
            Err(e) => {
                proof {
                    lemma_table_error_stays(slots, b + 1);
                }
                return Err(e);
            },
        }
        b += 1;
    }
    assert(slots.take(buckets as int) =~= slots);
    append_bytes(&mut out, values);
    let mut dest = CRC32Writer::new(Vec::new());
    dest.write(out.as_slice());
    let cs = dest.current_crc();
    let checksum = u32_to_le(cs);
    dest.write(checksum.as_slice());
    let file = dest.into_inner();
    proof {
        let records = spec_table_bytes(slots)->Ok_0;
        let body = header.spec_bytes() + metadata + zeros(
            (padded_len(metadata.len()) - metadata.len()) as nat,
        ) + records + values@;
        assert(out@ =~= body);
        assert(file@ =~= body + spec_u32_to_le_bytes(crc32(body)));
    }
    Ok(file)
}

/// The size of the table and the offsets of the table and of the value blob,
/// where the whole file fits 64 bits.
fn checked_layout(
    md_size: usize,
    padding: usize,
    buckets: usize,
    bs: usize,
    entry_size: usize,
    values_len: usize,
) -> (sizes: Option<(u64, u64, u64)>)
    requires
        md_size + padding == padded_len(md_size as nat),
        padding < 8,
    ensures
        match sizes {
            Some((table_size, table_offset, blob_offset)) => {
                &&& 88 + padded_len(md_size as nat) + buckets * (bs * entry_size) + values_len + 4
                    <= u64::MAX
                &&& table_size == buckets * (bs * entry_size)
                &&& table_offset == 88 + padded_len(md_size as nat)
                &&& blob_offset == 88 + padded_len(md_size as nat) + buckets * (bs * entry_size)
            },
            None => 88 + padded_len(md_size as nat) + buckets * (bs * entry_size) + values_len + 4
                > u64::MAX,
        },
{
    let bucket_size = match (bs as u64).checked_mul(entry_size as u64) {
        Some(n) => n,
        None => {
            // a table without buckets has no bytes, whatever a bucket's size
            if buckets == 0 {
                0
            } else {
                assert(buckets * (bs * entry_size) >= bs * entry_size) by (nonlinear_arith)
                    requires
                        buckets >= 1,
                        bs * entry_size >= 0,
                ;
                return None;
            }
        },
    };
    let table_size = if buckets == 0 {
        assert(buckets * (bs * entry_size) == 0) by (nonlinear_arith)
            requires
                buckets == 0,
        ;
        0u64
    } else {
        match (buckets as u64).checked_mul(bucket_size) {
            Some(n) => n,
            None => {
                return None;
            },
        }
    };
    let table_offset = match (md_size as u64).checked_add(padding as u64 + 88) {
        Some(n) => n,
        None => {
            return None;
        },
    };
    let blob_offset = match table_offset.checked_add(table_size) {
        Some(n) => n,
        None => {
            return None;
        },
    };
    let blob_end = match blob_offset.checked_add(values_len as u64) {
        Some(n) => n,
        None => {
            return None;
        },
    };
    match blob_end.checked_add(4) {
        Some(_) => Some((table_size, table_offset, blob_offset)),
        None => None,
    }
}

/// The sizes of the records of this format.
pub proof fn lemma_record_sizes()
    ensures
        <u64 as StaticSizeSerializable>::SER_SIZE == 8,
        <Multihash<32> as StaticSizeSerializable>::SER_SIZE == 33,
        <IndexTableEntry as StaticSizeSerializable>::SER_SIZE == 48,
        <IkvblobHeader as StaticSizeSerializable>::SER_SIZE == 88,
{
}

} // verus!
