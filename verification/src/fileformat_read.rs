//! Reading a file: opening it over a source of bytes, and looking keys up
//! with a few ranged reads each.

use crate::bytes::u32_from_le;
use crate::compression::{spec_try_decompress, try_decompress};
use crate::cuckoo::{first_holding, key_bucket, TableKey};
use crate::cuckoo_laws::lemma_key_bucket_range;
pub use crate::error::IkvblobError;
use crate::fileformat_write::{IkvblobHeader, StaticSizeSerializable};
use crate::memory_view::Memory;
use crate::metadata::{parse_metadata, spec_parse_metadata};
use crate::parametrized_hasher::SipHasherFactory;
use crate::utils::{crc32_of_bytes, spec_checksum_holds};
use std::marker::PhantomData;
use std::ops::Range;
use vstd::prelude::*;
use vstd::slice::slice_subrange;

verus! {

/// What the first 88 bytes of a file of `len` bytes say to a reader of records
/// of type `E`, or the reason for which the file cannot be read: the header
/// must parse, which includes that its regions lie in order, its records must
/// have the size of `E`, the file must have the length that the header gives, and a bucket
/// must have a size.
pub open spec fn spec_checked_header<E: StaticSizeSerializable>(
    header_bytes: Seq<u8>,
    len: nat,
) -> Result<IkvblobHeader, IkvblobError> {
    match IkvblobHeader::spec_read(header_bytes) {
        Err(e) => Err(e),
        Ok(header) => if header.cuckoo_entry_size != E::SER_SIZE {
            Err(
                IkvblobError::EntrySizeMismatch {
                    expected: E::SER_SIZE as u64,
                    found: header.cuckoo_entry_size,
                },
            )
        } else if header.spec_total_size() != len {
            Err(IkvblobError::SizeMismatch)
        } else if header.spec_bucket_size() == 0 || header.spec_bucket_size() > u64::MAX {
            Err(IkvblobError::BadTableGeometry)
        } else {
            Ok(header)
        },
    }
}

/// What the header of a file says to a reader of records of type `E`.
pub open spec fn spec_header<E: StaticSizeSerializable>(data: Seq<u8>) -> Result<
    IkvblobHeader,
    IkvblobError,
> {
    if data.len() < 88 {
        Err(IkvblobError::Truncated)
    } else {
        spec_checked_header::<E>(data.take(88), data.len())
    }
}

/// What opening a file yields: its header and the compression dictionary
/// that its metadata declares, if any.
pub open spec fn spec_open<E: StaticSizeSerializable>(data: Seq<u8>) -> Result<
    (IkvblobHeader, Option<Seq<u8>>),
    IkvblobError,
> {
    match spec_header::<E>(data) {
        Err(e) => Err(e),
        Ok(header) => match spec_parse_metadata(
            data.subrange(
                header.dynamic_metadata_offset as int,
                header.dynamic_metadata_offset + header.dynamic_metadata_size,
            ),
        ) {
            Err(e) => Err(e),
            Ok(dict) => Ok((header, dict)),
        },
    }
}

/// The first `count` records of `bytes`, or the error of the first one that
/// cannot be read.
pub open spec fn spec_records<E: StaticSizeSerializable>(bytes: Seq<u8>, count: nat) -> Result<
    Seq<E>,
    IkvblobError,
>
    decreases count,
{
    if count == 0 {
        Ok(Seq::empty())
    } else {
        match spec_records::<E>(bytes, (count - 1) as nat) {
            Err(e) => Err(e),
            Ok(front) => match E::spec_read(bytes.skip((count - 1) * E::SER_SIZE)) {
                Err(e) => Err(e),
                Ok(record) => Ok(front.push(record)),
            },
        }
    }
}

/// The bytes of bucket `idx` of the index table.
pub open spec fn spec_bucket_data(data: Seq<u8>, header: IkvblobHeader, idx: int) -> Seq<u8> {
    data.subrange(
        header.cuckoo_table_offset + idx * header.spec_bucket_size(),
        header.cuckoo_table_offset + (idx + 1) * header.spec_bucket_size(),
    )
}

/// The locator that the index of a file holds for `key`, trying the hash
/// functions from `from` on in order: the hash function of index `j` has the
/// parameter `j + 1`. Of each hash function the whole bucket is read, and its
/// slots are gone through from the first.
pub open spec fn spec_value_address<K: StaticSizeSerializable, Idx>(
    data: Seq<u8>,
    header: IkvblobHeader,
    key: K,
    from: int,
) -> Result<Option<Idx>, IkvblobError> where Option<(K, Idx)>: StaticSizeSerializable
    decreases header.cuckoo_table_num_hashers - from,
{
    if from < 0 || from >= header.cuckoo_table_num_hashers || header.spec_num_buckets() <= 0 {
        Ok(None)
    } else {
        let idx = key_bucket((from + 1) as u64, key, header.spec_num_buckets() as nat);
        match spec_records::<Option<(K, Idx)>>(
            spec_bucket_data(data, header, idx),
            header.cuckoo_table_elems_per_bucket as nat,
        ) {
            Err(e) => Err(e),
            Ok(entries) => match first_holding(entries, key, 0) {
                Some(s) => Ok(Some(entries[s].unwrap().1)),
                None => spec_value_address::<K, Idx>(data, header, key, from + 1),
            },
        }
    }
}

/// What a lookup of `key` in a file returns: `None` where the index does not
/// hold the key; else the bytes of the value blob that the locator of the key
/// addresses, decompressed where the file declares a dictionary.
pub open spec fn spec_lookup<K: StaticSizeSerializable>(
    data: Seq<u8>,
    header: IkvblobHeader,
    dict: Option<Seq<u8>>,
    key: K,
) -> Result<Option<Seq<u8>>, IkvblobError> where Option<(K, (u64, u64))>: StaticSizeSerializable {
    match spec_value_address::<K, (u64, u64)>(data, header, key, 0) {
        Err(e) => Err(e),
        Ok(None) => Ok(None),
        Ok(Some((offset, size))) => if offset + size > header.value_blob_size {
            Err(IkvblobError::LocatorOutOfRange)
        } else {
            match spec_try_decompress(
                dict,
                data.subrange(
                    header.value_blob_offset + offset,
                    header.value_blob_offset + offset + size,
                ),
            ) {
                Err(e) => Err(e),
                Ok(value) => Ok(Some(value)),
            }
        },
    }
}

/// Reads the first `count` records of `bytes`.
pub fn read_records<E: StaticSizeSerializable>(bytes: &[u8], count: usize) -> (records: Result<
    Vec<E>,
    IkvblobError,
>)
    requires
        bytes@.len() == count * E::SER_SIZE,
    ensures
        match records {
            Ok(r) => spec_records::<E>(bytes@, count as nat) == Ok::<Seq<E>, IkvblobError>(r@),
            Err(e) => spec_records::<E>(bytes@, count as nat) == Err::<Seq<E>, IkvblobError>(e),
        },
{
    let mut result: Vec<E> = Vec::new();
    let total = bytes.len();
    let mut s: usize = 0;
    while s < count
        invariant
            s <= count,
            total == bytes@.len(),
            bytes@.len() == count * E::SER_SIZE,
            spec_records::<E>(bytes@, s as nat) == Ok::<Seq<E>, IkvblobError>(result@),
        decreases count - s,
    {
        assert(s * E::SER_SIZE <= count * E::SER_SIZE) by (nonlinear_arith)
            requires
                s <= count,
                E::SER_SIZE >= 0,
        ;
        let rest = slice_subrange(bytes, s * E::SER_SIZE, total);
        assert(rest@ =~= bytes@.skip(s * E::SER_SIZE));
        match E::read(rest) {
            Ok(record) => {
                result.push(record);
            },
            Err(e) => {
                proof {
                    lemma_records_error_stays::<E>(bytes@, (s + 1) as nat, count as nat);
                }
                return Err(e);
            },
        }
        s += 1;
    }
    Ok(result)
}

/// An error among the first records is the error of them all.
pub proof fn lemma_records_error_stays<E: StaticSizeSerializable>(bytes: Seq<u8>, n: nat, count: nat)
    requires
        n <= count,
        spec_records::<E>(bytes, n) is Err,
    ensures
        spec_records::<E>(bytes, count) == spec_records::<E>(bytes, n),
    decreases count,
{
    if n < count {
        lemma_records_error_stays::<E>(bytes, n, (count - 1) as nat);
    }
}

/// The value of the first slot of a bucket that holds `key`.
pub fn scan_bucket<K: TableKey, Idx: Copy>(bucket: &Vec<Option<(K, Idx)>>, key: &K) -> (found:
    Option<Idx>)
    ensures
        match first_holding(bucket@, *key, 0) {
            Some(s) => found == Some(bucket@[s].unwrap().1),
            None => found is None,
        },
{
    let mut s: usize = 0;
    while s < bucket.len()
        invariant
            s <= bucket@.len(),
            first_holding(bucket@, *key, 0) == first_holding(bucket@, *key, s as int),
        decreases bucket@.len() - s,
    {
        match &bucket[s] {
            Some((k, v)) => {
                if k.same_key(key) {
                    return Some(*v);
                }
            },
            None => {},
        }
        s += 1;
    }
    None
}

/// What a reader relies on in the layout that a header gives: the regions
/// lie in order, the file is not longer than can be addressed, and a bucket
/// has a size.
pub open spec fn layout_usable(header: IkvblobHeader) -> bool {
    &&& header.regions_in_order()
    &&& header.spec_total_size() <= usize::MAX
    &&& 0 < header.spec_bucket_size() <= u64::MAX
}

/// What a reader of records of type `E` relies on in a header.
pub open spec fn header_usable<E: StaticSizeSerializable>(header: IkvblobHeader) -> bool {
    layout_usable(header) && header.cuckoo_entry_size == E::SER_SIZE
}

/// Whether a reader can rely on the layout that a header gives.
pub fn layout_is_usable(header: &IkvblobHeader) -> (usable: bool)
    ensures
        usable == layout_usable(*header),
{
    if header.invariant_check().is_err() {
        return false;
    }
    let fits = match header.value_blob_offset.checked_add(header.value_blob_size) {
        Some(end) => match end.checked_add(4) {
            Some(total) => total <= usize::MAX as u64,
            None => false,
        },
        None => false,
    };
    let sized = match header.cuckoo_table_elems_per_bucket.checked_mul(header.cuckoo_entry_size) {
        Some(bucket_size) => bucket_size > 0,
        None => false,
    };
    fits && sized
}

/// Whether a reader of records of type `E` can rely on a header.
pub fn header_is_usable<E: StaticSizeSerializable>(header: &IkvblobHeader) -> (usable: bool)
    ensures
        usable == header_usable::<E>(*header),
{
    let entry_size: usize = E::SER_SIZE;
    layout_is_usable(header) && header.cuckoo_entry_size == entry_size as u64
}

/// Parses and checks the header of a file of `len` bytes for a reader of
/// records of type `E`.
pub fn check_header<E: StaticSizeSerializable>(header_bytes: &[u8], len: usize) -> (header: Result<
    IkvblobHeader,
    IkvblobError,
>)
    ensures
        header == spec_checked_header::<E>(header_bytes@, len as nat),
        header matches Ok(h) ==> header_usable::<E>(h) && h.spec_total_size() == len,
{
    let header = match IkvblobHeader::read(header_bytes) {
        Ok(header) => header,
        Err(e) => {
            return Err(e);
        },
    };
    let entry_size: usize = E::SER_SIZE;
    if header.cuckoo_entry_size != entry_size as u64 {
        return Err(
            IkvblobError::EntrySizeMismatch {
                expected: entry_size as u64,
                found: header.cuckoo_entry_size,
            },
        );
    }
    let declared = match header.value_blob_offset.checked_add(header.value_blob_size) {
        Some(end) => end.checked_add(4),
        None => None,
    };
    match declared {
        Some(total) => {
            if total != len as u64 {
                return Err(IkvblobError::SizeMismatch);
            }
        },
        None => {
            return Err(IkvblobError::SizeMismatch);
        },
    }
    match header.cuckoo_table_elems_per_bucket.checked_mul(header.cuckoo_entry_size) {
        Some(bucket_size) => {
            if bucket_size == 0 {
                return Err(IkvblobError::BadTableGeometry);
            }
        },
        None => {
            return Err(IkvblobError::BadTableGeometry);
        },
    }
    Ok(header)
}

/// The range of the metadata block.
pub fn metadata_range(header: &IkvblobHeader) -> (range: Range<usize>)
    requires
        layout_usable(*header),
    ensures
        range.start == header.dynamic_metadata_offset,
        range.end == header.dynamic_metadata_offset + header.dynamic_metadata_size,
{
    let start = header.dynamic_metadata_offset as usize;
    let end = (header.dynamic_metadata_offset + header.dynamic_metadata_size) as usize;
    start..end
}

/// The number of buckets of the index table.
pub fn table_buckets(header: &IkvblobHeader) -> (buckets: u64)
    requires
        layout_usable(*header),
    ensures
        buckets == header.spec_num_buckets(),
        buckets <= usize::MAX,
{
    proof {
        lemma_num_buckets_fit(*header, usize::MAX as nat);
    }
    header.cuckoo_table_size / (header.cuckoo_table_elems_per_bucket * header.cuckoo_entry_size)
}

/// The bucket of `key` under the hash function of index `j`, which has the
/// parameter `j + 1`, among `buckets` buckets.
pub fn bucket_of_key<K: TableKey>(j: u64, key: &K, buckets: u64) -> (idx: u64)
    requires
        j < u64::MAX,
        buckets > 0,
    ensures
        idx == key_bucket((j + 1) as u64, *key, buckets as nat),
        idx < buckets,
{
    proof {
        key.lemma_key_has_bytes();
        lemma_key_bucket_range((j + 1) as u64, *key, buckets as nat);
    }
    SipHasherFactory::new(j + 1).hash(key) % buckets
}

/// The range of bucket `idx` of the index table.
pub fn bucket_range(header: &IkvblobHeader, idx: u64) -> (range: Range<usize>)
    requires
        layout_usable(*header),
        idx < header.spec_num_buckets(),
    ensures
        range.start == header.cuckoo_table_offset + idx * header.spec_bucket_size(),
        range.end == header.cuckoo_table_offset + (idx + 1) * header.spec_bucket_size(),
        range.end - range.start == header.spec_bucket_size(),
        range.end <= header.cuckoo_table_offset + header.cuckoo_table_size,
{
    proof {
        lemma_bucket_in_table(*header, idx as int);
    }
    let bucket_size: u64 = header.cuckoo_table_elems_per_bucket * header.cuckoo_entry_size;
    assert(idx * bucket_size == idx * header.spec_bucket_size());
    let start: u64 = header.cuckoo_table_offset + idx * bucket_size;
    let end: u64 = start + bucket_size;
    (start as usize)..(end as usize)
}

/// Decodes the bytes of a bucket, which must be as many as the header says.
pub fn decode_bucket<E: StaticSizeSerializable>(header: &IkvblobHeader, bytes: &[u8]) -> (bucket:
    Result<Vec<E>, IkvblobError>)
    requires
        header_usable::<E>(*header),
    ensures
        bytes@.len() != header.spec_bucket_size() ==> bucket == Err::<Vec<E>, IkvblobError>(
            IkvblobError::ReadFailed,
        ),
        bytes@.len() == header.spec_bucket_size() ==> match bucket {
            Ok(b) => spec_records::<E>(bytes@, header.cuckoo_table_elems_per_bucket as nat) == Ok::<
                Seq<E>,
                IkvblobError,
            >(b@),
            Err(e) => spec_records::<E>(bytes@, header.cuckoo_table_elems_per_bucket as nat)
                == Err::<Seq<E>, IkvblobError>(e),
        },
{
    let bucket_size: u64 = header.cuckoo_table_elems_per_bucket * header.cuckoo_entry_size;
    if bytes.len() as u64 != bucket_size {
        return Err(IkvblobError::ReadFailed);
    }
    assert(header.cuckoo_table_elems_per_bucket <= bucket_size) by (nonlinear_arith)
        requires
            bucket_size == header.cuckoo_table_elems_per_bucket * header.cuckoo_entry_size,
            bucket_size > 0,
    ;
    read_records::<E>(bytes, header.cuckoo_table_elems_per_bucket as usize)
}

/// The range of the value that a locator addresses, which must lie within
/// the value blob.
pub fn value_range(header: &IkvblobHeader, offset: u64, size: u64) -> (range: Result<
    Range<usize>,
    IkvblobError,
>)
    requires
        layout_usable(*header),
    ensures
        match range {
            Ok(r) => offset + size <= header.value_blob_size && r.start == header.value_blob_offset
                + offset && r.end == header.value_blob_offset + offset + size,
            Err(e) => offset + size > header.value_blob_size && e
                == IkvblobError::LocatorOutOfRange,
        },
{
    let within = match offset.checked_add(size) {
        Some(end) => end <= header.value_blob_size,
        None => false,
    };
    if !within {
        return Err(IkvblobError::LocatorOutOfRange);
    }
    let start: u64 = header.value_blob_offset + offset;
    let end: u64 = start + size;
    Ok((start as usize)..(end as usize))
}

/// Checks the trailing checksum of a whole file against the bytes before it.
pub fn check_integrity(file: &[u8]) -> (checked: Result<(), IkvblobError>)
    ensures
        checked == (if spec_checksum_holds(file@) {
            Ok::<(), IkvblobError>(())
        } else {
            Err::<(), IkvblobError>(IkvblobError::ChecksumMismatch)
        }),
{
    let len = file.len();
    if len < 4 {
        return Err(IkvblobError::ChecksumMismatch);
    }
    let body = slice_subrange(file, 0, len - 4);
    let tail = slice_subrange(file, len - 4, len);
    assert(body@ =~= file@.take(len - 4));
    assert(tail@ =~= file@.skip(len - 4));
    assert(tail@.subrange(0, 4) =~= tail@);
    if u32_from_le(tail) == crc32_of_bytes(body) {
        Ok(())
    } else {
        Err(IkvblobError::ChecksumMismatch)
    }
}

/// A read-only view of a file over a source of bytes.
pub struct IkvblobView<M: Memory, K: TableKey, Idx: Copy> where
    Option<(K, Idx)>: StaticSizeSerializable,
 {
    header: IkvblobHeader,
    source_memory: M,
    compression_dict: Option<Vec<u8>>,
    phantom_key: PhantomData<K>,
    phantom_idx: PhantomData<Idx>,
}

/// The view of an optional vector.
pub open spec fn option_view(bytes: Option<Vec<u8>>) -> Option<Seq<u8>> {
    match bytes {
        Some(b) => Some(b@),
        None => None,
    }
}

/// Whether a result is what the file gives. Of a source that is not known to
/// be reliable nothing is said: its reads decide.
pub open spec fn answers<T>(
    reliable: bool,
    result: Result<T, IkvblobError>,
    wanted: Result<T, IkvblobError>,
) -> bool {
    reliable ==> result == wanted
}

impl<M: Memory, K: TableKey, Idx: Copy> IkvblobView<M, K, Idx> where
    Option<(K, Idx)>: StaticSizeSerializable,
 {
    /// The bytes of the file.
    pub closed spec fn contents(&self) -> Seq<u8> {
        self.source_memory.contents()
    }

    /// Whether the source of the file always answers.
    pub closed spec fn reliable(&self) -> bool {
        self.source_memory.reliable()
    }

    /// The header of the file.
    pub closed spec fn spec_header(&self) -> IkvblobHeader {
        self.header
    }

    /// The compression dictionary of the file, if it declares one.
    pub closed spec fn spec_dict(&self) -> Option<Seq<u8>> {
        option_view(self.compression_dict)
    }

    /// The view holds what opening its file yields.
    #[verifier::type_invariant]
    pub closed spec fn wf(&self) -> bool {
        &&& header_usable::<Option<(K, Idx)>>(self.header)
        &&& self.source_memory.reliable() ==> spec_open::<Option<(K, Idx)>>(
            self.source_memory.contents(),
        ) == Ok::<(IkvblobHeader, Option<Seq<u8>>), IkvblobError>(
            (self.header, option_view(self.compression_dict)),
        )
    }

    /// What a view that is well formed knows of its header.
    proof fn lemma_wf(&self)
        requires
            self.wf(),
        ensures
            header_usable::<Option<(K, Idx)>>(self.header),
            self.reliable() ==> self.header.spec_total_size() == self.contents().len(),
    {
        if self.source_memory.reliable() {
            let data = self.source_memory.contents();
            assert(spec_header::<Option<(K, Idx)>>(data) is Ok);
            assert(spec_header::<Option<(K, Idx)>>(data) == Ok::<IkvblobHeader, IkvblobError>(
                self.header,
            ));
        }
    }

    /// The header of the file.
    pub fn header(&self) -> (header: &IkvblobHeader)
        ensures
            *header == self.spec_header(),
    {
        &self.header
    }

    /// Opens a file: reads and checks its header, and reads what its
    /// metadata says of compression.
    pub fn wrap(source_memory: M) -> (view: Result<Self, IkvblobError>)
        ensures
            match view {
                Ok(v) => {
                    &&& v.contents() == source_memory.contents()
                    &&& v.reliable() == source_memory.reliable()
                    &&& source_memory.reliable() ==> spec_open::<Option<(K, Idx)>>(
                        source_memory.contents(),
                    ) == Ok::<(IkvblobHeader, Option<Seq<u8>>), IkvblobError>(
                        (v.spec_header(), v.spec_dict()),
                    )
                },
                Err(e) => source_memory.reliable() ==> spec_open::<Option<(K, Idx)>>(
                    source_memory.contents(),
                ) == Err::<(IkvblobHeader, Option<Seq<u8>>), IkvblobError>(e),
            },
    {
        let ghost data = source_memory.contents();
        let len = match source_memory.len() {
            Ok(len) => len,
            Err(e) => {
                return Err(e);
            },
        };
        if len < 88 {
            return Err(IkvblobError::Truncated);
        }
        let header_bytes = match source_memory.read_slice(0..88) {
            Ok(bytes) => bytes,
            Err(e) => {
                return Err(e);
            },
        };
        if header_bytes.len() != 88 {
            return Err(IkvblobError::ReadFailed);
        }
        assert(source_memory.reliable() ==> header_bytes@ =~= data.take(88));
        let header = match check_header::<Option<(K, Idx)>>(header_bytes.as_slice(), len) {
            Ok(header) => header,
            Err(e) => {
                return Err(e);
            },
        };
        let md = match source_memory.read_slice(metadata_range(&header)) {
            Ok(bytes) => bytes,
            Err(e) => {
                return Err(e);
            },
        };
        if md.len() as u64 != header.dynamic_metadata_size {
            return Err(IkvblobError::ReadFailed);
        }
        let compression_dict = match parse_metadata(md.as_slice()) {
            Ok(dict) => dict,
            Err(e) => {
                return Err(e);
            },
        };
        Ok(
            IkvblobView {
                header,
                source_memory,
                compression_dict,
                phantom_key: PhantomData,
                phantom_idx: PhantomData,
            },
        )
    }

    /// Reads and decodes bucket `idx` of the index table.
    pub fn get_hashmap_bucket(&self, idx: usize) -> (bucket: Result<
        Vec<Option<(K, Idx)>>,
        IkvblobError,
    >)
        ensures
            answers(
                self.reliable(),
                match bucket {
                    Ok(b) => Ok(b@),
                    Err(e) => Err(e),
                },
                if idx < self.spec_header().spec_num_buckets() {
                    spec_records::<Option<(K, Idx)>>(
                        spec_bucket_data(self.contents(), self.spec_header(), idx as int),
                        self.spec_header().cuckoo_table_elems_per_bucket as nat,
                    )
                } else {
                    Err(IkvblobError::NoSuchBucket)
                },
            ),
    {
        proof {
            use_type_invariant(self);
            self.lemma_wf();
        }
        if idx as u64 >= table_buckets(&self.header) {
            return Err(IkvblobError::NoSuchBucket);
        }
        let range = bucket_range(&self.header, idx as u64);
        let slice = match self.source_memory.read_slice(range) {
            Ok(bytes) => bytes,
            Err(e) => {
                return Err(e);
            },
        };
        decode_bucket::<Option<(K, Idx)>>(&self.header, slice.as_slice())
    }

    /// Finds the locator of `key` in the index: tries the hash functions in
    /// order, and reads one bucket for each.
    pub fn lookup_value_address(&self, key: &K) -> (address: Result<Option<Idx>, IkvblobError>)
        ensures
            answers(
                self.reliable(),
                address,
                spec_value_address::<K, Idx>(self.contents(), self.spec_header(), *key, 0),
            ),
    {
        proof {
            use_type_invariant(self);
            self.lemma_wf();
        }
        let num_buckets = table_buckets(&self.header);
        if num_buckets == 0 {
            return Ok(None);
        }
        let ghost data = self.contents();
        let ghost header = self.spec_header();
        let mut j: u64 = 0;
        while j < self.header.cuckoo_table_num_hashers
            invariant
                data == self.contents(),
                header == self.spec_header(),
                header == self.header,
                j <= header.cuckoo_table_num_hashers,
                num_buckets == header.spec_num_buckets(),
                0 < num_buckets <= usize::MAX,
                self.reliable() ==> spec_value_address::<K, Idx>(data, header, *key, 0)
                    == spec_value_address::<K, Idx>(data, header, *key, j as int),
            decreases header.cuckoo_table_num_hashers - j,
        {
            let idx = bucket_of_key(j, key, num_buckets) as usize;
            let bucket = match self.get_hashmap_bucket(idx) {
                Ok(bucket) => bucket,
                Err(e) => {
                    return Err(e);
                },
            };
            match scan_bucket(&bucket, key) {
                Some(v) => {
                    return Ok(Some(v));
                },
                None => {},
            }
            j += 1;
        }
        Ok(None)
    }

    /// Checks the trailing checksum of the file against all the bytes before
    /// it. Lookups do not do this: it reads the whole file.
    pub fn verify_integrity(&self) -> (checked: Result<(), IkvblobError>)
        ensures
            answers(
                self.reliable(),
                checked,
                if spec_checksum_holds(self.contents()) {
                    Ok(())
                } else {
                    Err(IkvblobError::ChecksumMismatch)
                },
            ),
    {
        let len = match self.source_memory.len() {
            Ok(len) => len,
            Err(e) => {
                return Err(e);
            },
        };
        let all = match self.source_memory.read_slice(0..len) {
            Ok(bytes) => bytes,
            Err(e) => {
                return Err(e);
            },
        };
        assert(self.reliable() ==> all@ =~= self.contents());
        check_integrity(all.as_slice())
    }
}

impl<M: Memory, K: TableKey> IkvblobView<M, K, (u64, u64)> where
    Option<(K, (u64, u64))>: StaticSizeSerializable,
 {
    /// Decompresses a stored value with the dictionary of the file, if it
    /// declares one.
    pub fn try_decompress(&self, bytes: &[u8]) -> (value: Result<Vec<u8>, IkvblobError>)
        ensures
            match value {
                Ok(v) => spec_try_decompress(self.spec_dict(), bytes@) == Ok::<
                    Seq<u8>,
                    IkvblobError,
                >(v@),
                Err(e) => spec_try_decompress(self.spec_dict(), bytes@) == Err::<
                    Seq<u8>,
                    IkvblobError,
                >(e),
            },
    {
        try_decompress(self.compression_dict.as_ref(), bytes)
    }

    /// Looks `key` up in the file. A key that the file does not hold is no
    /// error: the lookup returns `None`.
    pub fn lookup(&self, key: &K) -> (value: Result<Option<Vec<u8>>, IkvblobError>)
        ensures
            answers(
                self.reliable(),
                match value {
                    Ok(Some(v)) => Ok(Some(v@)),
                    Ok(None) => Ok(None),
                    Err(e) => Err(e),
                },
                spec_lookup::<K>(self.contents(), self.spec_header(), self.spec_dict(), *key),
            ),
    {
        let (offset, size) = match self.lookup_value_address(key) {
            Ok(Some(v)) => v,
            Ok(None) => {
                return Ok(None);
            },
            Err(e) => {
                return Err(e);
            },
        };
        proof {
            use_type_invariant(self);
            self.lemma_wf();
        }
        let range = match value_range(&self.header, offset, size) {
            Ok(range) => range,
            Err(e) => {
                return Err(e);
            },
        };
        let raw_bytes = match self.source_memory.read_slice(range) {
            Ok(bytes) => bytes,
            Err(e) => {
                return Err(e);
            },
        };
        if raw_bytes.len() != size as usize {
            return Err(IkvblobError::ReadFailed);
        }
        match self.try_decompress(raw_bytes.as_slice()) {
            Ok(v) => Ok(Some(v)),
            Err(e) => Err(e),
        }
    }
}

/// Every bucket of the index table lies within the table.
pub proof fn lemma_bucket_in_table(header: IkvblobHeader, idx: int)
    requires
        0 < header.spec_bucket_size(),
        0 <= idx < header.spec_num_buckets(),
    ensures
        (idx + 1) * header.spec_bucket_size() <= header.cuckoo_table_size,
        0 <= idx * header.spec_bucket_size(),
        (idx + 1) * header.spec_bucket_size() == idx * header.spec_bucket_size()
            + header.spec_bucket_size(),
{
    let size = header.spec_bucket_size();
    let total = header.cuckoo_table_size as int;
    vstd::arithmetic::div_mod::lemma_fundamental_div_mod(total, size);
    vstd::arithmetic::div_mod::lemma_mod_pos_bound(total, size);
    assert((idx + 1) * size <= (total / size) * size) by (nonlinear_arith)
        requires
            idx + 1 <= total / size,
            size > 0,
    ;
    assert(size * (total / size) == (total / size) * size) by (nonlinear_arith);
    assert(0 <= idx * size) by (nonlinear_arith)
        requires
            0 <= idx,
            0 < size,
    ;
    assert((idx + 1) * size == idx * size + size) by (nonlinear_arith);
}

/// The index table has no more buckets than bytes.
pub proof fn lemma_num_buckets_fit(header: IkvblobHeader, len: nat)
    requires
        0 < header.spec_bucket_size(),
        header.cuckoo_table_size <= len,
    ensures
        0 <= header.spec_num_buckets() <= len,
{
    let size = header.spec_bucket_size();
    let total = header.cuckoo_table_size as int;
    vstd::arithmetic::div_mod::lemma_fundamental_div_mod(total, size);
    vstd::arithmetic::div_mod::lemma_mod_pos_bound(total, size);
    vstd::arithmetic::div_mod::lemma_div_pos_is_pos(total, size);
    assert(total / size <= size * (total / size)) by (nonlinear_arith)
        requires
            size >= 1,
            total / size >= 0,
    ;
}

} // verus!
