use ikvblob::cuckoo::StaticCuckooTable;
use ikvblob::error::IkvblobError;
use ikvblob::fileformat_read::IkvblobView;
use ikvblob::fileformat_write::{write_combined_file, IkvblobHeader, StaticSizeSerializable};
use ikvblob::index::layout_values;
use ikvblob::memory_view::Memory;
use ikvblob::multihash::Multihash;
use rand::{RngCore, SeedableRng};
use std::cell::Cell;
use std::ops::Range;
use std::rc::Rc;

type Key = Multihash<32>;
type Locator = (u64, u64);
type View<M> = IkvblobView<M, Key, Locator>;

fn outer_size(n: usize, ratio: f32, bs: usize) -> usize {
    (ratio * (n as f32) / bs as f32).ceil() as usize
}

/// A source that serves ranges as a remote store would: it counts the
/// requests, and fails on a range outside the object.
struct RangeFetch {
    object: Vec<u8>,
    requests: Rc<Cell<usize>>,
}

fn range_fetch(object: Vec<u8>) -> (RangeFetch, Rc<Cell<usize>>) {
    let requests = Rc::new(Cell::new(0));
    (RangeFetch { object, requests: requests.clone() }, requests)
}

impl Memory for RangeFetch {
    fn read_slice(&self, range: Range<usize>) -> Result<Vec<u8>, IkvblobError> {
        self.requests.set(self.requests.get() + 1);
        if range.start <= range.end && range.end <= self.object.len() {
            Ok(self.object[range].to_vec())
        } else {
            Err(IkvblobError::ReadFailed)
        }
    }

    fn len(&self) -> Result<usize, IkvblobError> {
        Ok(self.object.len())
    }
}

/// A source whose reads all fail.
struct Unreachable;

impl Memory for Unreachable {
    fn read_slice(&self, _range: Range<usize>) -> Result<Vec<u8>, IkvblobError> {
        Err(IkvblobError::ReadFailed)
    }

    fn len(&self) -> Result<usize, IkvblobError> {
        Ok(1000)
    }
}

fn small_file(dict: &[u8]) -> (Vec<u8>, Vec<(Key, Locator)>) {
    let entries: Vec<(Key, Locator)> = (0..10u8)
        .map(|i| (Multihash::<32>::wrap(1, [i; 32]), (i as u64 * 3, 3)))
        .collect();
    let table = StaticCuckooTable::<2, 2, Key, Locator>::from_iter(entries.clone(), 16).unwrap();
    let values: Vec<u8> = (0..30u8).collect();
    let file = write_combined_file(&table, dict, &values, values.len()).unwrap();
    (file, entries)
}

#[test]
fn test_full_ser_deser() {
    let test_size: usize = 100;
    let kvs: Vec<(Key, Locator)> = (0..test_size)
        .map(|i| (Multihash::<32>::wrap(2, [i as u8; 32]), (i as u64, 1u64)))
        .collect();
    let table =
        StaticCuckooTable::<8, 2, Key, Locator>::from_iter(kvs, outer_size(test_size, 1.2, 8))
            .unwrap();

    let data = (0..test_size).map(|x| x as u8).collect::<Vec<u8>>();

    let buf = write_combined_file(&table, &Vec::new(), &data[..], data.len()).unwrap();

    let view: View<Vec<u8>> = IkvblobView::wrap(buf).unwrap();

    let buckets = view.header().cuckoo_table_num_buckets();
    assert_eq!(buckets, table.table.len());
    let mut reconstr = Vec::new();
    for i in 0..buckets {
        let bucket = view.get_hashmap_bucket(i).unwrap();
        let bucket: [Option<(Key, Locator)>; 8] = bucket.try_into().unwrap();
        reconstr.push(bucket);
    }
    assert_eq!(reconstr, table.table);

    for i in 0..test_size {
        let key = Multihash::<32>::wrap(2, [i as u8; 32]);
        let value = view.lookup(&key).unwrap().unwrap();
        assert_eq!(value, vec![i as u8]);
    }
}

#[test]
fn file_layout_of_a_small_file() {
    let (file, _) = small_file(&[]);
    let header = IkvblobHeader::read(&file).unwrap();
    assert_eq!(
        header,
        IkvblobHeader {
            version: 1,
            dynamic_metadata_offset: 88,
            dynamic_metadata_size: 1,
            cuckoo_table_offset: 96,
            cuckoo_table_size: 16 * 2 * 48,
            cuckoo_entry_size: 48,
            cuckoo_table_elems_per_bucket: 2,
            cuckoo_table_num_hashers: 2,
            value_blob_offset: 96 + 1536,
            value_blob_size: 30,
        }
    );
    assert_eq!(file.len(), 96 + 1536 + 30 + 4);
    assert_eq!(header.total_size(), file.len());
    assert_eq!(header.invariant_check(), Ok(()));
    // the empty map, padded with zeros to eight bytes
    assert_eq!(&file[88..96], &[0xa0, 0, 0, 0, 0, 0, 0, 0]);
    assert_eq!(&file[1632..1662], &(0..30u8).collect::<Vec<u8>>()[..]);
    let crc = crc32fast::hash(&file[..1662]);
    assert_eq!(&file[1662..], &crc.to_le_bytes());
}

#[test]
fn end_to_end_over_memory_and_over_range_fetch() {
    let mut rng = rand::rngs::StdRng::seed_from_u64(2);
    let mut keys = Vec::new();
    let mut values: Vec<Vec<u8>> = Vec::new();
    for _ in 0..5000 {
        let mut key = [0u8; 32];
        rng.fill_bytes(&mut key);
        let mut value = [0u8; 16];
        rng.fill_bytes(&mut value);
        keys.push(Multihash::<32>::wrap(1, key));
        values.push(value.to_vec());
    }
    let (blob, locators) = layout_values(&values).unwrap();
    let entries: Vec<(Key, Locator)> = keys.iter().cloned().zip(locators.into_iter()).collect();
    let table =
        StaticCuckooTable::<2, 2, Key, Locator>::from_iter(entries, outer_size(5000, 1.5, 2))
            .unwrap();
    let file = write_combined_file(&table, &[], &blob, blob.len()).unwrap();

    let local: View<Vec<u8>> = IkvblobView::wrap(file.clone()).unwrap();
    let (source, _) = range_fetch(file);
    let remote: View<RangeFetch> = IkvblobView::wrap(source).unwrap();
    assert_eq!(local.verify_integrity(), Ok(()));
    assert_eq!(remote.verify_integrity(), Ok(()));

    for (key, value) in keys.iter().zip(values.iter()) {
        let here = local.lookup(key).unwrap();
        let there = remote.lookup(key).unwrap();
        assert_eq!(here.as_ref(), Some(value));
        assert_eq!(here, there);
    }
    for _ in 0..1000 {
        let mut key = [0u8; 32];
        rng.fill_bytes(&mut key);
        let key = Multihash::<32>::wrap(1, key);
        assert_eq!(local.lookup(&key), Ok(None));
        assert_eq!(remote.lookup(&key), Ok(None));
    }
}

#[test]
fn lookup_reads_at_most_one_bucket_per_hasher_and_one_value() {
    let (file, entries) = small_file(&[]);
    let (source, requests) = range_fetch(file);
    let remote: View<RangeFetch> = IkvblobView::wrap(source).unwrap();
    // the header and the metadata
    assert_eq!(requests.get(), 2);
    for (key, (offset, _)) in entries {
        let before = requests.get();
        let value = remote.lookup(&key).unwrap().unwrap();
        let reads = requests.get() - before;
        assert!(reads == 2 || reads == 3);
        assert_eq!(value, vec![offset as u8, offset as u8 + 1, offset as u8 + 2]);
    }
    let before = requests.get();
    assert_eq!(remote.lookup(&Multihash::<32>::wrap(1, [77; 32])), Ok(None));
    assert_eq!(requests.get() - before, 2);
}

#[test]
fn failures_of_the_source_reach_the_caller() {
    let opened: Result<View<Unreachable>, IkvblobError> = IkvblobView::wrap(Unreachable);
    assert_eq!(opened.err(), Some(IkvblobError::ReadFailed));

    // a source that is shorter than it says
    let (file, entries) = small_file(&[]);
    let (mut source, _) = range_fetch(file);
    let view_of_whole: View<Vec<u8>> = IkvblobView::wrap(source.object.clone()).unwrap();
    assert!(view_of_whole.lookup(&entries[0].0).unwrap().is_some());
    source.object.truncate(90);
    let opened: Result<View<RangeFetch>, IkvblobError> = IkvblobView::wrap(source);
    assert_eq!(opened.err(), Some(IkvblobError::SizeMismatch));
}

/// The file with field `field` of its header, counting from the version, set
/// to `value`.
fn with_field(file: &[u8], field: usize, value: u64) -> Vec<u8> {
    let mut changed = file.to_vec();
    changed[8 + 8 * field..16 + 8 * field].copy_from_slice(&value.to_le_bytes());
    changed
}

fn open(file: Vec<u8>) -> Result<View<Vec<u8>>, IkvblobError> {
    IkvblobView::wrap(file)
}

#[test]
fn format_errors_are_told_apart() {
    let (file, _) = small_file(&[]);
    assert!(open(file.clone()).is_ok());

    assert_eq!(open(file[..50].to_vec()).err(), Some(IkvblobError::Truncated));

    let mut bad_magic = file.clone();
    bad_magic[0] = 1;
    assert_eq!(open(bad_magic).err(), Some(IkvblobError::BadMagic));

    let future = with_field(&file, 0, 7);
    assert_eq!(open(future).err(), Some(IkvblobError::UnsupportedVersion { found: 7 }));

    let overlap = with_field(&file, 3, 88);
    assert_eq!(open(overlap).err(), Some(IkvblobError::RegionOverlap));

    let other_records = with_field(&file, 5, 44);
    assert_eq!(
        open(other_records).err(),
        Some(IkvblobError::EntrySizeMismatch { expected: 48, found: 44 })
    );

    let mut longer = file.clone();
    longer.push(0);
    assert_eq!(open(longer).err(), Some(IkvblobError::SizeMismatch));

    let no_slots = with_field(&file, 6, 0);
    assert_eq!(open(no_slots).err(), Some(IkvblobError::BadTableGeometry));

    let mut no_metadata = file.clone();
    no_metadata[88] = 0xff;
    assert_eq!(open(no_metadata).err(), Some(IkvblobError::MetadataNotDecodable));

    let mut not_a_map = file.clone();
    not_a_map[88] = 0x80;
    assert_eq!(open(not_a_map).err(), Some(IkvblobError::MetadataNotMap));
}

#[test]
fn checksum_is_verified_on_request_only() {
    let (mut file, entries) = small_file(&[]);
    let good: View<Vec<u8>> = IkvblobView::wrap(file.clone()).unwrap();
    assert_eq!(good.verify_integrity(), Ok(()));

    // a flipped bit in the value blob
    let at = file.len() - 10;
    file[at] ^= 1;
    let bad: View<Vec<u8>> = IkvblobView::wrap(file).unwrap();
    assert!(bad.lookup(&entries[0].0).is_ok());
    assert_eq!(bad.verify_integrity(), Err(IkvblobError::ChecksumMismatch));
}

#[test]
fn locator_outside_the_value_blob_is_an_error() {
    let key = Multihash::<32>::wrap(1, [3; 32]);
    let entries: Vec<(Key, Locator)> = vec![(key, (25, 6))];
    let table = StaticCuckooTable::<2, 2, Key, Locator>::from_iter(entries, 1).unwrap();
    let values: Vec<u8> = (0..30u8).collect();
    let file = write_combined_file(&table, &[], &values, values.len()).unwrap();
    let view: View<Vec<u8>> = IkvblobView::wrap(file).unwrap();
    assert_eq!(view.lookup_value_address(&key), Ok(Some((25, 6))));
    assert_eq!(view.lookup(&key), Err(IkvblobError::LocatorOutOfRange));
}

#[test]
fn writer_rejects_an_offset_that_cannot_be_packed() {
    let key = Multihash::<32>::wrap(1, [3; 32]);
    let limit: u64 = 1 << 56;
    let table =
        StaticCuckooTable::<2, 2, Key, Locator>::from_iter(vec![(key, (limit, 1))], 1).unwrap();
    assert_eq!(
        write_combined_file(&table, &[], &[], 0),
        Err(IkvblobError::OffsetTooLarge { offset: limit })
    );
    let table =
        StaticCuckooTable::<2, 2, Key, Locator>::from_iter(vec![(key, (limit - 1, 1))], 1).unwrap();
    let file = write_combined_file(&table, &[], &[], 0).unwrap();
    let view: View<Vec<u8>> = IkvblobView::wrap(file).unwrap();
    assert_eq!(view.lookup_value_address(&key), Ok(Some((limit - 1, 1))));
}

#[test]
fn writer_rejects_values_of_another_length_than_declared() {
    let table = StaticCuckooTable::<2, 2, Key, Locator>::from_iter(Vec::new(), 1).unwrap();
    assert_eq!(write_combined_file(&table, &[], &[1, 2, 3], 4), Err(IkvblobError::SizeMismatch));
}

#[test]
fn file_without_buckets_finds_nothing() {
    let table = StaticCuckooTable::<2, 2, Key, Locator>::from_iter(Vec::new(), 0).unwrap();
    let file = write_combined_file(&table, &[], &[], 0).unwrap();
    assert_eq!(file.len(), 96 + 4);
    let view: View<Vec<u8>> = IkvblobView::wrap(file).unwrap();
    assert_eq!(view.lookup(&Multihash::<32>::wrap(1, [3; 32])), Ok(None));
}

#[test]
fn compressed_values_come_back_as_they_were() {
    let mut rng = rand::rngs::StdRng::seed_from_u64(7);
    let values: Vec<Vec<u8>> = (0..2000u32)
        .map(|i| {
            let mut v = format!("value number {} of the store, padded with text ", i).into_bytes();
            let mut tail = [0u8; 4];
            rng.fill_bytes(&mut tail);
            v.extend_from_slice(&tail);
            v
        })
        .collect();
    let (dict, frames) = ikvblob::construction::construct(&values, 4096, 500).unwrap();
    assert!(!dict.is_empty());
    assert_eq!(frames.len(), values.len());
    let (blob, locators) = layout_values(&frames).unwrap();
    let keys: Vec<Key> = (0..2000u32)
        .map(|i| {
            let mut digest = [0u8; 32];
            digest[..4].copy_from_slice(&i.to_le_bytes());
            Multihash::<32>::wrap(1, digest)
        })
        .collect();
    let entries: Vec<(Key, Locator)> = keys.iter().cloned().zip(locators.into_iter()).collect();
    let table =
        StaticCuckooTable::<2, 2, Key, Locator>::from_iter(entries, outer_size(2000, 1.5, 2))
            .unwrap();
    let file = write_combined_file(&table, &dict, &blob, blob.len()).unwrap();
    assert!(blob.len() < values.iter().map(|v| v.len()).sum::<usize>());
    let view: View<Vec<u8>> = IkvblobView::wrap(file).unwrap();
    for (key, value) in keys.iter().zip(values.iter()) {
        assert_eq!(view.lookup(key), Ok(Some(value.clone())));
    }
    for (frame, value) in frames.iter().zip(values.iter()) {
        assert_eq!(view.try_decompress(frame).as_ref(), Ok(value));
    }
}

#[test]
fn buckets_are_read_by_number() {
    let (file, _) = small_file(&[]);
    let view: View<Vec<u8>> = IkvblobView::wrap(file).unwrap();
    assert_eq!(view.header().cuckoo_table_num_buckets(), 16);
    let mut occupied = 0;
    for idx in 0..16 {
        let bucket = view.get_hashmap_bucket(idx).unwrap();
        assert_eq!(bucket.len(), 2);
        occupied += bucket.iter().filter(|slot| slot.is_some()).count();
    }
    assert_eq!(occupied, 10);
    assert_eq!(view.get_hashmap_bucket(16), Err(IkvblobError::NoSuchBucket));
}
