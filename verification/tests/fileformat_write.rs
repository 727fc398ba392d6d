use ikvblob::error::IkvblobError;
use ikvblob::fileformat_write::{IkvblobHeader, IndexTableEntry, StaticSizeSerializable};
use ikvblob::multihash::Multihash;

#[test]
fn test_header_ser_deser() {
    let header = IkvblobHeader {
        version: 1,
        dynamic_metadata_offset: 2,
        dynamic_metadata_size: 3,
        cuckoo_table_offset: 4,
        cuckoo_table_size: 5,
        cuckoo_entry_size: 6,
        cuckoo_table_elems_per_bucket: 7,
        cuckoo_table_num_hashers: 8,
        value_blob_offset: 9,
        value_blob_size: 10,
    };

    // the metadata (2..5) and the table (4..9) overlap: the header is
    // neither written nor read
    let mut buf = Vec::new();
    assert_eq!(header.write(&mut buf), Err(IkvblobError::RegionOverlap));
    assert!(buf.is_empty());

    let mut bytes = b"\0Ikvblob".to_vec();
    for field in 1..=10u64 {
        bytes.extend_from_slice(&field.to_le_bytes());
    }
    assert_eq!(IkvblobHeader::read(&bytes), Err(IkvblobError::RegionOverlap));
}

#[test]
fn header_with_regions_in_order_round_trips() {
    let header = IkvblobHeader {
        version: 1,
        dynamic_metadata_offset: 2,
        dynamic_metadata_size: 3,
        cuckoo_table_offset: 5,
        cuckoo_table_size: 4,
        cuckoo_entry_size: 6,
        cuckoo_table_elems_per_bucket: 7,
        cuckoo_table_num_hashers: 8,
        value_blob_offset: 9,
        value_blob_size: 10,
    };
    let mut buf = vec![0xee];
    header.write(&mut buf).unwrap();
    assert_eq!(buf.len(), 89);
    let header2 = IkvblobHeader::read(&buf[1..]).unwrap();
    assert_eq!(header, header2);
}

#[test]
fn test_index_ser_deser() {
    let index1: IndexTableEntry = Some((Multihash::<32>::wrap(1, [2; 32]), (3, 4)));
    let mut buf = Vec::new();
    index1.write(&mut buf).unwrap();
    let index2 = IndexTableEntry::read(&buf).unwrap();
    assert_eq!(index1, index2);
}

#[test]
fn header_bytes_are_magic_then_ten_little_endian_words() {
    let header = IkvblobHeader {
        version: 1,
        dynamic_metadata_offset: 88,
        dynamic_metadata_size: 1,
        cuckoo_table_offset: 96,
        cuckoo_table_size: 96,
        cuckoo_entry_size: 48,
        cuckoo_table_elems_per_bucket: 2,
        cuckoo_table_num_hashers: 2,
        value_blob_offset: 192,
        value_blob_size: 0x0102,
    };
    let bytes = header.to_bytes().unwrap();
    assert_eq!(bytes.len(), 88);
    assert_eq!(IkvblobHeader::SER_SIZE, 88);
    assert_eq!(&bytes[0..8], b"\0Ikvblob");
    assert_eq!(&bytes[8..16], &[1, 0, 0, 0, 0, 0, 0, 0]);
    assert_eq!(&bytes[16..24], &[88, 0, 0, 0, 0, 0, 0, 0]);
    assert_eq!(&bytes[48..56], &[48, 0, 0, 0, 0, 0, 0, 0]);
    assert_eq!(&bytes[80..88], &[2, 1, 0, 0, 0, 0, 0, 0]);
    assert_eq!(header.total_size(), 192 + 0x0102 + 4);
    assert_eq!(header.cuckoo_table_num_buckets(), 1);
    assert_eq!(header.invariant_check(), Ok(()));
}

#[test]
fn header_read_rejects_bad_magic_version_and_short_input() {
    let header = IkvblobHeader {
        version: 1,
        dynamic_metadata_offset: 88,
        dynamic_metadata_size: 8,
        cuckoo_table_offset: 96,
        cuckoo_table_size: 0,
        cuckoo_entry_size: 48,
        cuckoo_table_elems_per_bucket: 2,
        cuckoo_table_num_hashers: 2,
        value_blob_offset: 96,
        value_blob_size: 0,
    };
    let good = header.to_bytes().unwrap();

    let mut bad_magic = good.clone();
    bad_magic[1] = b'J';
    assert_eq!(IkvblobHeader::read(&bad_magic), Err(IkvblobError::BadMagic));

    let mut future = good.clone();
    future[8] = 2;
    assert_eq!(
        IkvblobHeader::read(&future),
        Err(IkvblobError::UnsupportedVersion { found: 2 })
    );

    let mut old = good.clone();
    old[8] = 0;
    assert_eq!(IkvblobHeader::read(&old).unwrap().version, 0);

    assert_eq!(IkvblobHeader::read(&good[..87]), Err(IkvblobError::Truncated));
    assert_eq!(IkvblobHeader::read(&good[..7]), Err(IkvblobError::Truncated));
    assert_eq!(IkvblobHeader::read(&bad_magic[..12]), Err(IkvblobError::BadMagic));

    let mut longer = good.clone();
    longer.extend_from_slice(&[9, 9, 9]);
    assert_eq!(IkvblobHeader::read(&longer), Ok(header));
}

#[test]
fn header_invariant_check_wants_the_regions_in_order() {
    let mut header = IkvblobHeader {
        version: 1,
        dynamic_metadata_offset: 88,
        dynamic_metadata_size: 8,
        cuckoo_table_offset: 96,
        cuckoo_table_size: 96,
        cuckoo_entry_size: 48,
        cuckoo_table_elems_per_bucket: 2,
        cuckoo_table_num_hashers: 2,
        value_blob_offset: 192,
        value_blob_size: 7,
    };
    assert_eq!(header.invariant_check(), Ok(()));
    header.cuckoo_table_offset = 95;
    assert_eq!(header.invariant_check(), Err(IkvblobError::RegionOverlap));
    header.cuckoo_table_offset = 96;
    header.value_blob_offset = 191;
    assert_eq!(header.invariant_check(), Err(IkvblobError::RegionOverlap));
    header.value_blob_offset = 192;
    header.dynamic_metadata_size = u64::MAX;
    assert_eq!(header.invariant_check(), Err(IkvblobError::RegionOverlap));
}

#[test]
fn empty_slot_is_all_zero_and_reads_back_empty() {
    let empty: IndexTableEntry = None;
    let bytes = empty.to_bytes().unwrap();
    assert_eq!(bytes, vec![0u8; 48]);
    assert_eq!(IndexTableEntry::SER_SIZE, 48);
    assert_eq!(IndexTableEntry::read(&bytes), Ok(None));
}

#[test]
fn record_layout_is_digest_packed_word_length() {
    let mut digest = [0u8; 32];
    for (i, d) in digest.iter_mut().enumerate() {
        *d = i as u8;
    }
    let entry: IndexTableEntry = Some((Multihash::<32>::wrap(0xab, digest), (0x0102_0304, 0x0a0b)));
    let bytes = entry.to_bytes().unwrap();
    assert_eq!(bytes.len(), 48);
    assert_eq!(&bytes[0..32], &digest);
    assert_eq!(&bytes[32..40], &[0x04, 0x03, 0x02, 0x01, 0, 0, 0, 0xab]);
    assert_eq!(&bytes[40..48], &[0x0b, 0x0a, 0, 0, 0, 0, 0, 0]);
    assert_eq!(IndexTableEntry::read(&bytes), Ok(entry));
}

#[test]
fn offset_of_two_to_the_56_is_rejected_and_one_less_round_trips() {
    let key = Multihash::<32>::wrap(7, [9; 32]);
    let limit: u64 = 1 << 56;

    let too_large: IndexTableEntry = Some((key, (limit, 1)));
    let mut sink = vec![1u8, 2, 3];
    assert_eq!(
        too_large.write(&mut sink),
        Err(IkvblobError::OffsetTooLarge { offset: limit })
    );
    assert_eq!(sink, vec![1u8, 2, 3]);
    assert_eq!(
        too_large.to_bytes(),
        Err(IkvblobError::OffsetTooLarge { offset: limit })
    );

    let largest: IndexTableEntry = Some((key, (limit - 1, u64::MAX)));
    let bytes = largest.to_bytes().unwrap();
    assert_eq!(&bytes[32..40], &[0xff, 0xff, 0xff, 0xff, 0xff, 0xff, 0xff, 7]);
    assert_eq!(IndexTableEntry::read(&bytes), Ok(largest));
}

#[test]
fn record_with_code_zero_reads_as_empty() {
    let entry: IndexTableEntry = Some((Multihash::<32>::wrap(0, [5; 32]), (17, 3)));
    let bytes = entry.to_bytes().unwrap();
    assert_eq!(IndexTableEntry::read(&bytes), Ok(None));
}

#[test]
fn record_read_needs_48_bytes() {
    assert_eq!(IndexTableEntry::read(&[0u8; 47]), Err(IkvblobError::Truncated));
    assert_eq!(IndexTableEntry::read(&[0u8; 49]), Ok(None));
}

#[test]
fn u64_and_key_serialise_to_fixed_sizes() {
    let n: u64 = 0x0102_0304_0506_0708;
    assert_eq!(n.to_bytes().unwrap(), vec![8, 7, 6, 5, 4, 3, 2, 1]);
    assert_eq!(u64::read(&[8, 7, 6, 5, 4, 3, 2, 1, 99]), Ok(n));
    assert_eq!(u64::read(&[1, 2, 3]), Err(IkvblobError::Truncated));
    assert_eq!(<u64 as StaticSizeSerializable>::SER_SIZE, 8);

    let key = Multihash::<32>::wrap(3, [4; 32]);
    let bytes = key.to_bytes().unwrap();
    assert_eq!(bytes.len(), 33);
    assert_eq!(&bytes[..32], &[4u8; 32]);
    assert_eq!(bytes[32], 3);
    assert_eq!(Multihash::<32>::read(&bytes), Ok(key));
    assert_eq!(Multihash::<32>::read(&bytes[..32]), Err(IkvblobError::Truncated));
    assert_eq!(<Multihash<32> as StaticSizeSerializable>::SER_SIZE, 33);
}
