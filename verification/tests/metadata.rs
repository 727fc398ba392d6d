use ikvblob::error::IkvblobError;
use ikvblob::metadata::{
    compression_dict_of, encode_metadata, parse_metadata, MetaDocument, MetaEntry, MetaValue,
};
use ikvblob::memory_view::Memory;
use ikvblob::multihash::Multihash;
use ikvblob::parametrized_hasher::SipHasherFactory;

fn text(s: &str) -> ciborium::Value {
    ciborium::Value::Text(s.to_string())
}

fn encode(value: &ciborium::Value) -> Vec<u8> {
    let mut bytes = Vec::new();
    ciborium::into_writer(value, &mut bytes).unwrap();
    bytes
}

fn entry(key: &str, value: Option<MetaValue>) -> MetaEntry {
    MetaEntry { key: Some(key.to_string()), value }
}

#[test]
fn metadata_without_a_dictionary_is_the_empty_map() {
    let bytes = encode_metadata(&[]).unwrap();
    assert_eq!(bytes, vec![0xa0]);
    assert_eq!(parse_metadata(&bytes), Ok(None));
    // what follows the map is not looked at
    assert_eq!(parse_metadata(&[0xa0, 0, 0, 0, 0, 0, 0, 0]), Ok(None));
}

#[test]
fn metadata_with_a_dictionary_names_zstd() {
    let dict = vec![9u8, 8, 7, 6, 5];
    let bytes = encode_metadata(&dict).unwrap();
    let expected = encode(&ciborium::Value::Map(vec![
        (text("compression_type"), text("zstd")),
        (text("compression_dict"), ciborium::Value::Bytes(dict.clone())),
    ]));
    assert_eq!(bytes, expected);
    assert_eq!(parse_metadata(&bytes), Ok(Some(dict)));

    let large = vec![3u8; 100_000];
    assert_eq!(parse_metadata(&encode_metadata(&large).unwrap()), Ok(Some(large)));
}

#[test]
fn malformed_metadata_is_told_apart() {
    assert_eq!(parse_metadata(&[]), Err(IkvblobError::MetadataNotDecodable));
    assert_eq!(parse_metadata(&[0xff]), Err(IkvblobError::MetadataNotDecodable));
    assert_eq!(parse_metadata(&encode(&text("zstd"))), Err(IkvblobError::MetadataNotMap));
    assert_eq!(
        parse_metadata(&encode(&ciborium::Value::Array(vec![]))),
        Err(IkvblobError::MetadataNotMap)
    );

    let number_key = ciborium::Value::Map(vec![(ciborium::Value::Integer(1.into()), text("x"))]);
    assert_eq!(parse_metadata(&encode(&number_key)), Err(IkvblobError::MetadataKeyNotText));

    let only_type = ciborium::Value::Map(vec![(text("compression_type"), text("zstd"))]);
    assert_eq!(parse_metadata(&encode(&only_type)), Err(IkvblobError::CompressionHalfDeclared));
    let only_dict =
        ciborium::Value::Map(vec![(text("compression_dict"), ciborium::Value::Bytes(vec![1]))]);
    assert_eq!(parse_metadata(&encode(&only_dict)), Err(IkvblobError::CompressionHalfDeclared));

    let type_not_text = ciborium::Value::Map(vec![
        (text("compression_type"), ciborium::Value::Bool(true)),
        (text("compression_dict"), ciborium::Value::Bytes(vec![1])),
    ]);
    assert_eq!(
        parse_metadata(&encode(&type_not_text)),
        Err(IkvblobError::CompressionTypeNotText)
    );

    let other_scheme = ciborium::Value::Map(vec![
        (text("compression_type"), text("lz4")),
        (text("compression_dict"), ciborium::Value::Bytes(vec![1])),
    ]);
    assert_eq!(
        parse_metadata(&encode(&other_scheme)),
        Err(IkvblobError::UnsupportedCompression)
    );

    let dict_not_bytes = ciborium::Value::Map(vec![
        (text("compression_type"), text("zstd")),
        (text("compression_dict"), text("abc")),
    ]);
    assert_eq!(
        parse_metadata(&encode(&dict_not_bytes)),
        Err(IkvblobError::CompressionDictNotBytes)
    );
}

#[test]
fn other_keys_are_allowed_and_the_later_entry_counts() {
    let map = ciborium::Value::Map(vec![
        (text("created_by"), text("a test")),
        (text("compression_type"), text("lz4")),
        (text("compression_dict"), ciborium::Value::Bytes(vec![1])),
        (text("answer"), ciborium::Value::Integer(42.into())),
        (text("compression_type"), text("zstd")),
        (text("compression_dict"), ciborium::Value::Bytes(vec![2, 3])),
    ]);
    assert_eq!(parse_metadata(&encode(&map)), Ok(Some(vec![2, 3])));
    let open_map = ciborium::Value::Map(vec![(text("created_by"), text("a test"))]);
    assert_eq!(parse_metadata(&encode(&open_map)), Ok(None));
}

#[test]
fn decoded_documents_are_read_entry_by_entry() {
    assert_eq!(
        compression_dict_of(MetaDocument::Undecodable),
        Err(IkvblobError::MetadataNotDecodable)
    );
    assert_eq!(compression_dict_of(MetaDocument::NotMap), Err(IkvblobError::MetadataNotMap));
    assert_eq!(compression_dict_of(MetaDocument::Entries(vec![])), Ok(None));
    let entries = vec![
        entry("compression_dict", Some(MetaValue::Bytes(vec![5]))),
        entry("note", None),
        entry("compression_type", Some(MetaValue::Text("zstd".to_string()))),
    ];
    assert_eq!(compression_dict_of(MetaDocument::Entries(entries.clone())), Ok(Some(vec![5])));
    let mut with_odd_key = entries;
    with_odd_key.push(MetaEntry { key: None, value: None });
    assert_eq!(
        compression_dict_of(MetaDocument::Entries(with_odd_key)),
        Err(IkvblobError::MetadataKeyNotText)
    );
}

#[test]
fn hash_is_siphash_2_4_of_the_serialised_key_under_the_parameter() {
    let key = Multihash::<32>::wrap(5, [6; 32]);
    let mut bytes = vec![6u8; 32];
    bytes.push(5);
    for p in [0u64, 1, 2, 1 << 40] {
        let hasher = SipHasherFactory::new(p);
        let expected = siphasher::sip::SipHasher24::new_with_keys(p, 0).hash(&bytes);
        assert_eq!(hasher.hash(&key), expected);
        assert_eq!(hasher.hash_bytes(&bytes), expected);
    }
    // the reference vector of SipHash-2-4 with the second key word zero is
    // not published; the first byte strings under the key words (1, 0)
    let hasher = SipHasherFactory::new(1);
    assert_ne!(hasher.hash_bytes(b""), hasher.hash_bytes(b"\0"));
    assert_ne!(hasher.hash_bytes(b"abc"), SipHasherFactory::new(2).hash_bytes(b"abc"));
    let n: u64 = 0x0102;
    assert_eq!(hasher.hash(&n), hasher.hash_bytes(&[2, 1, 0, 0, 0, 0, 0, 0]));
}

#[test]
fn multihash_accessors_and_equality() {
    let a = Multihash::<4>::wrap(7, [1, 2, 3, 4]);
    assert_eq!(a.code(), 7);
    assert_eq!(a.digest(), &[1, 2, 3, 4]);
    assert!(a.same(&Multihash::<4>::wrap(7, [1, 2, 3, 4])));
    assert!(!a.same(&Multihash::<4>::wrap(8, [1, 2, 3, 4])));
    assert!(!a.same(&Multihash::<4>::wrap(7, [1, 2, 3, 5])));
    assert_eq!(a, Multihash::<4>::wrap(7, [1, 2, 3, 4]));
}

#[test]
fn vector_is_a_source_of_bytes() {
    let source: Vec<u8> = (0..20).collect();
    assert_eq!(Memory::len(&source), Ok(20));
    assert_eq!(source.read_slice(3..6), Ok(vec![3, 4, 5]));
    assert_eq!(source.read_slice(20..20), Ok(vec![]));
    assert_eq!(source.read_slice(0..20), Ok(source.clone()));
    assert_eq!(source.read_slice(15..21), Err(IkvblobError::ReadFailed));
    #[allow(clippy::reversed_empty_ranges)]
    let backwards = 6..3;
    assert_eq!(source.read_slice(backwards), Err(IkvblobError::ReadFailed));
}
