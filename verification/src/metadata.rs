//! The metadata block of a file: a self-describing map with text keys, which
//! says whether and how the values are compressed.

use crate::error::IkvblobError;
use vstd::prelude::*;
use vstd::string::StringExecFns;

verus! {

/// A value of the metadata map that this library reads or writes.
#[derive(Debug, Clone, PartialEq, Eq)]
pub enum MetaValue {
    Text(String),
    Bytes(Vec<u8>),
}

/// What a `MetaValue` holds.
pub enum MetaValueView {
    Text(Seq<char>),
    Bytes(Seq<u8>),
}

impl View for MetaValue {
    type V = MetaValueView;

    open spec fn view(&self) -> MetaValueView {
        match self {
            MetaValue::Text(t) => MetaValueView::Text(t@),
            MetaValue::Bytes(b) => MetaValueView::Bytes(b@),
        }
    }
}

/// An entry of a decoded map. The key is `None` where it is not a text, the
/// value where it is neither a text nor a byte string.
#[derive(Debug, Clone, PartialEq, Eq)]
pub struct MetaEntry {
    pub key: Option<String>,
    pub value: Option<MetaValue>,
}

/// What a `MetaEntry` holds.
pub struct MetaEntryView {
    pub key: Option<Seq<char>>,
    pub value: Option<MetaValueView>,
}

impl View for MetaEntry {
    type V = MetaEntryView;

    open spec fn view(&self) -> MetaEntryView {
        MetaEntryView {
            key: match self.key {
                Some(k) => Some(k@),
                None => None,
            },
            value: match self.value {
                Some(v) => Some(v@),
                None => None,
            },
        }
    }
}

/// What the bytes of a metadata block decode to.
#[derive(Debug, Clone, PartialEq, Eq)]
pub enum MetaDocument {
    /// The bytes are no well-formed value.
    Undecodable,
    /// The bytes are a value, but no map.
    NotMap,
    /// The entries of the map, in the order of the bytes.
    Entries(Vec<MetaEntry>),
}

/// What a `MetaDocument` holds.
pub enum MetaDocumentView {
    Undecodable,
    NotMap,
    Entries(Seq<MetaEntryView>),
}

/// The views of a sequence of entries.
pub open spec fn entry_views(entries: Seq<MetaEntry>) -> Seq<MetaEntryView> {
    Seq::new(entries.len(), |i: int| entries[i]@)
}

impl View for MetaDocument {
    type V = MetaDocumentView;

    open spec fn view(&self) -> MetaDocumentView {
        match self {
            MetaDocument::Undecodable => MetaDocumentView::Undecodable,
            MetaDocument::NotMap => MetaDocumentView::NotMap,
            MetaDocument::Entries(entries) => MetaDocumentView::Entries(entry_views(entries@)),
        }
    }
}

/// The views of the pairs of a map to write.
pub open spec fn pair_views(pairs: Seq<(String, MetaValue)>) -> Seq<(Seq<char>, MetaValueView)> {
    Seq::new(pairs.len(), |i: int| (pairs[i].0@, pairs[i].1@))
}

/// The CBOR encoding of the map with the text keys and the values of
/// `pairs`, in that order, or `None` where the encoder fails.
pub uninterp spec fn cbor_map_encoding(pairs: Seq<(Seq<char>, MetaValueView)>) -> Option<Seq<u8>>;

/// What the CBOR item at the front of `bytes` is.
pub uninterp spec fn cbor_document(bytes: Seq<u8>) -> MetaDocumentView;

/// Encodes a map with text keys as CBOR.
///
/// Trusted: `ciborium::into_writer` writes the CBOR encoding of a value to a
/// writer, here of the `ciborium::Value::Map` whose pairs are those of
/// `pairs`, each key as `Value::Text` and each value as `Value::Text` or
/// `Value::Bytes`. The result depends on the pairs alone; it is given the
/// name `cbor_map_encoding`.
#[verifier::external_body]
fn cbor_encode_map(pairs: &Vec<(String, MetaValue)>) -> (bytes: Option<Vec<u8>>)
    ensures
        match bytes {
            Some(b) => cbor_map_encoding(pair_views(pairs@)) == Some(b@),
            None => cbor_map_encoding(pair_views(pairs@)) is None,
        },
{
    let mut map: Vec<(ciborium::Value, ciborium::Value)> = Vec::new();
    for (key, value) in pairs.iter() {
        map.push((ciborium::Value::Text(key.clone()), match value {
            MetaValue::Text(t) => ciborium::Value::Text(t.clone()),
            MetaValue::Bytes(b) => ciborium::Value::Bytes(b.clone()),
        }));
    }
    let mut bytes: Vec<u8> = Vec::new();
    ciborium::into_writer(&ciborium::Value::Map(map), &mut bytes).ok().map(|_| bytes)
}

/// Decodes the CBOR item at the front of `bytes`.
///
/// Trusted: `ciborium::from_reader` reads one item from a reader as a
/// `ciborium::Value`, or fails. Of a `Value::Map` the pairs are handed on in
/// their order, a key that is a `Value::Text` with its text, a value that is
/// a `Value::Text` or a `Value::Bytes` with its content. The result depends
/// on the bytes alone; it is given the name `cbor_document`.
#[verifier::external_body]
fn cbor_decode(bytes: &[u8]) -> (document: MetaDocument)
    ensures
        document@ == cbor_document(bytes@),
{
    let pairs = match ciborium::from_reader::<ciborium::Value, _>(bytes) {
        Err(_) => return MetaDocument::Undecodable,
        Ok(ciborium::Value::Map(pairs)) => pairs,
        Ok(_) => return MetaDocument::NotMap,
    };
    let mut entries: Vec<MetaEntry> = Vec::new();
    for (k, v) in pairs {
        let key = match k { ciborium::Value::Text(t) => Some(t), _ => None };
        entries.push(MetaEntry { key, value: match v {
            ciborium::Value::Text(t) => Some(MetaValue::Text(t)),
            ciborium::Value::Bytes(b) => Some(MetaValue::Bytes(b)),
            _ => None,
        } });
    }
    MetaDocument::Entries(entries)
}

/// The key under which a file names its compression scheme.
pub open spec fn compression_type_key() -> Seq<char> {
    "compression_type"@
}

/// The key under which a file holds its compression dictionary.
pub open spec fn compression_dict_key() -> Seq<char> {
    "compression_dict"@
}

/// The name of the one compression scheme that is supported.
pub open spec fn zstd_name() -> Seq<char> {
    "zstd"@
}

/// The pairs of the metadata map of a file whose values are compressed with
/// `dict`: none where the dictionary is empty, which means no compression.
pub open spec fn metadata_pairs(dict: Seq<u8>) -> Seq<(Seq<char>, MetaValueView)> {
    if dict.len() == 0 {
        Seq::empty()
    } else {
        seq![
            (compression_type_key(), MetaValueView::Text(zstd_name())),
            (compression_dict_key(), MetaValueView::Bytes(dict)),
        ]
    }
}

/// The bytes of the metadata map of a file whose values are compressed with
/// `dict`, before padding.
pub open spec fn spec_metadata_bytes(dict: Seq<u8>) -> Result<Seq<u8>, IkvblobError> {
    match cbor_map_encoding(metadata_pairs(dict)) {
        Some(bytes) => Ok(bytes),
        None => Err(IkvblobError::MetadataNotEncodable),
    }
}

/// Encodes the metadata map of a file: empty where `dict` is empty, else the
/// compression scheme and the dictionary.
pub fn encode_metadata(dict: &[u8]) -> (bytes: Result<Vec<u8>, IkvblobError>)
    ensures
        match bytes {
            Ok(b) => spec_metadata_bytes(dict@) == Ok::<Seq<u8>, IkvblobError>(b@),
            Err(e) => spec_metadata_bytes(dict@) == Err::<Seq<u8>, IkvblobError>(e),
        },
{
    let mut pairs: Vec<(String, MetaValue)> = Vec::new();
    if dict.len() > 0 {
        let mut copy: Vec<u8> = Vec::new();
        crate::bytes::append_bytes(&mut copy, dict);
        assert(copy@ =~= dict@);
        pairs.push(
            (String::from_str("compression_type"), MetaValue::Text(String::from_str("zstd"))),
        );
        pairs.push((String::from_str("compression_dict"), MetaValue::Bytes(copy)));
    }
    assert(pair_views(pairs@) =~= metadata_pairs(dict@));
    match cbor_encode_map(&pairs) {
        Some(bytes) => Ok(bytes),
        None => Err(IkvblobError::MetadataNotEncodable),
    }
}

/// The value of the last entry, among the first `upto`, whose key is `key`;
/// `None` where there is no such entry. The outer `Option` says whether there
/// is one, the inner one whether its value is a text or a byte string.
pub open spec fn last_value(entries: Seq<MetaEntryView>, key: Seq<char>, upto: int) -> Option<
    Option<MetaValueView>,
>
    decreases upto,
{
    if upto <= 0 {
        None
    } else if entries[upto - 1].key == Some(key) {
        Some(entries[upto - 1].value)
    } else {
        last_value(entries, key, upto - 1)
    }
}

/// Every key of the entries is a text.
pub open spec fn keys_are_text(entries: Seq<MetaEntryView>) -> bool {
    forall|i: int| 0 <= i < entries.len() ==> (#[trigger] entries[i]).key is Some
}

/// The compression dictionary that a decoded metadata block declares: `None`
/// where it declares no compression.
///
/// The block must be a map with text keys. Of a key that occurs twice the
/// later entry counts. The compression type and the dictionary are there
/// together or not at all; the type must be the text `zstd` and the
/// dictionary a byte string.
pub open spec fn spec_compression_dict(document: MetaDocumentView) -> Result<
    Option<Seq<u8>>,
    IkvblobError,
> {
    match document {
        MetaDocumentView::Undecodable => Err(IkvblobError::MetadataNotDecodable),
        MetaDocumentView::NotMap => Err(IkvblobError::MetadataNotMap),
        MetaDocumentView::Entries(entries) => if !keys_are_text(entries) {
            Err(IkvblobError::MetadataKeyNotText)
        } else {
            match (
                last_value(entries, compression_type_key(), entries.len() as int),
                last_value(entries, compression_dict_key(), entries.len() as int),
            ) {
                (None, None) => Ok(None),
                (Some(_), None) => Err(IkvblobError::CompressionHalfDeclared),
                (None, Some(_)) => Err(IkvblobError::CompressionHalfDeclared),
                (Some(scheme), Some(dict)) => match scheme {
                    Some(MetaValueView::Text(name)) => if name != zstd_name() {
                        Err(IkvblobError::UnsupportedCompression)
                    } else {
                        match dict {
                            Some(MetaValueView::Bytes(bytes)) => Ok(Some(bytes)),
                            _ => Err(IkvblobError::CompressionDictNotBytes),
                        }
                    },
                    _ => Err(IkvblobError::CompressionTypeNotText),
                },
            }
        },
    }
}

/// The compression dictionary that the bytes of a metadata block declare.
pub open spec fn spec_parse_metadata(bytes: Seq<u8>) -> Result<Option<Seq<u8>>, IkvblobError> {
    spec_compression_dict(cbor_document(bytes))
}

/// The index of the last entry whose key is `key`.
fn find_last(entries: &Vec<MetaEntry>, key: &str) -> (found: Option<usize>)
    requires
        keys_are_text(entry_views(entries@)),
    ensures
        match found {
            Some(i) => i < entries@.len() && last_value(
                entry_views(entries@),
                key@,
                entries@.len() as int,
            ) == Some(entries@[i as int]@.value),
            None => last_value(entry_views(entries@), key@, entries@.len() as int) is None,
        },
{
    let wanted = String::from_str(key);
    let ghost views = entry_views(entries@);
    let mut i: usize = entries.len();
    while i > 0
        invariant
            i <= entries@.len(),
            views == entry_views(entries@),
            wanted@ == key@,
            keys_are_text(views),
            last_value(views, key@, entries@.len() as int) == last_value(views, key@, i as int),
        decreases i,
    {
        i -= 1;
        assert(views[i as int] == entries@[i as int]@);
        match &entries[i].key {
            Some(k) => {
                if *k == wanted {
                    return Some(i);
                }
            },
            None => {},
        }
    }
    None
}

/// Reads what a decoded metadata block says of compression.
pub fn compression_dict_of(document: MetaDocument) -> (dict: Result<Option<Vec<u8>>, IkvblobError>)
    ensures
        match dict {
            Ok(Some(d)) => spec_compression_dict(document@) == Ok::<Option<Seq<u8>>, IkvblobError>(
                Some(d@),
            ),
            Ok(None) => spec_compression_dict(document@) == Ok::<Option<Seq<u8>>, IkvblobError>(
                None,
            ),
            Err(e) => spec_compression_dict(document@) == Err::<Option<Seq<u8>>, IkvblobError>(e),
        },
{
    let entries = match document {
        MetaDocument::Undecodable => {
            return Err(IkvblobError::MetadataNotDecodable);
        },
        MetaDocument::NotMap => {
            return Err(IkvblobError::MetadataNotMap);
        },
        MetaDocument::Entries(entries) => entries,
    };
    let ghost views = entry_views(entries@);
    let mut i: usize = 0;
    while i < entries.len()
        invariant
            i <= entries@.len(),
            views == entry_views(entries@),
            document@ == MetaDocumentView::Entries(views),
            forall|j: int| 0 <= j < i ==> (#[trigger] views[j]).key is Some,
        decreases entries@.len() - i,
    {
        if entries[i].key.is_none() {
            assert(views[i as int].key is None);
            return Err(IkvblobError::MetadataKeyNotText);
        }
        assert(views[i as int] == entries@[i as int]@);
        i += 1;
    }
    let scheme = find_last(&entries, "compression_type");
    let dict = find_last(&entries, "compression_dict");
    match (scheme, dict) {
        (None, None) => Ok(None),
        (Some(_), None) => Err(IkvblobError::CompressionHalfDeclared),
        (None, Some(_)) => Err(IkvblobError::CompressionHalfDeclared),
        (Some(s), Some(d)) => {
            match &entries[s].value {
                Some(MetaValue::Text(name)) => {
                    if *name != String::from_str("zstd") {
                        return Err(IkvblobError::UnsupportedCompression);
                    }
                },
                _ => {
                    return Err(IkvblobError::CompressionTypeNotText);
                },
            }
            match &entries[d].value {
                Some(MetaValue::Bytes(bytes)) => {
                    let mut copy: Vec<u8> = Vec::new();
                    crate::bytes::append_bytes(&mut copy, bytes.as_slice());
                    assert(copy@ =~= bytes@);
                    Ok(Some(copy))
                },
                _ => Err(IkvblobError::CompressionDictNotBytes),
            }
        },
    }
}

/// Decodes a metadata block and reads what it says of compression.
pub fn parse_metadata(bytes: &[u8]) -> (dict: Result<Option<Vec<u8>>, IkvblobError>)
    ensures
        match dict {
            Ok(Some(d)) => spec_parse_metadata(bytes@) == Ok::<Option<Seq<u8>>, IkvblobError>(
                Some(d@),
            ),
            Ok(None) => spec_parse_metadata(bytes@) == Ok::<Option<Seq<u8>>, IkvblobError>(None),
            Err(e) => spec_parse_metadata(bytes@) == Err::<Option<Seq<u8>>, IkvblobError>(e),
        },
{
    compression_dict_of(cbor_decode(bytes))
}

} // verus!
