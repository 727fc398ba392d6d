//! From the table to the file and back: what a lookup in a written file
//! returns, said of the table and the values that were written.

use crate::compression::spec_try_decompress;
use crate::cuckoo::{build, find, first_holding, key_bucket, shaped, standard_params, Slots};
use crate::cuckoo_laws::{entries_of, in_table, key_of, lemma_build_holds, lemma_entries_of, lemma_lookup_after_build};
use crate::error::IkvblobError;
use crate::fileformat_read::{
    spec_bucket_data, spec_header, spec_lookup, spec_open, spec_records, spec_value_address,
};
use crate::fileformat_write::{
    lemma_bucket_bytes_len, lemma_entry_round_trip, lemma_record_sizes, lemma_table_bytes_len,
    spec_bucket_bytes, spec_file, spec_file_header, spec_table_bytes, IndexTableEntry,
    StaticSizeSerializable,
};
use crate::fileformat_write_laws::lemma_file_layout;
use crate::metadata::{spec_metadata_bytes, spec_parse_metadata};
use crate::multihash::Multihash;
use vstd::prelude::*;

verus! {

/// The keys of the table are keys: none has the code of the empty slot.
pub open spec fn keys_are_keys(table: Slots<Multihash<32>, (u64, u64)>) -> bool {
    forall|b: int, s: int|
        0 <= b < table.len() && 0 <= s < table[b].len() && (#[trigger] table[b][s]) is Some
            ==> table[b][s].unwrap().0.is_key()
}

/// A record that was written reads back from the front of any bytes that
/// begin with it.
pub proof fn lemma_entry_reads_from_front(entry: IndexTableEntry, rest: Seq<u8>)
    requires
        entry matches Some((key, _)) ==> key.is_key(),
        entry.spec_write() is Ok,
    ensures
        IndexTableEntry::spec_read(entry.spec_write()->Ok_0 + rest) == Ok::<
            IndexTableEntry,
            IkvblobError,
        >(entry),
{
    lemma_entry_round_trip(entry);
    entry.lemma_written_len();
    lemma_record_sizes();
    let record = entry.spec_write()->Ok_0;
    let bytes = record + rest;
    assert(bytes.subrange(32, 40) =~= record.subrange(32, 40));
    assert(bytes.subrange(40, 48) =~= record.subrange(40, 48));
    assert(bytes.take(32) =~= record.take(32));
}

/// The records of a bucket that was written read back from the front of any
/// bytes that begin with them.
pub proof fn lemma_bucket_reads_back(entries: Seq<IndexTableEntry>, rest: Seq<u8>)
    requires
        forall|s: int|
            0 <= s < entries.len() && (#[trigger] entries[s]) is Some
                ==> entries[s].unwrap().0.is_key(),
        spec_bucket_bytes(entries) is Ok,
    ensures
        spec_records::<IndexTableEntry>(spec_bucket_bytes(entries)->Ok_0 + rest, entries.len())
            == Ok::<Seq<IndexTableEntry>, IkvblobError>(entries),
    decreases entries.len(),
{
    lemma_record_sizes();
    if entries.len() == 0 {
        assert(entries =~= Seq::<IndexTableEntry>::empty());
    } else {
        let front = entries.drop_last();
        let last = entries.last();
        let front_bytes = spec_bucket_bytes(front)->Ok_0;
        let record = last.spec_write()->Ok_0;
        let bytes = spec_bucket_bytes(entries)->Ok_0 + rest;
        lemma_bucket_bytes_len(front);
        assert(bytes =~= front_bytes + (record + rest));
        lemma_bucket_reads_back(front, record + rest);
        assert(bytes.skip((entries.len() - 1) * 48) =~= record + rest);
        lemma_entry_reads_from_front(last, rest);
        assert(front.push(last) =~= entries);
    }
}

/// The bytes of a bucket lie in the bytes of the table where the buckets
/// before it end.
pub proof fn lemma_bucket_in_table_bytes<E: StaticSizeSerializable>(
    table: Seq<Seq<E>>,
    bs: nat,
    idx: int,
)
    requires
        forall|b: int| 0 <= b < table.len() ==> (#[trigger] table[b]).len() == bs,
        spec_table_bytes(table) is Ok,
        0 <= idx < table.len(),
    ensures
        spec_bucket_bytes(table[idx]) is Ok,
        0 <= idx * (bs * E::SER_SIZE) <= (idx + 1) * (bs * E::SER_SIZE) <= spec_table_bytes(
            table,
        )->Ok_0.len(),
        spec_table_bytes(table)->Ok_0.subrange(
            idx * (bs * E::SER_SIZE),
            (idx + 1) * (bs * E::SER_SIZE),
        ) == spec_bucket_bytes(table[idx])->Ok_0,
    decreases table.len(),
{
    let size = (bs * E::SER_SIZE) as int;
    let front = table.drop_last();
    let all = spec_table_bytes(table)->Ok_0;
    let front_bytes = spec_table_bytes(front)->Ok_0;
    let last_bytes = spec_bucket_bytes(table.last())->Ok_0;
    lemma_table_bytes_len(front, bs);
    lemma_table_bytes_len(table, bs);
    lemma_bucket_bytes_len(table.last());
    assert(idx * size >= 0 && (idx + 1) * size == idx * size + size && (idx + 1) * size
        <= table.len() * size) by (nonlinear_arith)
        requires
            0 <= idx < table.len(),
            size >= 0,
    ;
    assert((table.len() - 1) * size + size == table.len() * size) by (nonlinear_arith);
    if idx == table.len() - 1 {
        assert(all.subrange(idx * size, (idx + 1) * size) =~= last_bytes);
    } else {
        lemma_bucket_in_table_bytes(front, bs, idx);
        assert((idx + 1) * size <= (table.len() - 1) * size) by (nonlinear_arith)
            requires
                idx + 1 <= table.len() - 1,
                size >= 0,
        ;
        assert(all.subrange(idx * size, (idx + 1) * size) =~= front_bytes.subrange(
            idx * size,
            (idx + 1) * size,
        ));
        assert(front[idx] == table[idx]);
    }
}

/// A table that can be written as a file for lookups: its buckets have `bs`
/// slots, of which there is at least one and no more than a header can
/// count, there are no more hash functions than a header can count, and
/// every key is a key.
pub open spec fn writable_table(table: Slots<Multihash<32>, (u64, u64)>, bs: nat, hs: nat) -> bool {
    &&& shaped(table, bs)
    &&& 0 < bs
    &&& bs * 48 <= u64::MAX
    &&& hs <= u64::MAX
    &&& keys_are_keys(table)
}

/// The header of the file that holds the table, a dictionary and values.
pub open spec fn written_header(
    table: Slots<Multihash<32>, (u64, u64)>,
    bs: nat,
    hs: nat,
    dict: Seq<u8>,
    values: Seq<u8>,
) -> crate::fileformat_write::IkvblobHeader {
    spec_file_header(table.len(), bs, hs, 48, spec_metadata_bytes(dict)->Ok_0.len(), values.len())
}

/// In a written file the index holds for every key what the table holds: the
/// search of the file, from hash function `from` on, finds what the lookup in
/// the table finds.
pub proof fn lemma_address_is_find(
    table: Slots<Multihash<32>, (u64, u64)>,
    bs: nat,
    hs: nat,
    dict: Seq<u8>,
    values: Seq<u8>,
    key: Multihash<32>,
    from: int,
)
    requires
        writable_table(table, bs, hs),
        spec_file(table, bs, hs, dict, values, values.len()) is Ok,
        0 <= from,
    ensures
        spec_value_address::<Multihash<32>, (u64, u64)>(
            spec_file(table, bs, hs, dict, values, values.len())->Ok_0,
            written_header(table, bs, hs, dict, values),
            key,
            from,
        ) == Ok::<Option<(u64, u64)>, IkvblobError>(find(table, standard_params(hs), key, from)),
    decreases hs - from,
{
    lemma_record_sizes();
    lemma_file_layout(table, bs, hs, dict, values);
    let file = spec_file(table, bs, hs, dict, values, values.len())->Ok_0;
    let header = written_header(table, bs, hs, dict, values);
    let params = standard_params(hs);
    let size = (bs * 48) as int;
    assert(table.len() * (bs * 48) <= u64::MAX);
    assert(header.spec_bucket_size() == size) by (nonlinear_arith)
        requires
            header.spec_bucket_size() == header.cuckoo_table_elems_per_bucket
                * header.cuckoo_entry_size,
            header.cuckoo_table_elems_per_bucket == bs,
            header.cuckoo_entry_size == 48,
            size == bs * 48,
    ;
    assert(header.cuckoo_table_size == table.len() * size);
    vstd::arithmetic::div_mod::lemma_div_by_multiple(table.len() as int, size);
    assert(header.spec_num_buckets() == table.len());
    if from < hs && table.len() > 0 {
        let idx = key_bucket(params[from], key, table.len());
        crate::cuckoo_laws::lemma_key_bucket_range(params[from], key, table.len());
        assert(params[from] == (from + 1) as u64);
        lemma_bucket_in_table_bytes(table, bs, idx);
        let records = spec_table_bytes(table)->Ok_0;
        let bucket = spec_bucket_bytes(table[idx])->Ok_0;
        let start = header.cuckoo_table_offset as int;
        assert(file.subrange(start, start + header.cuckoo_table_size) == records);
        assert(spec_bucket_data(file, header, idx) =~= records.subrange(
            idx * size,
            (idx + 1) * size,
        )) by {
            assert((idx + 1) * header.spec_bucket_size() == (idx + 1) * size);
            assert(idx * header.spec_bucket_size() == idx * size);
        }
        assert(table[idx].len() == bs);
        assert forall|s: int| 0 <= s < table[idx].len() && (#[trigger] table[idx][s]) is Some
            implies table[idx][s].unwrap().0.is_key() by {}
        lemma_bucket_reads_back(table[idx], Seq::empty());
        assert(bucket + Seq::<u8>::empty() =~= bucket);
        assert(spec_records::<IndexTableEntry>(
            spec_bucket_data(file, header, idx),
            header.cuckoo_table_elems_per_bucket as nat,
        ) == Ok::<Seq<IndexTableEntry>, IkvblobError>(table[idx]));
        if first_holding(table[idx], key, 0) is None {
            lemma_address_is_find(table, bs, hs, dict, values, key, from + 1);
        }
    }
}

/// End to end. A file that was written from a table and values opens again,
/// and a lookup in it returns, for every key, what the table and the values
/// give: nothing for a key that the table does not hold, and else the bytes
/// of the values that the locator of the key addresses, decompressed where
/// the file names a dictionary.
///
/// What the metadata of the file says when it is read back is the encoder's
/// and the decoder's to decide: `declared` stands for it.
pub proof fn lemma_written_file_lookup(
    table: Slots<Multihash<32>, (u64, u64)>,
    bs: nat,
    hs: nat,
    dict: Seq<u8>,
    values: Seq<u8>,
    declared: Option<Seq<u8>>,
    key: Multihash<32>,
)
    requires
        writable_table(table, bs, hs),
        spec_file(table, bs, hs, dict, values, values.len()) is Ok,
        spec_parse_metadata(spec_metadata_bytes(dict)->Ok_0) == Ok::<
            Option<Seq<u8>>,
            IkvblobError,
        >(declared),
    ensures
        ({
            let file = spec_file(table, bs, hs, dict, values, values.len())->Ok_0;
            let header = written_header(table, bs, hs, dict, values);
            &&& spec_open::<IndexTableEntry>(file) == Ok::<
                (crate::fileformat_write::IkvblobHeader, Option<Seq<u8>>),
                IkvblobError,
            >((header, declared))
            &&& spec_lookup::<Multihash<32>>(file, header, declared, key) == (match find(
                table,
                standard_params(hs),
                key,
                0,
            ) {
                None => Ok(None),
                Some((offset, size)) => if offset + size > values.len() {
                    Err(IkvblobError::LocatorOutOfRange)
                } else {
                    match spec_try_decompress(
                        declared,
                        values.subrange(offset as int, offset + size),
                    ) {
                        Ok(value) => Ok(Some(value)),
                        Err(e) => Err(e),
                    }
                },
            })
        }),
{
    lemma_record_sizes();
    lemma_file_layout(table, bs, hs, dict, values);
    lemma_address_is_find(table, bs, hs, dict, values, key, 0);
    let file = spec_file(table, bs, hs, dict, values, values.len())->Ok_0;
    let header = written_header(table, bs, hs, dict, values);
    assert(header.spec_bucket_size() == bs * 48) by (nonlinear_arith)
        requires
            header.spec_bucket_size() == header.cuckoo_table_elems_per_bucket
                * header.cuckoo_entry_size,
            header.cuckoo_table_elems_per_bucket == bs,
            header.cuckoo_entry_size == 48,
    ;
    assert(spec_header::<IndexTableEntry>(file) == Ok::<
        crate::fileformat_write::IkvblobHeader,
        IkvblobError,
    >(header));
    match find(table, standard_params(hs), key, 0) {
        None => {},
        Some((offset, size)) => {
            if offset + size <= values.len() {
                let start = header.value_blob_offset as int;
                assert(file.subrange(start, start + header.value_blob_size) == values);
                assert(file.subrange(start + offset, start + offset + size) =~= values.subrange(
                    offset as int,
                    offset + size,
                ));
            }
        },
    }
}

/// End to end, from the entries. Where a table was built from entries whose
/// keys are keys, and written with values, a lookup in the file returns for
/// every key that was inserted the bytes that its last locator addresses, and
/// nothing for every other key.
pub proof fn lemma_end_to_end(
    elems: Seq<(Multihash<32>, (u64, u64))>,
    buckets: nat,
    bs: nat,
    hs: nat,
    dict: Seq<u8>,
    values: Seq<u8>,
    declared: Option<Seq<u8>>,
    key: Multihash<32>,
)
    requires
        forall|i: int| 0 <= i < elems.len() ==> (#[trigger] elems[i]).0.is_key(),
        0 < bs,
        bs * 48 <= u64::MAX,
        hs <= u64::MAX,
        build(elems, buckets, bs, standard_params(hs)) is Ok,
        spec_file(
            build(elems, buckets, bs, standard_params(hs))->Ok_0,
            bs,
            hs,
            dict,
            values,
            values.len(),
        ) is Ok,
        spec_parse_metadata(spec_metadata_bytes(dict)->Ok_0) == Ok::<
            Option<Seq<u8>>,
            IkvblobError,
        >(declared),
    ensures
        ({
            let table = build(elems, buckets, bs, standard_params(hs))->Ok_0;
            let file = spec_file(table, bs, hs, dict, values, values.len())->Ok_0;
            let header = written_header(table, bs, hs, dict, values);
            spec_lookup::<Multihash<32>>(file, header, declared, key) == (if entries_of(
                elems,
            ).contains_key(key) {
                let (offset, size) = entries_of(elems)[key];
                if offset + size > values.len() {
                    Err(IkvblobError::LocatorOutOfRange)
                } else {
                    match spec_try_decompress(
                        declared,
                        values.subrange(offset as int, offset + size),
                    ) {
                        Ok(value) => Ok(Some(value)),
                        Err(e) => Err(e),
                    }
                }
            } else {
                Ok(None)
            })
        }),
{
    let params = standard_params(hs);
    let table = build(elems, buckets, bs, params)->Ok_0;
    lemma_build_holds(elems, buckets, bs, params);
    lemma_entries_of(elems);
    assert forall|b: int, s: int|
        0 <= b < table.len() && 0 <= s < table[b].len() && (#[trigger] table[b][s])
            is Some implies table[b][s].unwrap().0.is_key() by {
        assert(in_table(table, b, s));
        let k = key_of(table[b][s]);
        assert(entries_of(elems).contains_key(k));
        let i = choose|i: int| 0 <= i < elems.len() && (#[trigger] elems[i]).0 == k;
        assert(elems[i].0.is_key());
    }
    lemma_lookup_after_build(elems, buckets, bs, params, key);
    lemma_written_file_lookup(table, bs, hs, dict, values, declared, key);
}

} // verus!
