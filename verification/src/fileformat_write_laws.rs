//! What holds of every file that the writer lays out.

use crate::error::IkvblobError;
use crate::fileformat_write::{
    lemma_header_round_trip, lemma_record_sizes, lemma_table_bytes_len, padded_len, spec_file, spec_file_header,
    spec_table_bytes, zeros, IkvblobHeader, StaticSizeSerializable,
};
use crate::metadata::spec_metadata_bytes;
use crate::utils::{crc32, spec_checksum_holds};
use vstd::bytes::lemma_auto_spec_u32_to_from_le_bytes;
use vstd::prelude::*;

verus! {

/// File layout. A file that the writer lays out begins with the header that
/// describes it: the three regions lie in order without overlap, the metadata
/// right after the header and each region where the one before ends, up to
/// padding; the size that the header gives is the length of the file; and
/// the last four bytes are the checksum of all the bytes before them.
pub proof fn lemma_file_layout<E: StaticSizeSerializable>(
    table: Seq<Seq<E>>,
    bs: nat,
    hs: nat,
    dict: Seq<u8>,
    values: Seq<u8>,
)
    requires
        forall|b: int| 0 <= b < table.len() ==> (#[trigger] table[b]).len() == bs,
        hs <= u64::MAX,
        spec_file(table, bs, hs, dict, values, values.len()) is Ok,
    ensures
        ({
            let file = spec_file(table, bs, hs, dict, values, values.len())->Ok_0;
            let header = spec_file_header(
                table.len(),
                bs,
                hs,
                E::SER_SIZE as nat,
                spec_metadata_bytes(dict)->Ok_0.len(),
                values.len(),
            );
            &&& file.len() >= 88
            &&& IkvblobHeader::spec_read(file.take(88)) == Ok::<IkvblobHeader, IkvblobError>(header)
            &&& header.regions_in_order()
            &&& header.spec_total_size() == file.len()
            &&& header.cuckoo_table_num_hashers == hs
            &&& file.subrange(
                header.dynamic_metadata_offset as int,
                header.dynamic_metadata_offset + header.dynamic_metadata_size,
            ) == spec_metadata_bytes(dict)->Ok_0
            &&& file.subrange(
                header.cuckoo_table_offset as int,
                header.cuckoo_table_offset + header.cuckoo_table_size,
            ) == spec_table_bytes(table)->Ok_0
            &&& file.subrange(
                header.value_blob_offset as int,
                header.value_blob_offset + header.value_blob_size,
            ) == values
            &&& spec_checksum_holds(file)
        }),
{
    let metadata = spec_metadata_bytes(dict)->Ok_0;
    let records = spec_table_bytes(table)->Ok_0;
    let header = spec_file_header(
        table.len(),
        bs,
        hs,
        E::SER_SIZE as nat,
        metadata.len(),
        values.len(),
    );
    let padding = zeros((padded_len(metadata.len()) - metadata.len()) as nat);
    let head = header.spec_bytes();
    let body = head + metadata + padding + records + values;
    let file = body + vstd::bytes::spec_u32_to_le_bytes(crc32(body));
    lemma_auto_spec_u32_to_from_le_bytes();
    lemma_header_round_trip(header);
    header.lemma_written_len();
    lemma_table_bytes_len(table, bs);
    let md_end: int = 88int + metadata.len();
    let table_start: int = 88int + padded_len(metadata.len());
    let blob_start: int = table_start + records.len();
    let blob_end: int = blob_start + values.len();
    lemma_record_sizes();
    assert(head.len() == 88);
    assert(spec_file(table, bs, hs, dict, values, values.len()) == Ok::<Seq<u8>, IkvblobError>(
        file,
    ));
    assert(records.len() == table.len() * (bs * E::SER_SIZE));
    assert(file.take(88) =~= head);
    assert(file.subrange(88, md_end) =~= metadata);
    assert(file.subrange(table_start, blob_start) =~= records);
    assert(file.subrange(blob_start, blob_end) =~= values);
    assert(file.take(file.len() - 4) =~= body);
    assert(file.skip(file.len() - 4) =~= vstd::bytes::spec_u32_to_le_bytes(crc32(body)));
}

} // verus!
