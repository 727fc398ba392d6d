use ikvblob::compression::{compress_value, try_decompress};
use ikvblob::construction::{
    build_zstd_dictionary_from_sample, compress_all, compress_chunk, compress_ordered, construct,
    construct_simple, construct_simple2, trained_or_error,
};
use ikvblob::error::IkvblobError;
use ikvblob::index::{layout_values, EntryIndexBuilder, IndexBuilder, OffsetIndexBuilder};

fn texts(n: usize) -> Vec<Vec<u8>> {
    (0..n)
        .map(|i| format!("{{\"id\": {}, \"kind\": \"sample\", \"weight\": {}}}", i, i * 7 % 13).into_bytes())
        .collect()
}

const RAW_DICT: &[u8] = b"{\"id\": 0, \"kind\": \"sample\", \"weight\": 0}";

#[test]
fn pipeline_in_chunks_gives_the_sequential_encoding() {
    for n in [0usize, 1, 4096, 4097, 50000] {
        let values = texts(n);
        let sequential = compress_all(RAW_DICT, &values).unwrap();
        assert_eq!(sequential.len(), n);
        let chunked = compress_ordered(RAW_DICT, &values, 4096).unwrap();
        assert_eq!(chunked, sequential);
        let (blob, locators) = layout_values(&chunked).unwrap();
        let (blob2, locators2) = layout_values(&sequential).unwrap();
        assert_eq!(blob, blob2);
        assert_eq!(locators, locators2);
        assert_eq!(locators.len(), n);
    }
}

#[test]
fn chunk_of_work_numbers_its_frames() {
    let values = texts(10);
    let mut arrivals = vec![(99usize, vec![1u8])];
    assert_eq!(compress_chunk(RAW_DICT, &values, 3, 6, &mut arrivals), Ok(()));
    assert_eq!(arrivals.len(), 4);
    assert_eq!(arrivals[0], (99, vec![1u8]));
    for (j, (i, frame)) in arrivals[1..].iter().enumerate() {
        assert_eq!(*i, 3 + j);
        assert_eq!(frame, &compress_value(RAW_DICT, &values[3 + j]).unwrap());
    }
}

#[test]
fn every_value_decompresses_with_the_trained_dictionary() {
    let values = texts(3000);
    let dict = build_zstd_dictionary_from_sample(&values, 2048, 1000).unwrap();
    assert!(!dict.is_empty());
    for value in values.iter() {
        let frame = compress_value(&dict, value).unwrap();
        assert_ne!(&frame, value);
        assert_eq!(try_decompress(Some(&dict), &frame).as_ref(), Ok(value));
    }
}

#[test]
fn constructions_agree_on_the_values() {
    let values = texts(5000);
    for built in [
        construct(&values, 2048, 800).unwrap(),
        construct_simple(&values, 2048, 800).unwrap(),
        construct_simple2(&values, 2048, 800).unwrap(),
    ] {
        let (dict, frames) = built;
        assert_eq!(frames.len(), values.len());
        assert_eq!(frames, compress_all(&dict, &values).unwrap());
        for (frame, value) in frames.iter().zip(values.iter()).step_by(97) {
            assert_eq!(try_decompress(Some(&dict), frame).as_ref(), Ok(value));
        }
    }
}

#[test]
fn dictionary_training_can_fail() {
    let none: Vec<Vec<u8>> = Vec::new();
    assert_eq!(
        build_zstd_dictionary_from_sample(&none, 1024, 10),
        Err(IkvblobError::DictionaryTrainingFailed)
    );
    assert_eq!(
        build_zstd_dictionary_from_sample(&texts(100), usize::MAX, 10),
        Err(IkvblobError::DictionaryTrainingFailed)
    );
    assert_eq!(construct(&none, 1024, 10).err(), Some(IkvblobError::DictionaryTrainingFailed));
    assert_eq!(trained_or_error(None), Err(IkvblobError::DictionaryTrainingFailed));
    assert_eq!(trained_or_error(Some(vec![1, 2])), Ok(vec![1, 2]));
}

#[test]
fn decompression_tries_buffers_up_to_256_kib() {
    let fits = vec![b'a'; 262144];
    let frame = compress_value(RAW_DICT, &fits).unwrap();
    assert!(frame.len() < 1000);
    assert_eq!(try_decompress(Some(&RAW_DICT.to_vec()), &frame), Ok(fits));

    let too_long = vec![b'a'; 262145];
    let frame = compress_value(RAW_DICT, &too_long).unwrap();
    assert_eq!(
        try_decompress(Some(&RAW_DICT.to_vec()), &frame),
        Err(IkvblobError::DecompressionFailed)
    );

    let small = b"just a few bytes".to_vec();
    let frame = compress_value(RAW_DICT, &small).unwrap();
    assert_eq!(try_decompress(Some(&RAW_DICT.to_vec()), &frame), Ok(small));

    assert_eq!(
        try_decompress(Some(&RAW_DICT.to_vec()), b"no frame at all"),
        Err(IkvblobError::DecompressionFailed)
    );
}

#[test]
fn without_a_dictionary_the_stored_bytes_are_the_value() {
    assert_eq!(try_decompress(None, b"as it is"), Ok(b"as it is".to_vec()));
    assert_eq!(try_decompress(None, b""), Ok(Vec::new()));
}

#[test]
fn index_builders_number_and_locate() {
    let mut entries = EntryIndexBuilder::new();
    assert_eq!(IndexBuilder::<usize, Vec<u8>>::push(&mut entries, &vec![1, 2, 3]), 0);
    assert_eq!(IndexBuilder::<usize, Vec<u8>>::push(&mut entries, &vec![]), 1);
    assert_eq!(IndexBuilder::<usize, u8>::push(&mut entries, &9), 2);

    let mut offsets = OffsetIndexBuilder::new();
    assert_eq!(offsets.push(&vec![1, 2, 3]), (0, 3));
    assert_eq!(offsets.push(&vec![]), (3, 0));
    assert_eq!(offsets.push(&vec![7; 10]), (3, 10));
    assert_eq!(offsets.push(&vec![8]), (13, 1));
    assert_eq!(offsets.current_offset, 14);
}

#[test]
fn layout_is_the_concatenation_with_its_locators() {
    let values = vec![vec![1u8, 2, 3], vec![], vec![4, 5]];
    let (blob, locators) = layout_values(&values).unwrap();
    assert_eq!(blob, vec![1, 2, 3, 4, 5]);
    assert_eq!(locators, vec![(0, 3), (3, 0), (3, 2)]);
    let none: Vec<Vec<u8>> = Vec::new();
    assert_eq!(layout_values(&none), Some((vec![], vec![])));
}

#[test]
fn pieces_of_work_end_at_the_chunk_size_or_with_the_values() {
    use_chunk_end(10, 0, 4, 4);
    use_chunk_end(10, 4, 4, 8);
    use_chunk_end(10, 8, 4, 10);
    use_chunk_end(10, 10, 4, 10);
    use_chunk_end(8, 4, 4, 8);
    use_chunk_end(usize::MAX, usize::MAX - 3, 4096, usize::MAX);
    use_chunk_end(5, 0, usize::MAX, 5);
}

fn use_chunk_end(len: usize, start: usize, chunk: usize, end: usize) {
    assert_eq!(ikvblob::construction::chunk_end(len, start, chunk), end);
}

#[test]
fn dictionary_from_a_choice_of_the_values() {
    let values = texts(3000);
    let dict =
        ikvblob::construction::build_zstd_dictionary_from_choice(&values, 2048, 1000).unwrap();
    assert!(!dict.is_empty());
    assert!(dict.len() <= 2048);
    let all: Vec<&Vec<u8>> = values.iter().collect();
    let from_all = ikvblob::construction::dictionary_from(&all, 2048).unwrap();
    // with room for every value the choice is all of them, in some order
    let chosen =
        ikvblob::construction::build_zstd_dictionary_from_sample(&values, 2048, 3000).unwrap();
    assert_eq!(chosen, from_all);
    assert_eq!(
        ikvblob::construction::build_zstd_dictionary_from_choice(&values, usize::MAX, 10),
        Err(IkvblobError::DictionaryTrainingFailed)
    );
    assert_eq!(
        construct(&values, usize::MAX, 10).err(),
        Some(IkvblobError::DictionaryTrainingFailed)
    );
    assert_eq!(
        construct_simple(&values, usize::MAX, 10).err(),
        Some(IkvblobError::DictionaryTrainingFailed)
    );
    assert_eq!(
        construct_simple2(&values, usize::MAX, 10).err(),
        Some(IkvblobError::DictionaryTrainingFailed)
    );
}
