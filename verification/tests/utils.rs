use ikvblob::error::IkvblobError;
use ikvblob::reorder::OrderRecoverer;
use ikvblob::utils::{
    decode_index_record, parse_signature_line, recover_order, reservoir_step, sample, sample_into,
    CRC32Writer, INDEX_RECORD_SIZE,
};
use rand::seq::SliceRandom;
use rand::SeedableRng;

#[test]
fn checksum_of_the_check_string() {
    let mut writer = CRC32Writer::new(Vec::new());
    assert_eq!(writer.write(b"1234"), 4);
    assert_eq!(writer.write(b"56789"), 5);
    assert_eq!(writer.current_crc(), 0xcbf4_3926);
    assert_eq!(writer.into_inner(), b"123456789".to_vec());
}

#[test]
fn checksum_covers_what_was_written_only() {
    let mut writer = CRC32Writer::new(vec![1, 2, 3]);
    assert_eq!(writer.current_crc(), 0);
    writer.write(b"123456789");
    assert_eq!(writer.current_crc(), 0xcbf4_3926);
    writer.write(&[]);
    assert_eq!(writer.current_crc(), 0xcbf4_3926);
    writer.write(&[0]);
    assert_ne!(writer.current_crc(), 0xcbf4_3926);
    let mut all = vec![1u8, 2, 3];
    all.extend_from_slice(b"123456789");
    all.push(0);
    assert_eq!(writer.into_inner(), all);
}

#[test]
fn reservoir_step_fills_replaces_or_drops() {
    let mut samples = vec![100, 101];
    reservoir_step(&mut samples, 2, 3, 1, 0, 7);
    reservoir_step(&mut samples, 2, 3, 2, 0, 8);
    reservoir_step(&mut samples, 2, 3, 3, 0, 9);
    assert_eq!(samples, vec![100, 101, 7, 8, 9]);
    reservoir_step(&mut samples, 2, 3, 4, 3, 10);
    assert_eq!(samples, vec![100, 101, 7, 8, 9]);
    reservoir_step(&mut samples, 2, 3, 4, 1, 10);
    assert_eq!(samples, vec![100, 101, 7, 10, 9]);
    reservoir_step(&mut samples, 2, 3, 5, 0, 11);
    assert_eq!(samples, vec![100, 101, 11, 10, 9]);
}

#[test]
fn sample_of_few_items_is_all_of_them_in_order() {
    let items: Vec<u32> = (0..10).collect();
    let mut rng = rand::thread_rng();
    let taken = sample(&mut rng, 10, &items);
    assert_eq!(taken, items.iter().collect::<Vec<_>>());
    let taken = sample(&mut rng, 25, &items);
    assert_eq!(taken, items.iter().collect::<Vec<_>>());
    let none: Vec<u32> = Vec::new();
    assert!(sample(&mut rng, 3, &none).is_empty());
    assert!(sample(&mut rng, 0, &items).is_empty());
}

#[test]
fn sample_of_many_items_takes_each_place_from_its_item_or_a_late_one() {
    let items: Vec<u32> = (0..1000).collect();
    let mut rng = rand::thread_rng();
    let mut replaced = 0;
    for _ in 0..20 {
        let taken = sample(&mut rng, 50, &items);
        assert_eq!(taken.len(), 50);
        for (place, item) in taken.iter().enumerate() {
            assert!(**item as usize == place || **item >= 50);
            if **item >= 50 {
                replaced += 1;
            }
        }
        let mut distinct: Vec<u32> = taken.iter().map(|i| **i).collect();
        distinct.sort();
        distinct.dedup();
        assert_eq!(distinct.len(), 50);
    }
    assert!(replaced > 0);
}

#[test]
fn sample_into_keeps_what_was_there() {
    let items: Vec<u32> = (0..100).collect();
    let zero = 0u32;
    let mut samples: Vec<&u32> = vec![&zero, &zero];
    let mut rng = rand::thread_rng();
    sample_into(&mut samples, &mut rng, 5, &items);
    assert_eq!(samples.len(), 7);
    assert_eq!(&samples[..2], &[&zero, &zero]);
    for (place, item) in samples[2..].iter().enumerate() {
        assert!(**item as usize == place || **item >= 5);
    }
}

fn shuffled_in_chunks(n: usize, chunk: usize, seed: u64) -> Vec<(usize, Vec<u8>)> {
    // chunks finish in a random order, as with workers of varying speed
    let mut rng = rand::rngs::StdRng::seed_from_u64(seed);
    let mut starts: Vec<usize> = (0..n).step_by(chunk).collect();
    starts.shuffle(&mut rng);
    let mut arrivals = Vec::new();
    for start in starts {
        for i in start..(start + chunk).min(n) {
            arrivals.push((i, (i as u32).to_le_bytes().to_vec()));
        }
    }
    arrivals
}

#[test]
fn order_is_recovered_whatever_the_order_of_arrival() {
    for n in [0usize, 1, 4096, 4097, 50000] {
        let in_order: Vec<Vec<u8>> = (0..n).map(|i| (i as u32).to_le_bytes().to_vec()).collect();
        for chunk in [1usize, 7, 4096] {
            let arrivals = shuffled_in_chunks(n, chunk, n as u64 + chunk as u64);
            assert_eq!(recover_order(arrivals), in_order);
        }
        let mut rng = rand::rngs::StdRng::seed_from_u64(n as u64);
        let mut arrivals: Vec<(usize, Vec<u8>)> =
            in_order.iter().cloned().enumerate().collect();
        arrivals.shuffle(&mut rng);
        assert_eq!(recover_order(arrivals), in_order);
    }
}

fn replay(arrivals: Vec<(usize, char)>) -> (Vec<char>, Result<(), IkvblobError>) {
    let mut recoverer = OrderRecoverer::new();
    let mut sink = Vec::new();
    for (i, value) in arrivals {
        recoverer.accept(i, value, &mut sink);
    }
    (sink, recoverer.finish())
}

#[test]
fn results_left_over_are_an_error() {
    let (handed, done) = replay(vec![(0usize, 'a'), (2, 'c'), (3, 'd')]);
    assert_eq!(handed, vec!['a']);
    assert_eq!(done, Err(IkvblobError::ItemsLostInReordering { pending: 2 }));
    let (handed, done) = replay(vec![(0usize, 'a'), (1, 'b'), (0, 'a')]);
    assert_eq!(handed, vec!['a', 'b']);
    assert_eq!(done, Err(IkvblobError::ItemsLostInReordering { pending: 1 }));
    let (handed, done) = replay(vec![(1usize, 'b')]);
    assert_eq!(handed, vec![]);
    assert_eq!(done, Err(IkvblobError::ItemsLostInReordering { pending: 1 }));
}

#[test]
fn results_are_handed_on_as_soon_as_their_turn_comes() {
    let mut recoverer = OrderRecoverer::new();
    let mut sink: Vec<char> = Vec::new();
    recoverer.accept(2, 'c', &mut sink);
    assert_eq!(sink, vec![]);
    recoverer.accept(1, 'b', &mut sink);
    assert_eq!(sink, vec![]);
    recoverer.accept(0, 'a', &mut sink);
    assert_eq!(sink, vec!['a', 'b', 'c']);
    recoverer.accept(4, 'e', &mut sink);
    assert_eq!(sink, vec!['a', 'b', 'c']);
    recoverer.accept(3, 'd', &mut sink);
    assert_eq!(sink, vec!['a', 'b', 'c', 'd', 'e']);
    assert_eq!(recoverer.finish(), Ok(()));

    let mut recoverer = OrderRecoverer::new();
    recoverer.accept(5, 'x', &mut sink);
    assert_eq!(
        recoverer.finish(),
        Err(IkvblobError::ItemsLostInReordering { pending: 1 })
    );
}

#[test]
fn signature_line_is_hex_key_comma_base64_value() {
    assert_eq!(
        parse_signature_line(b"00ff1A2b,aGVsbG8gd29ybGQ="),
        Some((vec![0x00, 0xff, 0x1a, 0x2b], b"hello world".to_vec()))
    );
    assert_eq!(
        parse_signature_line(b"0a,aGk=,what follows is not read"),
        Some((vec![0x0a], b"hi".to_vec()))
    );
    assert_eq!(parse_signature_line(b",,"), Some((vec![], vec![])));
    assert_eq!(parse_signature_line(b"0a,"), Some((vec![0x0a], vec![])));
    assert_eq!(parse_signature_line(b"0a"), None);
    assert_eq!(parse_signature_line(b""), None);
    assert_eq!(parse_signature_line(b"0,aGk="), None);
    assert_eq!(parse_signature_line(b"0g,aGk="), None);
    assert_eq!(parse_signature_line(b"0a,aGk"), None);
    assert_eq!(parse_signature_line(b"0a,a!k="), None);
}

#[test]
fn index_record_is_offset_and_length() {
    assert_eq!(INDEX_RECORD_SIZE, 12);
    let record = [0x10, 0x32, 0x54, 0x76, 0x98, 0xba, 0xdc, 0xfe, 0x04, 0x03, 0x02, 0x01];
    assert_eq!(decode_index_record(&record), Some((0xfedc_ba98_7654_3210, 0x0102_0304)));
    assert_eq!(decode_index_record(&record[..11]), None);
    let mut longer = record.to_vec();
    longer.push(0xff);
    assert_eq!(decode_index_record(&longer), Some((0xfedc_ba98_7654_3210, 0x0102_0304)));
}
