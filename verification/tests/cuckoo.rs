use ikvblob::cuckoo::StaticCuckooTable;
use ikvblob::error::IkvblobError;
use ikvblob::multihash::Multihash;
use rand::seq::SliceRandom;
use rand::{RngCore, SeedableRng};

fn outer_size(n: usize, ratio: f32, bs: usize) -> usize {
    (ratio * (n as f32) / bs as f32).ceil() as usize
}

#[test]
fn test_static_cuckoo_table() {
    let inputs = (0..1000u64).map(|x| (x, x * 2)).collect::<Vec<_>>();

    let table =
        StaticCuckooTable::<2, 2, u64, u64>::from_iter(inputs.clone(), outer_size(1000, 1.5, 2))
            .unwrap();

    for (k, v) in inputs {
        assert_eq!(table.lookup(&k), Some(&v));
    }
}

#[test]
fn keys_that_were_not_inserted_are_not_found() {
    let inputs = (0..1000u64).map(|x| (x, x * 2)).collect::<Vec<_>>();
    let table =
        StaticCuckooTable::<2, 2, u64, u64>::from_iter(inputs, outer_size(1000, 1.5, 2)).unwrap();
    assert_eq!(table.table.len(), 750);
    for k in 1000..3000u64 {
        assert_eq!(table.lookup(&k), None);
    }
}

#[test]
fn later_value_of_a_duplicate_key_stays_in_one_slot() {
    let inputs: Vec<(u64, u64)> = vec![(1, 10), (2, 20), (1, 11), (3, 30), (1, 12)];
    let table = StaticCuckooTable::<2, 2, u64, u64>::from_iter(inputs, 4).unwrap();
    assert_eq!(table.lookup(&1), Some(&12));
    assert_eq!(table.lookup(&2), Some(&20));
    assert_eq!(table.lookup(&3), Some(&30));
    let holding_one = table
        .table
        .iter()
        .flat_map(|bucket| bucket.iter())
        .filter(|slot| matches!(slot, Some((1, _))))
        .count();
    assert_eq!(holding_one, 1);
    let occupied = table
        .table
        .iter()
        .flat_map(|bucket| bucket.iter())
        .filter(|slot| slot.is_some())
        .count();
    assert_eq!(occupied, 3);
}

#[test]
fn too_small_a_table_fails_the_construction() {
    let inputs = (0..1000u64).map(|x| (x, x)).collect::<Vec<_>>();
    let built =
        StaticCuckooTable::<2, 2, u64, u64>::from_iter(inputs, outer_size(1000, 0.5, 2));
    match built {
        Err(IkvblobError::CollisionBoundExceeded { input, displacements }) => {
            assert!(input <= 500);
            assert_eq!(displacements, 1000);
        }
        _ => panic!("construction must fail"),
    }
}

#[test]
fn table_without_buckets() {
    let none: Vec<(u64, u64)> = Vec::new();
    let table = StaticCuckooTable::<2, 2, u64, u64>::from_iter(none, 0).unwrap();
    assert_eq!(table.table.len(), 0);
    assert_eq!(table.lookup(&5), None);

    let one: Vec<(u64, u64)> = vec![(5, 6)];
    assert_eq!(
        StaticCuckooTable::<2, 2, u64, u64>::from_iter(one, 0).err(),
        Some(IkvblobError::CollisionBoundExceeded { input: 0, displacements: 0 })
    );
}

#[test]
fn hash_functions_have_parameters_from_one() {
    let none: Vec<(u64, u64)> = Vec::new();
    let table = StaticCuckooTable::<2, 3, u64, u64>::from_iter(none, 5).unwrap();
    let params: Vec<u64> = table.hashers.iter().map(|h| h.p).collect();
    assert_eq!(params, vec![1, 2, 3]);
    assert_eq!(table.table.len(), 5);
    assert!(table.table.iter().all(|bucket| bucket.iter().all(|slot| slot.is_none())));
}

#[test]
fn random_keys_round_trip_at_ratio_1_2() {
    use_random_keys(1000, 1.2);
    use_random_keys(64, 1.2);
    use_random_keys(5000, 1.5);
}

fn use_random_keys(n: usize, ratio: f32) {
    let mut built = 0;
    for seed in 0..20u64 {
        let mut rng = rand::rngs::StdRng::seed_from_u64(seed);
        let mut keys: Vec<u64> = (0..2 * n + 200).map(|_| rng.next_u64()).collect();
        keys.sort();
        keys.dedup();
        keys.shuffle(&mut rng);
        assert!(keys.len() >= n + 100);
        let absent = keys.split_off(n);
        let inputs: Vec<(u64, u64)> = keys.iter().map(|k| (*k, k.wrapping_mul(3))).collect();
        let outer = outer_size(n, ratio, 2);
        assert!(n <= outer * 2);
        match StaticCuckooTable::<2, 2, u64, u64>::from_iter(inputs.clone(), outer) {
            Ok(table) => {
                built += 1;
                for (k, v) in inputs.iter() {
                    assert_eq!(table.lookup(k), Some(v));
                }
                for k in absent.iter() {
                    assert_eq!(table.lookup(k), None);
                }
                let occupied =
                    table.table.iter().flat_map(|b| b.iter()).filter(|s| s.is_some()).count();
                assert_eq!(occupied, n);
            }
            Err(IkvblobError::CollisionBoundExceeded { input, displacements }) => {
                assert!(input < n);
                assert_eq!(displacements, 1000);
            }
            Err(_) => panic!("no other error comes from a construction"),
        }
    }
    println!("{} entries at ratio {}: {} of 20 tables built", n, ratio, built);
    assert!(built > 0);
}

#[test]
fn construction_can_fail_with_room_to_spare() {
    // ten keys for sixteen slots: the displacements run in a circle
    let entries: Vec<(Multihash<32>, (u64, u64))> =
        (0..10u8).map(|i| (Multihash::<32>::wrap(1, [i; 32]), (i as u64 * 3, 3))).collect();
    assert_eq!(
        StaticCuckooTable::<2, 2, _, _>::from_iter(entries.clone(), 8).err(),
        Some(IkvblobError::CollisionBoundExceeded { input: 7, displacements: 1000 })
    );
    assert!(StaticCuckooTable::<2, 2, _, _>::from_iter(entries, 16).is_ok());
}

#[test]
fn more_keys_than_slots_always_fail() {
    for n in [1usize, 2, 3, 10, 100] {
        let inputs: Vec<(u64, u64)> = (0..n as u64 * 2 + 1).map(|k| (k, k)).collect();
        assert!(StaticCuckooTable::<2, 2, u64, u64>::from_iter(inputs, n).is_err());
    }
    // the same key many times needs one slot only
    let inputs: Vec<(u64, u64)> = (0..100u64).map(|v| (7, v)).collect();
    let table = StaticCuckooTable::<2, 2, u64, u64>::from_iter(inputs, 1).unwrap();
    assert_eq!(table.lookup(&7), Some(&99));
}
