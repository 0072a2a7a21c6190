use std::collections::HashMap;

use crypto::digest::Digest;
use rand::RngCore;

use mpir::pbc::choices::ChoicesCode;
use mpir::pbc::cuckoo::CuckooCode;
use mpir::pbc::hashing::hash_and_mod;
use mpir::pbc::pung::PungCode;
use mpir::pbc::replication::ReplicationCode;
use mpir::pbc::sharding::ShardingCode;
use mpir::pbc::{BatchCode, Tuple};

fn tuples_upto(n: u64) -> Vec<Tuple> {
    (0..n).map(|e| Tuple { t: (e, e * e) }).collect()
}

/// The canonical byte string of a key: its eight bytes, least
/// significant first.
fn canonical_bytes(key: u64) -> Vec<u8> {
    key.to_le_bytes().to_vec()
}

fn sharding_bound(k: usize) -> usize {
    3 * ((k as f64).ln() / (k as f64).ln().ln()).ceil() as usize
}

fn choices_bound(k: usize, d: usize) -> usize {
    1 + (((k as f64).ln().ln() / (d as f64).ln()) + 1.0).ceil() as usize
}

fn do_test<T: BatchCode>(code: &T, k: usize, tuples: &Vec<Tuple>) {
    // server
    let db: Vec<Vec<Tuple>> = code.encode(tuples);
    let keys: Vec<u64> = (0..k as u64).collect();

    // client
    let schedule = code.get_schedule(&keys).unwrap();

    // verify schedule is valid
    for (key, buckets) in schedule {
        assert!(db[buckets[0]].contains(&Tuple { t: (key, key * key) }));
    }
}

#[test]
fn test_replication() {
    let mut rng = rand::thread_rng();

    for i in 0..100 {
        let k = 12 + i + (rng.next_u32() % 8) as usize;
        let tuples = tuples_upto(500 + i as u64);

        let code = ReplicationCode::new(k);

        do_test(&code, k, &tuples);
    }
}

#[test]
fn test_sharding() {
    let mut rng = rand::thread_rng();

    // Sharding rejects k <= 15 at construction, so the batch sizes
    // start just above that floor.
    for i in 0..100 {
        let k = 16 + i + (rng.next_u32() % 8) as usize;
        let tuples = tuples_upto(500);

        let code = ShardingCode::new(k, sharding_bound(k));
        do_test(&code, k, &tuples);
    }
}

#[test]
fn test_choices() {
    let mut rng = rand::thread_rng();

    for i in 0..100 {
        let k = 12 + i + (rng.next_u32() % 8) as usize;
        let tuples = tuples_upto(500 + i as u64);

        let code = ChoicesCode::new(k, 2, choices_bound(k, 2));
        do_test(&code, k, &tuples);
    }
}

#[test]
fn test_cuckoo() {
    let mut rng = rand::thread_rng();

    for i in 0..100 {
        let k = 12 + i + (rng.next_u32() % 8) as usize;
        let tuples = tuples_upto(500 + i as u64);

        let code = CuckooCode::new(k, 3, 13, 10);
        do_test(&code, k, &tuples);
    }
}

fn labels_of(db: &Vec<Vec<Tuple>>) -> HashMap<u64, Vec<usize>> {
    let mut labels: HashMap<u64, Vec<usize>> = HashMap::new();
    for (i, vec_tuple) in db.iter().enumerate() {
        for tuple in vec_tuple {
            let entry = labels.entry(tuple.t.0).or_insert(Vec::new());
            entry.push(i);
        }
    }
    labels
}

#[test]
fn test_pung() {
    let mut rng = rand::thread_rng();

    for i in 0..10 {
        let k = 12 + i + (rng.next_u32() % 8) as usize;
        let tuples = tuples_upto(5000 + i as u64);

        let mut code = PungCode::new(k);

        // server
        let db: Vec<Vec<Tuple>> = code.encode(&tuples);
        let keys: Vec<u64> = (0..k as u64).collect();

        // Get label mapping
        code.set_labels(labels_of(&db));

        // client
        let _schedule = code.get_schedule(&keys).unwrap();
    }
}

#[test]
fn s1_replication_copies_and_identity_schedule() {
    let k = 8;
    let tuples = tuples_upto(500);
    let code = ReplicationCode::new(k);
    let db = code.encode(&tuples);
    assert_eq!(db.len(), 8);
    for bucket in &db {
        assert_eq!(bucket, &tuples);
    }
    let keys: Vec<u64> = (0..8).collect();
    let schedule = code.get_schedule(&keys).unwrap();
    assert_eq!(schedule.len(), 8);
    for (i, (key, buckets)) in schedule.iter().enumerate() {
        assert_eq!(*key, i as u64);
        assert_eq!(buckets, &vec![i]);
    }
}

#[test]
fn s2_sharding_every_key_lands_in_a_replica() {
    let k = 16;
    let bound = sharding_bound(k);
    assert_eq!(bound, 3 * ((16f64).ln() / (16f64).ln().ln()).ceil() as usize);
    let tuples = tuples_upto(500);
    let code = ShardingCode::new(k, bound);
    let db = code.encode(&tuples);
    assert_eq!(db.len(), k * bound);
    let keys: Vec<u64> = (0..16).collect();
    let schedule = code.get_schedule(&keys).unwrap();
    assert_eq!(schedule.len(), 16);
    for (key, buckets) in &schedule {
        assert_eq!(buckets.len(), 1);
        assert!(db[buckets[0]].contains(&Tuple { t: (*key, key * key) }));
    }
}

fn assert_disjoint(schedule: &Vec<(u64, Vec<usize>)>) {
    let mut seen: Vec<usize> = Vec::new();
    for (_, buckets) in schedule {
        for b in buckets {
            assert!(!seen.contains(b), "two keys share a bucket");
            seen.push(*b);
        }
    }
}

#[test]
fn s3_choices_schedule_disjoint() {
    let k = 16;
    let d = 2;
    let bound = choices_bound(k, d);
    assert_eq!(bound, 1 + (((16f64).ln().ln() / (2f64).ln()) + 1.0).ceil() as usize);
    let tuples = tuples_upto(500);
    let code = ChoicesCode::new(k, d, bound);
    let db = code.encode(&tuples);
    assert_eq!(db.len(), k * bound);
    let keys: Vec<u64> = (0..16).collect();
    let schedule = code.get_schedule(&keys).unwrap();
    assert_disjoint(&schedule);
}

#[test]
fn s4_cuckoo_one_candidate_each_no_collisions() {
    let k = 16;
    let tuples = tuples_upto(500);
    let code = CuckooCode::new(k, 3, 13, 10);
    let db = code.encode(&tuples);
    assert_eq!(db.len(), 21); // ceil(16 * 1.3)
    let keys: Vec<u64> = (0..16).collect();
    let schedule = code.get_schedule(&keys).unwrap();
    assert_eq!(schedule.len(), 16);
    assert_disjoint(&schedule);
    for (key, buckets) in &schedule {
        // exactly one bucket, and it is one of the key's own 3
        // candidates: the key's tuple was stored in all of them.
        assert_eq!(buckets.len(), 1);
        assert!(db[buckets[0]].contains(&Tuple { t: (*key, key * key) }));
    }
}

#[test]
fn s5_pung_schedule_and_xor_decode() {
    let k = 16;
    let tuples = tuples_upto(5000);
    let mut code = PungCode::new(k);
    let db = code.encode(&tuples);
    assert_eq!(db.len(), 9 * 16);
    code.set_labels(labels_of(&db));
    let keys: Vec<u64> = (0..16).collect();
    let schedule = code.get_schedule(&keys).unwrap();
    assert_eq!(schedule.len(), 16);
    assert_disjoint(&schedule);
    for (key, buckets) in &schedule {
        // Locate the tuple in the systematic quarters of the block.
        let block = (buckets[0] / 9) * 9;
        let mut found = None;
        for o in 0..4 {
            if let Some(p) = mpir::multipir::find_key_index(&db[block + o], *key) {
                found = Some(p);
                break;
            }
        }
        let p = found.expect("key not found in its block");
        if buckets.iter().all(|b| p < db[*b].len()) {
            let mut results: Vec<Tuple> = Vec::new();
            for b in buckets {
                results.push(db[*b][p]);
            }
            let decoded = code.decode(&results);
            assert_eq!(decoded, Tuple { t: (*key, key * key) });
        } else {
            // A trailing element of an odd split cannot be read
            // through this parity group; the systematic copy is
            // still in place.
            assert!(db[block..block + 4].iter().any(|bucket| bucket.contains(&Tuple {
                t: (*key, key * key),
            })));
        }
    }
}

#[test]
fn s6_padding_covers_every_bucket() {
    let assigned: Vec<Option<u32>> = vec![None, Some(3), None, Some(0), None];
    let counts: Vec<u32> = vec![7, 9, 1, 4, 2];
    let indexes = mpir::multipir::pad_indexes(&assigned, &counts);
    assert_eq!(indexes.len(), 5);
    assert_eq!(indexes[1], 3);
    assert_eq!(indexes[3], 0);
    for i in [0usize, 2, 4] {
        assert!(indexes[i] < counts[i]);
    }
}

#[test]
fn hash_domain_separation() {
    let data = canonical_bytes(123456789);
    for m in [16usize, 21, 144] {
        let mut all_equal = true;
        for id in 1..8 {
            if hash_and_mod(id, 0, &data, m) != hash_and_mod(0, 0, &data, m) {
                all_equal = false;
            }
        }
        assert!(!all_equal, "every hash function agreed modulo {}", m);
    }
    // Distinct tags hash distinct byte strings, so over a larger
    // modulus the values separate outright.
    let big = 1 << 30;
    assert_ne!(
        hash_and_mod(0, 0, &data, big),
        hash_and_mod(1, 0, &data, big)
    );
}

#[test]
fn xor_decode_associates_left() {
    let a = Tuple { t: (0x0123, 0x4567) };
    let b = Tuple { t: (0x89ab, 0xcdef) };
    let c = Tuple { t: (0x1111, 0x2222) };
    let d = Tuple { t: (0xf0f0, 0x0f0f) };
    let code = PungCode::new(5);
    let decoded = code.decode(&vec![a, b, c, d]);
    assert_eq!(decoded, a.bitxor(b).bitxor(c).bitxor(d));
    // and a singleton decodes to itself
    assert_eq!(code.decode(&vec![a]), a);
}

#[test]
fn xor_is_an_involution() {
    let a = Tuple { t: (0xdead, 0xbeef) };
    let b = Tuple { t: (0x5555, 0xaaaa) };
    assert_eq!(a.bitxor(b).bitxor(b), a);
    let mut c = a;
    c.bitxor_assign(b);
    assert_eq!(c, a.bitxor(b));
}

#[test]
fn sharding_schedule_infeasible_when_replicas_exhausted() {
    let k = 16;
    let bound = sharding_bound(k);
    let code = ShardingCode::new(k, bound);
    // Find bound + 1 distinct keys that all hash to logical bucket 0.
    let mut colliders: Vec<u64> = Vec::new();
    let mut key: u64 = 0;
    while colliders.len() < bound + 1 {
        if hash_and_mod(0, 0, &canonical_bytes(key), k) == 0 {
            colliders.push(key);
        }
        key += 1;
    }
    // All replicas of bucket 0 are exhausted by the first `bound`
    // keys, so the schedule as a whole is infeasible.
    assert!(code.get_schedule(&colliders).is_none());
    // One key fewer schedules fine.
    let fewer: Vec<u64> = colliders[..bound].to_vec();
    assert!(code.get_schedule(&fewer).is_some());
}

#[test]
fn pung_schedule_infeasible_when_candidates_exhausted() {
    let mut code = PungCode::new(5);
    // Every key is labelled with the same single occurrence: its four
    // candidate sets cover the block, so a fifth key finds nothing.
    let mut labels: HashMap<u64, Vec<usize>> = HashMap::new();
    for key in 0..5u64 {
        labels.insert(key, vec![0]);
    }
    code.set_labels(labels);
    let keys: Vec<u64> = (0..5).collect();
    assert!(code.get_schedule(&keys).is_none());
    // Four keys claim the four candidate sets, first-fit in order.
    let four: Vec<u64> = (0..4).collect();
    let schedule = code.get_schedule(&four).unwrap();
    assert_eq!(schedule[0].1, vec![0]);
    assert_eq!(schedule[1].1, vec![1, 4]);
    assert_eq!(schedule[2].1, vec![2, 6]);
    assert_eq!(schedule[3].1, vec![3, 5, 7, 8]);
}

#[test]
fn deterministic_codes_repeat_exactly() {
    let tuples = tuples_upto(200);
    let keys: Vec<u64> = (0..12).collect();

    let sharding = ShardingCode::new(16, sharding_bound(16));
    assert_eq!(sharding.encode(&tuples), sharding.encode(&tuples));
    assert_eq!(sharding.get_schedule(&keys), sharding.get_schedule(&keys));

    let choices = ChoicesCode::new(16, 2, choices_bound(16, 2));
    assert_eq!(choices.encode(&tuples), choices.encode(&tuples));
    assert_eq!(choices.get_schedule(&keys), choices.get_schedule(&keys));

    let mut pung = PungCode::new(16);
    let db = pung.encode(&tuples);
    assert_eq!(db, pung.encode(&tuples));
    pung.set_labels(labels_of(&db));
    assert_eq!(pung.get_schedule(&keys), pung.get_schedule(&keys));
}

#[test]
fn empty_collection_and_empty_batch() {
    let code = ShardingCode::new(16, sharding_bound(16));
    let db = code.encode(&Vec::new());
    assert_eq!(db.len(), 16 * sharding_bound(16));
    for bucket in &db {
        assert!(bucket.is_empty());
    }
    let schedule = code.get_schedule(&Vec::new()).unwrap();
    assert!(schedule.is_empty());
}

#[test]
fn bucket_sizes_describe_every_bucket() {
    let code = ReplicationCode::new(3);
    let tuples = tuples_upto(5);
    let db = code.encode(&tuples);
    let sizes = mpir::multipir::bucket_sizes(&db, 16);
    assert_eq!(sizes, vec![(5, 16), (5, 16), (5, 16)]);
}

#[test]
fn find_key_index_reports_first_match() {
    let bucket = vec![
        Tuple { t: (4, 16) },
        Tuple { t: (7, 49) },
        Tuple { t: (7, 0) },
    ];
    assert_eq!(mpir::multipir::find_key_index(&bucket, 7), Some(1));
    assert_eq!(mpir::multipir::find_key_index(&bucket, 5), None);
}


#[test]
fn hash_and_mod_matches_direct_digest() {
    // Rebuild the hashed byte string by hand (eight little-endian
    // bytes of tag and nonce, then the data), digest it directly, and
    // reduce little-endian modulo m: the library must agree.
    let id: usize = 3;
    let nonce: usize = 7;
    let data = canonical_bytes(424242);
    let m: usize = 1009;

    let mut input: Vec<u8> = Vec::new();
    input.extend_from_slice(&(id as u64).to_le_bytes());
    input.extend_from_slice(&(nonce as u64).to_le_bytes());
    input.extend_from_slice(&data);
    let mut digest = crypto::sha2::Sha256::new();
    digest.input(&input);
    let mut out = [0u8; 32];
    digest.result(&mut out);

    let mut acc: u128 = 0;
    for b in out.iter().rev() {
        acc = (acc * 256 + *b as u128) % (m as u128);
    }
    assert_eq!(hash_and_mod(id, nonce, &data, m), acc as usize);
}

#[test]
fn cuckoo_small_batch_always_schedules() {
    // With at most d keys, every key finds one of its d distinct
    // candidates empty at its turn, so the eviction-free pass goes
    // through and the scheduler is guaranteed to succeed.
    let code = CuckooCode::new(16, 3, 13, 10);
    for n in 1..=3u64 {
        let keys: Vec<u64> = (100..100 + n).collect();
        let schedule = code.get_schedule(&keys).unwrap();
        assert_eq!(schedule.len(), n as usize);
        assert_disjoint(&schedule);
    }
}
