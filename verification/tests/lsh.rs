use lsh_dedup::lsh::{merge, ConfigError, MinHashLSH};
use lsh_dedup::minhash::MinHash;
use lsh_dedup::threshold::Threshold;

fn crafted() -> MinHashLSH {
    // 0 and 1 agree on the first band, 1 and 2 on the second, 3 on none
    let signatures = vec![
        MinHash::from_values(vec![1, 2, 3, 4]),
        MinHash::from_values(vec![1, 2, 9, 9]),
        MinHash::from_values(vec![7, 7, 9, 9]),
        MinHash::from_values(vec![5, 5, 5, 5]),
    ];
    MinHashLSH::from_signatures(signatures, 4, 2).unwrap()
}

fn corpus() -> Vec<String> {
    vec![
        "the cat sat".to_string(),
        "the cat sat on the mat".to_string(),
        "completely different text".to_string(),
        "".to_string(),
        "the cat sat".to_string(),
    ]
}

#[test]
fn zero_permutations_are_refused() {
    assert_eq!(MinHashLSH::new(corpus(), 0, 2).err(), Some(ConfigError::ZeroPermutations));
    assert_eq!(MinHashLSH::new(corpus(), 0, 0).err(), Some(ConfigError::ZeroPermutations));
    assert_eq!(
        MinHashLSH::from_signatures(vec![], 0, 1).err(),
        Some(ConfigError::ZeroPermutations)
    );
}

#[test]
fn zero_bands_are_refused() {
    assert_eq!(MinHashLSH::new(corpus(), 4, 0).err(), Some(ConfigError::ZeroBands));
    assert_eq!(MinHashLSH::from_signatures(vec![], 4, 0).err(), Some(ConfigError::ZeroBands));
}

#[test]
fn uneven_bands_are_refused() {
    assert_eq!(MinHashLSH::new(corpus(), 4, 3).err(), Some(ConfigError::UnevenBands));
    assert_eq!(MinHashLSH::new(corpus(), 4, 8).err(), Some(ConfigError::UnevenBands));
    assert_eq!(MinHashLSH::new(vec![], 64, 17).err(), Some(ConfigError::UnevenBands));
}

#[test]
fn sound_configurations_are_accepted() {
    for (num_perm, num_bands) in [(1, 1), (4, 1), (4, 2), (4, 4), (64, 16)] {
        let index = MinHashLSH::new(corpus(), num_perm, num_bands).unwrap();
        assert_eq!(index.num_perm(), num_perm);
        assert_eq!(index.num_bands(), num_bands);
        assert_eq!(index.len(), 5);
    }
}

#[test]
fn empty_corpus_gives_empty_index() {
    let index = MinHashLSH::new(vec![], 4, 2).unwrap();
    assert_eq!(index.len(), 0);
    let probe = MinHash::new("the cat sat", 4);
    assert_eq!(index.query(&probe, None), Vec::<usize>::new());
}

#[test]
fn index_holds_the_signature_of_each_record() {
    let records = corpus();
    let index = MinHashLSH::new(records.clone(), 8, 4).unwrap();
    for (id, text) in records.iter().enumerate() {
        let expected = MinHash::new(text, 8);
        let held = index.signature_of(id);
        assert_eq!(held.len(), 8);
        for i in 0..8 {
            assert_eq!(held.get(i), expected.get(i));
        }
    }
    assert_eq!(index.signature_of(0).get(0), 3378958888883582414);
    assert_eq!(index.signature_of(2).get(3), 674717439212095096);
    assert_eq!(index.signature_of(3).get(0), u64::MAX);
}

#[test]
fn band_keys_are_the_hash_of_the_band() {
    let index = crafted();
    let sig = MinHash::from_values(vec![1, 2, 9, 9]);
    assert_eq!(index.key_of(&sig, 0), 589729691727335466);
    assert_eq!(index.key_of(&sig, 1), 597389989239567703);
    let whole = MinHashLSH::from_signatures(vec![], 2, 1).unwrap();
    assert_eq!(whole.key_of(&MinHash::from_values(vec![1, 2]), 0), 589729691727335466);
}

#[test]
fn buckets_hold_the_records_that_agree_on_the_band() {
    let index = crafted();
    let key = |id: usize, b: usize| index.key_of(index.signature_of(id), b);
    assert_eq!(index.bucket_of(0, key(0, 0)), vec![0, 1]);
    assert_eq!(index.bucket_of(0, key(1, 0)), vec![0, 1]);
    assert_eq!(index.bucket_of(0, key(2, 0)), vec![2]);
    assert_eq!(index.bucket_of(0, key(3, 0)), vec![3]);
    assert_eq!(index.bucket_of(1, key(0, 1)), vec![0]);
    assert_eq!(index.bucket_of(1, key(1, 1)), vec![1, 2]);
    assert_eq!(index.bucket_of(1, key(2, 1)), vec![1, 2]);
    assert_eq!(index.bucket_of(1, key(3, 1)), vec![3]);
    // the key of a band files nothing in another band
    assert_eq!(index.bucket_of(1, key(0, 0)), Vec::<usize>::new());
    assert_eq!(index.bucket_of(0, 12345), Vec::<usize>::new());
}

#[test]
fn every_record_is_in_one_bucket_of_each_band() {
    let index = MinHashLSH::new(corpus(), 8, 4).unwrap();
    for id in 0..index.len() {
        for b in 0..index.num_bands() {
            let key = index.key_of(index.signature_of(id), b);
            let bucket = index.bucket_of(b, key);
            assert_eq!(bucket.iter().filter(|x| **x == id).count(), 1);
        }
    }
}

#[test]
fn building_twice_gives_the_same_buckets() {
    let first = MinHashLSH::new(corpus(), 8, 4).unwrap();
    let second = MinHashLSH::new(corpus(), 8, 4).unwrap();
    assert_eq!(first.len(), second.len());
    for id in 0..first.len() {
        for b in 0..4 {
            let key = first.key_of(first.signature_of(id), b);
            assert_eq!(key, second.key_of(second.signature_of(id), b));
            assert_eq!(first.bucket_of(b, key), second.bucket_of(b, key));
        }
    }
    let key = first.key_of(first.signature_of(0), 0);
    assert_eq!(first.bucket_of(0, key), vec![0, 1, 4]);
}

#[test]
fn query_unions_the_buckets_of_all_bands() {
    let index = crafted();
    assert_eq!(index.query(index.signature_of(0), None), vec![0, 1]);
    assert_eq!(index.query(index.signature_of(1), None), vec![0, 1, 2]);
    assert_eq!(index.query(index.signature_of(2), None), vec![1, 2]);
    assert_eq!(index.query(index.signature_of(3), None), vec![3]);
}

#[test]
fn query_takes_signatures_from_outside_the_index() {
    let index = crafted();
    let probe = MinHash::from_values(vec![5, 5, 9, 9]);
    assert_eq!(index.query(&probe, None), vec![1, 2, 3]);
    let stranger = MinHash::from_values(vec![0, 0, 0, 0]);
    assert_eq!(index.query(&stranger, None), Vec::<usize>::new());
}

#[test]
fn query_needs_agreement_on_a_whole_band() {
    let signatures =
        vec![MinHash::from_values(vec![1, 2, 3, 4]), MinHash::from_values(vec![1, 0, 3, 0])];
    let index = MinHashLSH::from_signatures(signatures, 4, 2).unwrap();
    assert_eq!(index.query(index.signature_of(0), None), vec![0]);
    assert_eq!(index.query(index.signature_of(1), None), vec![1]);
    // with bands of one value the same two records are candidates
    let signatures =
        vec![MinHash::from_values(vec![1, 2, 3, 4]), MinHash::from_values(vec![1, 0, 3, 0])];
    let fine = MinHashLSH::from_signatures(signatures, 4, 4).unwrap();
    assert_eq!(fine.query(fine.signature_of(0), None), vec![0, 1]);
}

#[test]
fn a_shared_key_alone_makes_no_candidate() {
    // the two bands differ and have the same key
    let signatures = vec![
        MinHash::from_values(vec![1, 2]),
        MinHash::from_values(vec![3, 2199023259580]),
        MinHash::from_values(vec![1, 2]),
    ];
    let index = MinHashLSH::from_signatures(signatures, 2, 1).unwrap();
    let key = index.key_of(index.signature_of(0), 0);
    assert_eq!(key, 589729691727335466);
    assert_eq!(index.key_of(index.signature_of(1), 0), key);
    assert_eq!(index.bucket_of(0, key), vec![0, 1, 2]);
    assert_eq!(index.query(index.signature_of(0), None), vec![0, 2]);
    assert_eq!(index.query(index.signature_of(1), None), vec![1]);
    assert_eq!(index.query(index.signature_of(2), None), vec![0, 2]);
}

#[test]
fn every_candidate_lies_in_a_bucket_of_the_query() {
    let index = MinHashLSH::new(corpus(), 16, 8).unwrap();
    for id in 0..index.len() {
        let sig = index.signature_of(id);
        for hit in index.query(sig, None) {
            let found = (0..index.num_bands())
                .any(|b| index.bucket_of(b, index.key_of(sig, b)).contains(&hit));
            assert!(found);
        }
    }
}

#[test]
fn query_threshold_is_inclusive() {
    let index = crafted();
    let sig = index.signature_of(1);
    let half = Threshold::new(1, 2).unwrap();
    assert_eq!(index.query(sig, Some(half)), vec![0, 1, 2]);
    let above_half = Threshold::new(51, 100).unwrap();
    assert_eq!(index.query(sig, Some(above_half)), vec![1]);
    let three_quarters = Threshold::new(3, 4).unwrap();
    assert_eq!(index.query(sig, Some(three_quarters)), vec![1]);
    let zero = Threshold::new(0, 1).unwrap();
    assert_eq!(index.query(sig, Some(zero)), vec![0, 1, 2]);
}

#[test]
fn query_threshold_compares_the_whole_signature() {
    let index = crafted();
    // agrees with record 3 on one band only: one half of the positions
    let probe = MinHash::from_values(vec![5, 5, 0, 0]);
    assert_eq!(index.query(&probe, None), vec![3]);
    assert_eq!(index.query(&probe, Some(Threshold::new(1, 2).unwrap())), vec![3]);
    assert_eq!(index.query(&probe, Some(Threshold::new(3, 4).unwrap())), Vec::<usize>::new());
}

#[test]
fn query_returns_the_record_itself() {
    let index = MinHashLSH::new(corpus(), 16, 4).unwrap();
    let one = Threshold::new(1, 1).unwrap();
    for id in 0..index.len() {
        let sig = index.signature_of(id);
        assert!(index.query(sig, None).contains(&id));
        assert!(index.query(sig, Some(one)).contains(&id));
    }
}

#[test]
fn query_is_monotone_in_the_threshold() {
    let index = MinHashLSH::new(corpus(), 16, 8).unwrap();
    let thresholds = [(0u64, 1u64), (1, 4), (2, 5), (1, 2), (3, 4), (9, 10), (1, 1)];
    for id in 0..index.len() {
        let sig = index.signature_of(id);
        let open = index.query(sig, None);
        let mut wider = open.clone();
        for (n, d) in thresholds {
            let narrower = index.query(sig, Some(Threshold::new(n, d).unwrap()));
            for x in narrower.iter() {
                assert!(wider.contains(x));
                assert!(open.contains(x));
            }
            wider = narrower;
        }
    }
}

#[test]
fn query_results_rise_without_repetition() {
    let index = MinHashLSH::new(corpus(), 16, 8).unwrap();
    for id in 0..index.len() {
        let out = index.query(index.signature_of(id), None);
        for w in out.windows(2) {
            assert!(w[0] < w[1]);
        }
    }
    assert_eq!(index.query(index.signature_of(0), None), vec![0, 1, 4]);
}

#[test]
fn empty_records_are_candidates_of_each_other() {
    let records = vec!["".to_string(), " \t ".to_string(), "x".to_string()];
    let index = MinHashLSH::new(records, 4, 2).unwrap();
    assert_eq!(index.query(index.signature_of(0), None), vec![0, 1]);
    assert_eq!(index.query(index.signature_of(2), None), vec![2]);
}

#[test]
fn merge_unions_rising_lists() {
    assert_eq!(merge(&vec![], &vec![]), Vec::<usize>::new());
    assert_eq!(merge(&vec![1, 3], &vec![]), vec![1, 3]);
    assert_eq!(merge(&vec![], &vec![2]), vec![2]);
    assert_eq!(merge(&vec![1, 3, 5], &vec![2, 3, 6, 7]), vec![1, 2, 3, 5, 6, 7]);
    assert_eq!(merge(&vec![4, 5], &vec![4, 5]), vec![4, 5]);
    assert_eq!(merge(&vec![9], &vec![1, 2]), vec![1, 2, 9]);
}
