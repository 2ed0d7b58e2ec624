use lsh_dedup::dedup::DeduplicationIndex;
use lsh_dedup::lsh::MinHashLSH;
use lsh_dedup::minhash::MinHash;
use lsh_dedup::threshold::Threshold;

fn sorted(mut groups: Vec<Vec<usize>>) -> Vec<Vec<usize>> {
    for group in groups.iter_mut() {
        group.sort();
    }
    groups.sort();
    groups
}

fn cluster(pairs: &[(usize, Vec<usize>)]) -> Vec<Vec<usize>> {
    sorted(DeduplicationIndex::from_query_results(pairs.to_vec()).grouped_indices())
}

fn permutations(n: usize) -> Vec<Vec<usize>> {
    if n == 0 {
        return vec![vec![]];
    }
    let mut all = Vec::new();
    for rest in permutations(n - 1) {
        for at in 0..n {
            let mut next = rest.clone();
            next.insert(at, n - 1);
            all.push(next);
        }
    }
    all
}

#[test]
fn no_pairs_give_no_groups() {
    let index = DeduplicationIndex::from_query_results(vec![]);
    assert_eq!(index.grouped_indices(), Vec::<Vec<usize>>::new());
    assert!(!index.same_group(0, 0));
}

#[test]
fn records_without_other_candidates_stay_alone() {
    let pairs = vec![(0, vec![0]), (1, vec![1]), (2, vec![2])];
    assert_eq!(cluster(&pairs), vec![vec![0], vec![1], vec![2]]);
}

#[test]
fn candidates_share_a_group() {
    let pairs = vec![(0, vec![0, 1]), (1, vec![0, 1]), (2, vec![2])];
    assert_eq!(cluster(&pairs), vec![vec![0, 1], vec![2]]);
}

#[test]
fn chains_of_candidates_share_a_group() {
    // 0 and 2 are not candidates of each other; 1 bridges them
    let pairs = vec![(0, vec![0, 1]), (1, vec![0, 1, 2]), (2, vec![1, 2])];
    assert_eq!(cluster(&pairs), vec![vec![0, 1, 2]]);
    let index = DeduplicationIndex::from_query_results(pairs);
    assert!(index.same_group(0, 2));
}

#[test]
fn a_late_bridge_merges_earlier_groups() {
    let pairs = vec![(0, vec![0, 1]), (2, vec![2, 3]), (4, vec![4]), (5, vec![1, 3, 5])];
    assert_eq!(cluster(&pairs), vec![vec![0, 1, 2, 3, 5], vec![4]]);
}

#[test]
fn a_bridge_into_an_existing_group_merges_the_others_into_it() {
    let pairs = vec![(0, vec![0]), (1, vec![1]), (2, vec![2]), (1, vec![0, 1, 2])];
    assert_eq!(cluster(&pairs), vec![vec![0, 1, 2]]);
}

#[test]
fn repeated_candidates_count_once() {
    let pairs = vec![(0, vec![0, 0, 1, 1, 0])];
    let groups = DeduplicationIndex::from_query_results(pairs).grouped_indices();
    assert_eq!(sorted(groups), vec![vec![0, 1]]);
}

#[test]
fn repeated_pairs_change_nothing() {
    let pairs = vec![(0, vec![0, 1]), (0, vec![0, 1]), (1, vec![0, 1]), (0, vec![0, 1])];
    assert_eq!(cluster(&pairs), vec![vec![0, 1]]);
}

#[test]
fn an_empty_candidate_list_adds_nothing() {
    let pairs = vec![(0, vec![]), (1, vec![1])];
    assert_eq!(cluster(&pairs), vec![vec![1]]);
    let index = DeduplicationIndex::from_query_results(pairs);
    assert!(!index.same_group(0, 0));
    assert!(index.same_group(1, 1));
}

#[test]
fn a_record_outside_its_own_candidates_is_no_member() {
    let pairs = vec![(5, vec![1, 2])];
    assert_eq!(cluster(&pairs), vec![vec![1, 2]]);
    let index = DeduplicationIndex::from_query_results(pairs);
    assert!(!index.same_group(5, 5));
    assert!(index.same_group(1, 2));
}

#[test]
fn a_record_that_an_earlier_pair_lists_joins_its_candidates() {
    let pairs = vec![(9, vec![5, 7]), (5, vec![1, 2])];
    assert_eq!(cluster(&pairs), vec![vec![1, 2, 5, 7]]);
}

#[test]
fn a_record_outside_its_own_candidates_can_make_the_order_matter() {
    let first = vec![(9, vec![5, 7]), (5, vec![1, 2])];
    let second = vec![(5, vec![1, 2]), (9, vec![5, 7])];
    assert_eq!(cluster(&first), vec![vec![1, 2, 5, 7]]);
    assert_eq!(cluster(&second), vec![vec![1, 2], vec![5, 7]]);
}

#[test]
fn groups_partition_the_records() {
    let pairs = vec![
        (0, vec![0, 3]),
        (1, vec![1]),
        (2, vec![2, 5]),
        (3, vec![0, 3]),
        (4, vec![4]),
        (5, vec![2, 5, 6]),
        (6, vec![5, 6]),
    ];
    let groups = DeduplicationIndex::from_query_results(pairs).grouped_indices();
    let mut seen: Vec<usize> = groups.iter().flat_map(|g| g.iter().copied()).collect();
    seen.sort();
    assert_eq!(seen, vec![0, 1, 2, 3, 4, 5, 6]);
    assert_eq!(sorted(groups), vec![vec![0, 3], vec![1], vec![2, 5, 6], vec![4]]);
}

#[test]
fn every_record_is_in_its_own_group() {
    let pairs = vec![(0, vec![0, 3]), (1, vec![1]), (2, vec![2]), (3, vec![0, 3])];
    let index = DeduplicationIndex::from_query_results(pairs);
    let groups = index.grouped_indices();
    for id in 0..4 {
        assert!(index.same_group(id, id));
        assert_eq!(groups.iter().filter(|g| g.contains(&id)).count(), 1);
    }
}

#[test]
fn the_order_of_the_pairs_does_not_matter() {
    let pairs = vec![
        (0, vec![0, 1]),
        (1, vec![0, 1, 2]),
        (2, vec![1, 2]),
        (3, vec![3, 4]),
        (4, vec![3, 4]),
        (5, vec![5]),
    ];
    let expected = vec![vec![0, 1, 2], vec![3, 4], vec![5]];
    for order in permutations(pairs.len()) {
        let arranged: Vec<(usize, Vec<usize>)> = order.iter().map(|i| pairs[*i].clone()).collect();
        assert_eq!(cluster(&arranged), expected);
    }
}

#[test]
fn the_order_of_the_candidates_does_not_matter() {
    let a = vec![(0, vec![0, 1, 2]), (1, vec![1, 0]), (2, vec![2, 0]), (3, vec![3])];
    let b = vec![(0, vec![2, 1, 0]), (1, vec![0, 1]), (2, vec![0, 2]), (3, vec![3])];
    assert_eq!(cluster(&a), cluster(&b));
    assert_eq!(cluster(&a), vec![vec![0, 1, 2], vec![3]]);
}

#[test]
fn merging_keeps_the_number_of_members() {
    let pairs = vec![
        (0, vec![0, 1]),
        (2, vec![2, 3]),
        (4, vec![4, 5, 6]),
        // the next two list members only: they merge and add nothing
        (1, vec![1, 3]),
        (6, vec![0, 6]),
        (7, vec![7]),
    ];
    let members = [2usize, 4, 7, 7, 7, 8];
    let groups = [1usize, 2, 3, 2, 1, 2];
    for k in 1..=pairs.len() {
        let listing = DeduplicationIndex::from_query_results(pairs[..k].to_vec()).grouped_indices();
        assert_eq!(listing.iter().map(|g| g.len()).sum::<usize>(), members[k - 1]);
        assert_eq!(listing.len(), groups[k - 1]);
    }
}

#[test]
fn no_group_is_empty_and_no_member_repeats() {
    let pairs = vec![(0, vec![0, 1, 1]), (1, vec![1, 0]), (2, vec![2]), (3, vec![])];
    let groups = DeduplicationIndex::from_query_results(pairs).grouped_indices();
    for g in groups.iter() {
        assert!(!g.is_empty());
        let mut unique = g.clone();
        unique.sort();
        unique.dedup();
        assert_eq!(unique.len(), g.len());
    }
}

#[test]
fn index_clusters_records_that_share_bands() {
    let signatures = vec![
        MinHash::from_values(vec![1, 2, 3, 4]),
        MinHash::from_values(vec![1, 2, 9, 9]),
        MinHash::from_values(vec![7, 7, 9, 9]),
        MinHash::from_values(vec![5, 5, 5, 5]),
    ];
    let lsh = MinHashLSH::from_signatures(signatures, 4, 2).unwrap();
    let index = DeduplicationIndex::new(lsh, None);
    assert_eq!(sorted(index.grouped_indices()), vec![vec![0, 1, 2], vec![3]]);
    assert!(index.same_group(0, 2));
    assert!(!index.same_group(0, 3));
}

#[test]
fn index_threshold_narrows_the_groups() {
    let build = || {
        let signatures = vec![
            MinHash::from_values(vec![1, 2, 3, 4]),
            MinHash::from_values(vec![1, 2, 3, 9]),
            MinHash::from_values(vec![7, 7, 3, 9]),
        ];
        MinHashLSH::from_signatures(signatures, 4, 2).unwrap()
    };
    // 0 and 1 agree on three positions of four, 1 and 2 on two
    let loose = DeduplicationIndex::new(build(), Some(Threshold::new(1, 2).unwrap()));
    assert_eq!(sorted(loose.grouped_indices()), vec![vec![0, 1, 2]]);
    let strict = DeduplicationIndex::new(build(), Some(Threshold::new(3, 4).unwrap()));
    assert_eq!(sorted(strict.grouped_indices()), vec![vec![0, 1], vec![2]]);
    let exact = DeduplicationIndex::new(build(), Some(Threshold::new(1, 1).unwrap()));
    assert_eq!(sorted(exact.grouped_indices()), vec![vec![0], vec![1], vec![2]]);
}

#[test]
fn index_groups_cover_the_corpus() {
    let records: Vec<String> = (0..40).map(|i| format!("record number {}", i % 7)).collect();
    let lsh = MinHashLSH::new(records, 16, 4).unwrap();
    let index = DeduplicationIndex::new(lsh, Some(Threshold::new(1, 2).unwrap()));
    let groups = index.grouped_indices();
    let mut seen: Vec<usize> = groups.iter().flat_map(|g| g.iter().copied()).collect();
    seen.sort();
    assert_eq!(seen, (0..40).collect::<Vec<usize>>());
    for id in 0..40 {
        assert!(index.same_group(id, id));
        assert!(index.same_group(id, id % 7));
    }
}

#[test]
fn index_clusters_as_its_queries_one_by_one_do() {
    let records: Vec<String> =
        (0..30).map(|i| format!("shared words {} and {}", i % 5, i % 3)).collect();
    let threshold = Threshold::new(1, 2).unwrap();
    let lsh = MinHashLSH::new(records.clone(), 16, 8).unwrap();
    let pairs: Vec<(usize, Vec<usize>)> =
        (0..lsh.len()).map(|id| (id, lsh.query(lsh.signature_of(id), Some(threshold)))).collect();
    let one_by_one = DeduplicationIndex::from_query_results(pairs);
    let at_once = DeduplicationIndex::new(lsh, Some(threshold));
    assert_eq!(sorted(at_once.grouped_indices()), sorted(one_by_one.grouped_indices()));
    for a in 0..30 {
        for b in 0..30 {
            assert_eq!(at_once.same_group(a, b), one_by_one.same_group(a, b));
        }
    }
}

#[test]
fn records_that_only_share_a_key_stay_apart() {
    let signatures = vec![
        MinHash::from_values(vec![1, 2]),
        MinHash::from_values(vec![3, 2199023259580]),
        MinHash::from_values(vec![1, 2]),
    ];
    let lsh = MinHashLSH::from_signatures(signatures, 2, 1).unwrap();
    let index = DeduplicationIndex::new(lsh, None);
    assert_eq!(sorted(index.grouped_indices()), vec![vec![0, 2], vec![1]]);
}

#[test]
fn empty_index_gives_no_groups() {
    let lsh = MinHashLSH::new(vec![], 4, 2).unwrap();
    let index = DeduplicationIndex::new(lsh, None);
    assert_eq!(index.grouped_indices(), Vec::<Vec<usize>>::new());
}

#[test]
fn empty_records_fall_into_one_group() {
    let records = vec!["".to_string(), "x y".to_string(), "   ".to_string()];
    let lsh = MinHashLSH::new(records, 4, 2).unwrap();
    let index = DeduplicationIndex::new(lsh, None);
    assert_eq!(sorted(index.grouped_indices()), vec![vec![0, 2], vec![1]]);
}
