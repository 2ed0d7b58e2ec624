use lsh_dedup::dedup::DeduplicationIndex;
use lsh_dedup::lsh::MinHashLSH;
use lsh_dedup::threshold::Threshold;

fn sorted_groups(index: &DeduplicationIndex) -> Vec<Vec<usize>> {
    let mut groups = index.grouped_indices();
    for group in groups.iter_mut() {
        group.sort();
    }
    groups.sort();
    groups
}

#[test]
fn three_records_two_groups() {
    let records = vec![
        "the cat sat".to_string(),
        "the cat sat on the mat".to_string(),
        "completely different text".to_string(),
    ];
    let lsh = MinHashLSH::new(records, 4, 2).unwrap();
    let threshold = Threshold::new(2, 5).unwrap();
    let index = DeduplicationIndex::new(lsh, Some(threshold));
    let groups = sorted_groups(&index);
    assert_eq!(groups, vec![vec![0, 1], vec![2]]);
    assert_eq!(groups.len(), 2);
    assert_eq!(groups.iter().map(|g| g.len()).sum::<usize>(), 3);
}
