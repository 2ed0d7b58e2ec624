use lsh_dedup::threshold::Threshold;

#[test]
fn threshold_keeps_its_fraction() {
    let t = Threshold::new(49, 100).unwrap();
    assert_eq!(t.numer(), 49);
    assert_eq!(t.denom(), 100);
}

#[test]
fn threshold_refuses_zero_denominator() {
    assert!(Threshold::new(0, 0).is_none());
    assert!(Threshold::new(1, 0).is_none());
}

#[test]
fn threshold_refuses_more_than_one() {
    assert!(Threshold::new(3, 2).is_none());
    assert!(Threshold::new(u64::MAX, u64::MAX - 1).is_none());
}

#[test]
fn threshold_accepts_the_ends_of_the_interval() {
    assert!(Threshold::new(0, 1).is_some());
    assert!(Threshold::new(1, 1).is_some());
    assert!(Threshold::new(u64::MAX, u64::MAX).is_some());
}

#[test]
fn threshold_is_inclusive() {
    let half = Threshold::new(1, 2).unwrap();
    assert!(half.accepts(2, 4));
    assert!(half.accepts(3, 4));
    assert!(!half.accepts(1, 4));
    let two_fifths = Threshold::new(2, 5).unwrap();
    assert!(two_fifths.accepts(2, 5));
    assert!(two_fifths.accepts(2, 4));
    assert!(!two_fifths.accepts(1, 4));
}

#[test]
fn threshold_zero_accepts_everything() {
    let zero = Threshold::new(0, 7).unwrap();
    assert!(zero.accepts(0, 64));
    assert!(zero.accepts(0, 0));
}

#[test]
fn threshold_one_accepts_only_full_agreement() {
    let one = Threshold::new(1, 1).unwrap();
    assert!(one.accepts(64, 64));
    assert!(!one.accepts(63, 64));
}

#[test]
fn threshold_does_not_overflow_on_large_numbers() {
    let t = Threshold::new(u64::MAX - 1, u64::MAX).unwrap();
    assert!(t.accepts(usize::MAX, usize::MAX));
    assert!(!t.accepts(usize::MAX - 2, usize::MAX));
}

#[test]
fn lower_threshold_accepts_what_a_higher_one_accepts() {
    let thresholds = [(0u64, 1u64), (1, 4), (2, 5), (1, 2), (3, 4), (1, 1)];
    for total in 1usize..=8 {
        for matches in 0..=total {
            for w in thresholds.windows(2) {
                let low = Threshold::new(w[0].0, w[0].1).unwrap();
                let high = Threshold::new(w[1].0, w[1].1).unwrap();
                if high.accepts(matches, total) {
                    assert!(low.accepts(matches, total));
                }
            }
        }
    }
}
