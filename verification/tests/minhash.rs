use lsh_dedup::minhash::{byte_is_space, permuted, MinHash, SENTINEL};

fn values(m: &MinHash) -> Vec<u64> {
    (0..m.len()).map(|i| m.get(i)).collect()
}

#[test]
fn signature_has_one_entry_for_each_hash_function() {
    assert_eq!(MinHash::new("the cat sat", 0).len(), 0);
    assert_eq!(MinHash::new("the cat sat", 1).len(), 1);
    assert_eq!(MinHash::new("the cat sat", 64).len(), 64);
}

#[test]
fn signature_of_one_shingle() {
    let m = MinHash::new("a", 2);
    assert_eq!(values(&m), vec![9451894974833730488, 8644006966163964186]);
}

#[test]
fn signature_of_three_shingles() {
    let m = MinHash::new("the cat sat", 4);
    assert_eq!(
        values(&m),
        vec![
            3378958888883582414,
            10853541933895286191,
            3467447998365583657,
            6323944751633928120
        ]
    );
}

#[test]
fn signature_of_other_text() {
    let m = MinHash::new("completely different text", 4);
    assert_eq!(
        values(&m),
        vec![
            4674306717748036773,
            4170690593734575501,
            4139315213566959412,
            674717439212095096
        ]
    );
}

#[test]
fn signature_is_the_least_permuted_hash() {
    let a = values(&MinHash::new("a", 8));
    let b = values(&MinHash::new("b", 8));
    let both = values(&MinHash::new("a b", 8));
    for i in 0..8 {
        assert_eq!(both[i], a[i].min(b[i]));
    }
}

#[test]
fn permuted_matches_single_shingle_signature() {
    let hash_of_a: u64 = 0xaf63dc4c8601ec8c;
    let m = MinHash::new("a", 4);
    for i in 0..4 {
        assert_eq!(m.get(i), permuted(i, hash_of_a));
    }
    assert_eq!(permuted(0, hash_of_a), 9451894974833730488);
    assert_eq!(permuted(1, hash_of_a), 8644006966163964186);
}

#[test]
fn empty_text_gives_the_sentinel() {
    let m = MinHash::new("", 4);
    assert_eq!(values(&m), vec![SENTINEL; 4]);
    assert_eq!(SENTINEL, u64::MAX);
}

#[test]
fn white_space_only_gives_the_sentinel() {
    let m = MinHash::new(" \t\n\r  ", 3);
    assert_eq!(values(&m), vec![u64::MAX; 3]);
}

#[test]
fn signature_is_deterministic() {
    let a = MinHash::new("the cat sat on the mat", 16);
    let b = MinHash::new("the cat sat on the mat", 16);
    assert_eq!(values(&a), values(&b));
}

#[test]
fn signature_ignores_kind_and_amount_of_white_space() {
    let a = MinHash::new("the cat sat", 8);
    let b = MinHash::new("  the\tcat\n\nsat \r\n", 8);
    assert_eq!(values(&a), values(&b));
}

#[test]
fn signature_ignores_order_and_repetition() {
    let a = MinHash::new("the cat sat", 8);
    let b = MinHash::new("sat the cat the sat", 8);
    assert_eq!(values(&a), values(&b));
}

#[test]
fn signature_tells_different_shingles_apart() {
    let a = MinHash::new("the cat sat", 8);
    let b = MinHash::new("thecat sat", 8);
    assert_ne!(values(&a), values(&b));
}

#[test]
fn signature_takes_bytes_beyond_ascii() {
    let a = MinHash::new("caf\u{e9} na\u{ef}ve", 4);
    let b = MinHash::new("na\u{ef}ve caf\u{e9}", 4);
    assert_eq!(values(&a), values(&b));
    let c = MinHash::new("cafe naive", 4);
    assert_ne!(values(&a), values(&c));
}

#[test]
fn white_space_bytes() {
    for b in [b' ', b'\t', b'\n', 0x0b, 0x0c, b'\r'] {
        assert!(byte_is_space(b));
    }
    for b in [0u8, 8, 14, 31, 33, b'a', 0xa0, 0xff] {
        assert!(!byte_is_space(b));
    }
}

#[test]
fn matches_counts_agreeing_positions() {
    let a = MinHash::from_values(vec![1, 2, 3, 4]);
    let b = MinHash::from_values(vec![1, 2, 9, 9]);
    let c = MinHash::from_values(vec![7, 7, 9, 9]);
    assert_eq!(a.matches(&a), 4);
    assert_eq!(a.matches(&b), 2);
    assert_eq!(b.matches(&a), 2);
    assert_eq!(b.matches(&c), 2);
    assert_eq!(a.matches(&c), 0);
    let none = MinHash::from_values(vec![]);
    assert_eq!(none.matches(&none), 0);
}

#[test]
fn from_values_keeps_the_entries() {
    let m = MinHash::from_values(vec![5, 6, 7]);
    assert_eq!(m.len(), 3);
    assert_eq!(values(&m), vec![5, 6, 7]);
}

#[test]
fn supersets_agree_where_the_least_hash_is_shared() {
    let small = MinHash::new("the cat sat", 32);
    let large = MinHash::new("the cat sat on the mat", 32);
    let m = small.matches(&large);
    assert!(m <= 32);
    for i in 0..32 {
        assert!(large.get(i) <= small.get(i));
    }
}
