use zfs_dedup::bloom::Bloom;

#[test]
fn no_false_negatives() {
    let mut b = Bloom::new(1000);
    for k in 0..1000u64 {
        b.insert(k.wrapping_mul(0x9e3779b97f4a7c15));
    }
    for k in 0..1000u64 {
        assert!(b.contains(k.wrapping_mul(0x9e3779b97f4a7c15)));
        assert!(b.check_insert(k.wrapping_mul(0x9e3779b97f4a7c15)));
    }
}

#[test]
fn fp_rate() {
    let mut b = Bloom::new(100_000);
    for k in 0..100_000u64 {
        b.insert(k.wrapping_mul(0x9e3779b97f4a7c15));
    }
    let fp = (100_000..200_000u64)
        .filter(|k| b.contains(k.wrapping_mul(0x9e3779b97f4a7c15)))
        .count();
    assert!(fp < 2_000, "fp rate {fp}/100000");
}

#[test]
fn empty_filter_holds_nothing() {
    let b = Bloom::new(0);
    for k in [0u64, 1, u64::MAX, 0x9e3779b97f4a7c15] {
        assert!(!b.contains(k));
    }
}

#[test]
fn check_insert_answers_for_the_past() {
    let mut b = Bloom::new(10);
    assert!(!b.check_insert(0xdead_beef_0000_0001));
    assert!(b.check_insert(0xdead_beef_0000_0001));
}
