use fusiongraph::bitset::AtomicBitset;

#[test]
fn new_bitset_is_empty() {
    let bs = AtomicBitset::new(100);
    assert_eq!(bs.capacity(), 100);
    assert_eq!(bs.count_ones(), 0);
    assert_eq!(bs.as_raw().len(), 2);
}

#[test]
fn test_and_set_works() {
    let mut bs = AtomicBitset::new(100);

    assert!(bs.test_and_set(42));
    assert!(!bs.test_and_set(42));
    assert!(bs.test(42));
}

#[test]
fn set_and_test() {
    let mut bs = AtomicBitset::new(1000);

    bs.set(0);
    bs.set(63);
    bs.set(64);
    bs.set(999);

    assert!(bs.test(0));
    assert!(bs.test(63));
    assert!(bs.test(64));
    assert!(bs.test(999));
    assert!(!bs.test(1));
    assert!(!bs.test(500));
}

#[test]
fn clear_resets_all() {
    let mut bs = AtomicBitset::new(200);

    for i in 0..200 {
        bs.set(i);
    }
    assert_eq!(bs.count_ones(), 200);

    bs.clear();
    assert_eq!(bs.count_ones(), 0);
}

#[test]
fn out_of_bounds_returns_false() {
    let mut bs = AtomicBitset::new(10);

    assert!(!bs.test(100));
    assert!(!bs.test_and_set(100));
}

#[test]
fn raw_words_hold_the_bits() {
    let mut bs = AtomicBitset::new(130);
    bs.set(1);
    bs.set(64);
    bs.set(129);
    bs.set(500);
    assert_eq!(bs.as_raw(), &[2u64, 1, 2]);
    assert_eq!(bs.count_ones(), 3);
}
