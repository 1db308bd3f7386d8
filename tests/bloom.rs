use gauze::{BloomFilter, Filter, MAX_BITS};

// Parameters that the construction search picks for a capacity of 100 and
// for one of 1003, both at a target error rate of 0.001.
const BITS_100: usize = 1449;
const HASHES_100: usize = 11;
const BITS_1003: usize = 14481;
const HASHES_1003: usize = 11;

fn estimate(bloom: &BloomFilter) -> f64 {
    let m = bloom.bit_size() as f64;
    let k = bloom.hash_fn_count() as f64;
    let x = bloom.count_ones() as f64;
    -(m * (1.0 - x / m).ln()) / k
}

#[test]
fn test_it_works() {
    let capacity = 1_003;
    let mut bloom = BloomFilter::with_parameters(BITS_1003, HASHES_1003, None);
    let a = "a";
    let b = Vec::<bool>::new();
    let c = [0; 2];

    let inserts = capacity - 3;

    for i in 0..inserts {
        bloom.insert(i);
    }

    bloom.insert(a);
    bloom.insert(&b);
    bloom.insert(c);

    assert!(bloom.might_contain(a) == true);
    assert!(bloom.might_contain(b) == true);
    assert!(bloom.might_contain(c) == true);
    for i in 0..inserts {
        assert!(bloom.might_contain(i) == true);
    }
}

fn fill<F: Filter>(f: &mut F, n: u32) {
    for i in 0..n {
        f.insert(i);
    }
}

#[test]
fn test_it_works_through_the_trait() {
    let mut bloom = BloomFilter::with_parameters(BITS_1003, HASHES_1003, Some(17));
    fill(&mut bloom, 1000);
    for i in 0..1000u32 {
        assert!(Filter::might_contain(&bloom, i));
    }
    Filter::reset(&mut bloom);
    assert_eq!(bloom.count_ones(), 0);
}

#[test]
fn test_count_approx() {
    let capacity = 100;
    let mut bloom = BloomFilter::with_parameters(BITS_100, HASHES_100, Some(5));

    let inserts = capacity / 2;

    for i in 0..inserts {
        bloom.insert(i);
    }

    let approx = estimate(&bloom).round() as usize;
    assert!(approx.abs_diff(inserts) < inserts / 15);
}

#[test]
fn construction_parameters_are_kept() {
    let bloom = BloomFilter::with_parameters(BITS_100, HASHES_100, Some(99));
    assert_eq!(bloom.bit_size(), 1449);
    assert_eq!(bloom.hash_fn_count(), 11);
    assert_eq!(bloom.seed(), 99);
    assert_eq!(bloom.count_ones(), 0);
    let smallest = BloomFilter::with_parameters(1, 1, None);
    assert_eq!(smallest.bit_size(), 1);
    assert!(MAX_BITS >= 1449);
}

#[test]
fn bit_indexes_follow_double_hashing() {
    let bloom = BloomFilter::with_parameters(BITS_100, 4, Some(0));
    assert_eq!(bloom.get_bit_indexes(10, 3), vec![10, 13, 16, 19]);
    assert_eq!(bloom.get_bit_indexes(1448, 1), vec![1448, 0, 1, 2]);
    // The sum wraps at 2^64 before the remainder is taken.
    let m = BITS_100 as u64;
    assert_eq!(
        bloom.get_bit_indexes(u64::MAX, 1),
        vec![(u64::MAX % m) as usize, 0, 1, 2]
    );
    assert_eq!(
        bloom.get_bit_indexes(5, u64::MAX),
        vec![5, 4, 3, 2]
    );
}

#[test]
fn inserted_hashes_set_exactly_their_bits() {
    let mut bloom = BloomFilter::with_parameters(BITS_100, HASHES_100, Some(1));
    bloom.insert_hashes(10, 3);
    assert_eq!(bloom.count_ones(), HASHES_100);
    assert!(bloom.might_contain_hashes(10, 3));
    // Probes 13, 16, ..., 43: all but the last were set by (10, 3).
    assert!(!bloom.might_contain_hashes(13, 3));
    bloom.insert_hashes(43, 1);
    assert!(bloom.might_contain_hashes(13, 3));
    assert!(!bloom.might_contain_hashes(11, 3));
    assert_eq!(bloom.count_ones(), HASHES_100 + 11);
    bloom.insert_hashes(1000, 0);
    assert_eq!(bloom.count_ones(), HASHES_100 + 12);
    assert!(bloom.might_contain_hashes(10, 3));
}

#[test]
fn no_false_negatives_after_later_inserts() {
    let mut bloom = BloomFilter::with_parameters(BITS_100, HASHES_100, Some(2));
    bloom.insert("first");
    for i in 0..5000u64 {
        bloom.insert(i);
        assert!(bloom.might_contain("first"));
    }
}

#[test]
fn reset_forgets_everything() {
    let mut bloom = BloomFilter::with_parameters(BITS_100, HASHES_100, Some(3));
    for i in 0..50u64 {
        bloom.insert(i);
    }
    assert!(bloom.count_ones() > 0);
    bloom.reset();
    assert_eq!(bloom.count_ones(), 0);
    assert_eq!(bloom.bit_size(), BITS_100);
    assert_eq!(bloom.hash_fn_count(), HASHES_100);
    for i in 0..50u64 {
        assert!(!bloom.might_contain(i));
    }
    assert_eq!(estimate(&bloom), 0.0);
}

#[test]
fn false_positive_rate_is_bounded() {
    let capacity = 1003u64;
    let mut bloom = BloomFilter::with_parameters(BITS_1003, HASHES_1003, Some(11));
    for i in 0..capacity {
        bloom.insert(i);
    }
    let trials = 20 * capacity;
    let mut false_positives = 0;
    for i in capacity..capacity + trials {
        if bloom.might_contain(i) {
            false_positives += 1;
        }
    }
    // The analytic rate of these parameters is about 0.001.
    let observed = false_positives as f64 / trials as f64;
    assert!(observed < 0.003, "observed rate {observed}");
}
