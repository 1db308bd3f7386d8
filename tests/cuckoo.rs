use gauze::{Bucket, BucketError, CuckooFilter, Fingerprint, BUCKET_SIZE, MAX_REBUCKET};
use std::hash::{Hash, Hasher};
use twox_hash::XxHash64;

fn slot_values(b: &Bucket) -> Vec<u8> {
    b.slots.iter().map(|f| f.value()).collect()
}

#[test]
fn fingerprint_is_never_empty() {
    assert_eq!(Fingerprint::create(0).value(), 1);
    assert_eq!(Fingerprint::create(254).value(), 255);
    assert_eq!(Fingerprint::create(255).value(), 1);
    assert_eq!(Fingerprint::create(u64::MAX).value(), (u64::MAX % 255 + 1) as u8);
    for h in 0..2000u64 {
        assert!(!Fingerprint::create(h).is_empty());
    }
    assert!(Fingerprint::empty().is_empty());
    assert_eq!(Fingerprint::empty().value(), 0);
}

#[test]
fn bucket_insert_fills_first_empty_slot() {
    let mut b = Bucket::new();
    assert_eq!(slot_values(&b), vec![0, 0, 0, 0]);
    assert_eq!(b.try_insert(Fingerprint::create(6)), Ok(()));
    assert_eq!(b.try_insert(Fingerprint::create(9)), Ok(()));
    assert_eq!(slot_values(&b), vec![7, 10, 0, 0]);
    assert_eq!(b.try_delete(Fingerprint::create(6)), Ok(()));
    assert_eq!(slot_values(&b), vec![0, 10, 0, 0]);
    assert_eq!(b.try_insert(Fingerprint::create(1)), Ok(()));
    assert_eq!(slot_values(&b), vec![2, 10, 0, 0]);
}

#[test]
fn bucket_keeps_duplicates() {
    let mut b = Bucket::new();
    let fp = Fingerprint::create(41);
    assert_eq!(b.try_insert(fp), Ok(()));
    assert_eq!(b.try_insert(fp), Ok(()));
    assert_eq!(slot_values(&b), vec![42, 42, 0, 0]);
    assert_eq!(b.try_delete(fp), Ok(()));
    assert_eq!(slot_values(&b), vec![0, 42, 0, 0]);
    assert!(b.contains(fp));
    assert_eq!(b.try_delete(fp), Ok(()));
    assert!(!b.contains(fp));
}

#[test]
fn bucket_full_and_not_found_errors() {
    let mut b = Bucket::new();
    for h in 0..BUCKET_SIZE as u64 {
        assert_eq!(b.try_insert(Fingerprint::create(h)), Ok(()));
    }
    assert_eq!(
        b.try_insert(Fingerprint::create(99)),
        Err(BucketError::BucketFull { fingerprint: 100 })
    );
    assert_eq!(slot_values(&b), vec![1, 2, 3, 4]);
    assert_eq!(
        b.try_delete(Fingerprint::create(99)),
        Err(BucketError::FingerprintNotFound { fingerprint: 100 })
    );
    b.reset();
    assert_eq!(slot_values(&b), vec![0, 0, 0, 0]);
}

#[test]
fn cuckoo_bucket_counts() {
    assert_eq!(CuckooFilter::new(0).bucket_count(), 1);
    assert_eq!(CuckooFilter::new(1).bucket_count(), 1);
    assert_eq!(CuckooFilter::new(4).bucket_count(), 1);
    assert_eq!(CuckooFilter::new(5).bucket_count(), 2);
    assert_eq!(CuckooFilter::new(8).bucket_count(), 2);
    assert_eq!(CuckooFilter::new(100).bucket_count(), 32);
    assert_eq!(CuckooFilter::new(1000).bucket_count(), 256);
    assert_eq!(CuckooFilter::new(1024).bucket_count(), 256);
}

#[test]
fn cuckoo_indexes() {
    let f = CuckooFilter::new(100);
    assert_eq!(f.primary_bucket(1000), 1000 % 32);
    let fp = Fingerprint::create(1000);
    let expected = ((7u64 ^ XxHash64::oneshot(0, &[fp.value()])) % 32) as usize;
    assert_eq!(f.alternate_bucket(7, fp), expected);
    assert_eq!(f.alternate_bucket(expected, fp), 7);
}

#[test]
fn cuckoo_no_false_negatives() {
    let mut f = CuckooFilter::new(1000);
    let mut inserted = Vec::new();
    for i in 0..900u32 {
        if f.insert(i).is_ok() {
            inserted.push(i);
        }
    }
    assert!(inserted.len() > 800);
    for i in &inserted {
        assert!(f.contains(*i));
    }
    for i in 0..900u64 {
        if f.insert_hash(i * 7919).is_ok() {
            assert!(f.contains_hash(i * 7919));
        }
    }
    for i in &inserted {
        assert!(f.contains(*i));
    }
}

#[test]
fn cuckoo_delete_then_contains() {
    let mut f = CuckooFilter::new(100);
    assert_eq!(f.insert("a"), Ok(()));
    assert!(f.contains("a"));
    assert_eq!(f.delete("a"), Ok(()));
    assert!(!f.contains("a"));
    let fp = Fingerprint::create(77).value();
    assert_eq!(f.delete("a"), Err(BucketError::FingerprintNotFound { fingerprint: Fingerprint::create(twox_hash_of("a")).value() }));
    // Two copies of one entry: deleting one leaves the other visible.
    assert_eq!(f.insert_hash(77), Ok(()));
    assert_eq!(f.insert_hash(77), Ok(()));
    assert_eq!(f.delete_hash(77), Ok(()));
    assert!(f.contains_hash(77));
    assert_eq!(f.delete_hash(77), Ok(()));
    assert!(!f.contains_hash(77));
    assert_eq!(f.delete_hash(77), Err(BucketError::FingerprintNotFound { fingerprint: fp }));
}

fn twox_hash_of(s: &str) -> u64 {
    let mut h = XxHash64::with_seed(0);
    s.hash(&mut h);
    h.finish()
}

#[test]
fn cuckoo_fills_up_and_fails_cleanly() {
    let mut f = CuckooFilter::new(8);
    assert_eq!(f.bucket_count(), 2);
    let mut inserted = Vec::new();
    let mut failures = 0;
    for i in 0..200u64 {
        let before = format!("{:?}", f);
        match f.insert_hash(i) {
            Ok(()) => inserted.push(i),
            Err(e) => {
                assert_eq!(e, BucketError::BucketFull { fingerprint: Fingerprint::create(i).value() });
                assert_eq!(format!("{:?}", f), before);
                failures += 1;
            }
        }
    }
    assert!(inserted.len() <= 2 * BUCKET_SIZE);
    assert!(failures > 0);
    assert!(MAX_REBUCKET as usize > inserted.len());
    for i in &inserted {
        assert!(f.contains_hash(*i));
    }
}

#[test]
fn cuckoo_reset_forgets() {
    let mut f = CuckooFilter::new(64);
    for i in 0..40u64 {
        let _ = f.insert(i);
    }
    f.reset();
    assert_eq!(f.bucket_count(), 16);
    for i in 0..40u64 {
        assert!(!f.contains(i));
    }
    assert_eq!(f.insert(3u64), Ok(()));
    assert!(f.contains(3u64));
}
