//! Probabilistic set-membership filters: a Bloom filter and a Cuckoo filter.
//!
//! Both answer "is this item possibly in the set?" and never report an
//! inserted item as absent. Each item is reduced to xxHash64 hashes; the
//! filters' contracts are stated over those hashes, and the item-level
//! methods hash and then defer to them.
use core::hash::Hash;
use vstd::prelude::*;

mod bits;
mod bloom;
mod bloom_laws;
mod cuckoo;
mod cuckoo_laws;
mod hashing;

pub use bits::{count_true, MAX_BITS};
pub use bloom::{bit_index, is_probed, BloomFilter, BloomView, DEFAULT_SEED};
pub use bloom_laws::{insert_all, lemma_bloom_no_false_negatives, lemma_reset_forgets};
pub use cuckoo::{
    alt_index, bucket_count_for, buckets_wf, contains_spec, delete_post, empty_slots, fingerprint_hash,
    fingerprint_of, in_pair, insert_post, is_cleared, is_first, is_full, is_next_pow2, is_pow2,
    occurrences, one_less, one_more, primary_index, stored, Bucket, BucketError, CuckooFilter,
    Fingerprint, BUCKET_SIZE, EMPTY, HASH_SEED, MAX_REBUCKET,
};
pub use cuckoo_laws::{
    call_post, lemma_cuckoo_no_false_negatives, lemma_delete_then_contains, lemma_inserts_run_out,
    shares_entry, Call,
};
pub use hashing::xxh64;

verus! {

/// The operations shared by the filters that never fail to insert.
pub trait Filter {
    /// The filter's internal invariant; filters without one keep `true`.
    open spec fn well_formed(&self) -> bool {
        true
    }

    /// Inserts `item` into the filter.
    fn insert<T: Hash>(&mut self, item: T)
        requires
            old(self).well_formed(),
        ensures
            final(self).well_formed(),
    ;

    /// Whether `item` may be in the filter; never false for an inserted
    /// item.
    fn might_contain<T: Hash>(&self, item: T) -> bool
        requires
            self.well_formed(),
    ;

    /// Empties the filter.
    fn reset(&mut self)
        requires
            old(self).well_formed(),
        ensures
            final(self).well_formed(),
    ;
}

impl Filter for BloomFilter {
    open spec fn well_formed(&self) -> bool {
        self.wf()
    }

    fn insert<T: Hash>(&mut self, item: T) {
        BloomFilter::insert(self, item)
    }

    fn might_contain<T: Hash>(&self, item: T) -> bool {
        BloomFilter::might_contain(self, item)
    }

    fn reset(&mut self) {
        BloomFilter::reset(self)
    }
}

} // verus!
