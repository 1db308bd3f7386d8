//! A Bloom filter: a fixed array of bits and `k` bit positions per item,
//! derived from two hashes by Kirsch-Mitzenmacher double hashing.
use core::hash::Hash;
use vstd::arithmetic::div_mod::{lemma_add_mod_noop, lemma_small_mod};
use vstd::prelude::*;

use crate::bits::{
    bits_count_ones, bits_get, bits_of, bits_repeat, bits_set, count_true, BitArray, MAX_BITS,
};
use crate::hashing::{hash_item, random_u64};

verus! {

/// Seed of the first of an item's two hashes; the second uses the
/// filter's own seed.
pub const DEFAULT_SEED: u64 = 0;

/// The `i`-th bit position probed for hashes `h1` and `h2` among `m` bits:
/// `(h1 + i * h2) mod 2^64 mod m`.
pub open spec fn bit_index(h1: u64, h2: u64, i: int, m: int) -> int {
    ((h1 + i * h2) % 0x1_0000_0000_0000_0000) % m
}

/// Bit `j` is one of the first `k` positions probed for `h1` and `h2`.
pub open spec fn is_probed(h1: u64, h2: u64, k: nat, m: nat, j: int) -> bool {
    exists|i: int| 0 <= i < k && bit_index(h1, h2, i, m as int) == j
}

/// The abstract state of a Bloom filter.
pub struct BloomView {
    pub bits: Seq<bool>,
    pub bit_size: nat,
    pub hash_fn_count: nat,
    pub seed: u64,
}

impl BloomView {
    /// At least one bit, at least one hash function, and no more bits than
    /// a bit vector can hold.
    pub open spec fn wf(self) -> bool {
        &&& self.bits.len() == self.bit_size
        &&& 1 <= self.bit_size <= MAX_BITS
        &&& 1 <= self.hash_fn_count <= usize::MAX
    }

    /// The state after inserting an item with hashes `h1` and `h2`: every
    /// probed bit set, the others as they were.
    pub open spec fn insert_hashes(self, h1: u64, h2: u64) -> BloomView {
        BloomView {
            bits: Seq::new(
                self.bit_size,
                |j: int| self.bits[j] || is_probed(h1, h2, self.hash_fn_count, self.bit_size, j),
            ),
            ..self
        }
    }

    /// Whether every bit probed for `h1` and `h2` is set.
    pub open spec fn contains_hashes(self, h1: u64, h2: u64) -> bool {
        forall|i: int|
            0 <= i < self.hash_fn_count ==> #[trigger] self.bits[bit_index(
                h1,
                h2,
                i,
                self.bit_size as int,
            )]
    }

    /// The state after a reset: every bit cleared.
    pub open spec fn cleared(self) -> BloomView {
        BloomView { bits: Seq::new(self.bit_size, |_j: int| false), ..self }
    }
}

/// A Bloom filter: never reports an inserted item as absent, may report an
/// item that was not inserted.
pub struct BloomFilter {
    bits: BitArray,
    bit_size: usize,
    hash_fn_count: usize,
    seed: u64,
}

impl View for BloomFilter {
    type V = BloomView;

    closed spec fn view(&self) -> BloomView {
        BloomView {
            bits: bits_of(self.bits),
            bit_size: self.bit_size as nat,
            hash_fn_count: self.hash_fn_count as nat,
            seed: self.seed,
        }
    }
}

/// The wrapping arithmetic of the index computation is the
/// `mod 2^64` of `bit_index`.
proof fn lemma_wrapping_index(h1: u64, h2: u64, i: u64)
    ensures
        h1.wrapping_add(i.wrapping_mul(h2)) as int == (h1 + i * h2) % 0x1_0000_0000_0000_0000,
{
    let r: int = 0x1_0000_0000_0000_0000;
    let w = i.wrapping_mul(h2);
    assert(w as int == (i * h2) % r);
    lemma_add_mod_noop(h1 as int, i * h2, r);
    lemma_small_mod(h1 as nat, r as nat);
    lemma_small_mod(w as nat, r as nat);
    if h1 + w >= r {
        lemma_small_mod((h1 + w - r) as nat, r as nat);
        vstd::arithmetic::div_mod::lemma_mod_sub_multiples_vanish(h1 + w, r);
    } else {
        lemma_small_mod((h1 + w) as nat, r as nat);
    }
}

impl BloomFilter {
    /// The filter's state is well formed.
    pub open spec fn wf(&self) -> bool {
        self@.wf()
    }

    /// Constructs an empty filter of `bit_size` bits probed by
    /// `hash_fn_count` hash functions. The second hash of each item is
    /// seeded with `seed`, or with a random value when `seed` is `None`.
    pub fn with_parameters(bit_size: usize, hash_fn_count: usize, seed: Option<u64>) -> (r: Self)
        requires
            1 <= bit_size <= MAX_BITS,
            1 <= hash_fn_count,
        ensures
            r.wf(),
            r@.bits == Seq::new(bit_size as nat, |_j: int| false),
            r@.bit_size == bit_size,
            r@.hash_fn_count == hash_fn_count,
            seed is Some ==> r@.seed == seed->Some_0,
    {
        let seed = match seed {
            Some(s) => s,
            None => random_u64(),
        };
        BloomFilter { bits: bits_repeat(false, bit_size), bit_size, hash_fn_count, seed }
    }

    /// Number of bits in the filter.
    pub fn bit_size(&self) -> (r: usize)
        ensures
            r == self@.bit_size,
    {
        self.bit_size
    }

    /// Number of bit positions probed per item.
    pub fn hash_fn_count(&self) -> (r: usize)
        ensures
            r == self@.hash_fn_count,
    {
        self.hash_fn_count
    }

    /// The seed of each item's second hash.
    pub fn seed(&self) -> (r: u64)
        ensures
            r == self@.seed,
    {
        self.seed
    }

    /// The bit positions probed for an item whose two hashes are `h1` and
    /// `h2`, in probe order.
    pub fn get_bit_indexes(&self, h1: u64, h2: u64) -> (r: Vec<usize>)
        requires
            self.wf(),
        ensures
            r@.len() == self@.hash_fn_count,
            forall|i: int|
                0 <= i < r@.len() ==> #[trigger] r@[i] as int == bit_index(
                    h1,
                    h2,
                    i,
                    self@.bit_size as int,
                ),
    {
        let mut acc: Vec<usize> = Vec::new();
        let mut i: usize = 0;
        while i < self.hash_fn_count
            invariant
                self.wf(),
                i <= self.hash_fn_count,
                acc@.len() == i,
                forall|t: int|
                    0 <= t < i ==> #[trigger] acc@[t] as int == bit_index(
                        h1,
                        h2,
                        t,
                        self@.bit_size as int,
                    ),
            decreases self.hash_fn_count - i,
        {
            proof {
                lemma_wrapping_index(h1, h2, i as u64);
            }
            let idx = (h1.wrapping_add((i as u64).wrapping_mul(h2)) % (self.bit_size as u64)) as usize;
            acc.push(idx);
            i += 1;
        }
        acc
    }

    /// Sets every bit probed for an item whose two hashes are `h1` and `h2`.
    pub fn insert_hashes(&mut self, h1: u64, h2: u64)
        requires
            old(self).wf(),
        ensures
            final(self).wf(),
            final(self)@ == old(self)@.insert_hashes(h1, h2),
    {
        let idxes = self.get_bit_indexes(h1, h2);
        let ghost m = self@.bit_size;
        let ghost k = self@.hash_fn_count;
        let mut n: usize = 0;
        while n < idxes.len()
            invariant
                self.wf(),
                self@.bit_size == m,
                self@.hash_fn_count == k,
                self@.seed == old(self)@.seed,
                old(self).wf(),
                old(self)@.bit_size == m,
                old(self)@.hash_fn_count == k,
                idxes@.len() == k,
                forall|i: int|
                    0 <= i < k ==> #[trigger] idxes@[i] as int == bit_index(h1, h2, i, m as int),
                n <= k,
                forall|j: int|
                    0 <= j < m ==> #[trigger] self@.bits[j] == (old(self)@.bits[j] || exists|t: int|
                        0 <= t < n && idxes@[t] as int == j),
            decreases k - n,
        {
            let idx = idxes[n];
            proof {
                vstd::arithmetic::div_mod::lemma_mod_bound(
                    (h1 + n * h2) % 0x1_0000_0000_0000_0000,
                    m as int,
                );
            }
            bits_set(&mut self.bits, idx, true);
            proof {
                assert forall|j: int| 0 <= j < m implies #[trigger] self@.bits[j] == (old(
                    self,
                )@.bits[j] || exists|t: int| 0 <= t < n + 1 && idxes@[t] as int == j) by {
                    if j == idx as int {
                        assert(idxes@[n as int] as int == j);
                    }
                }
            }
            n += 1;
        }
        assert forall|j: int| 0 <= j < m implies (exists|t: int| 0 <= t < k && idxes@[t] as int == j)
            == is_probed(h1, h2, k, m, j) by {
            if exists|t: int| 0 <= t < k && idxes@[t] as int == j {
                let t = choose|t: int| 0 <= t < k && idxes@[t] as int == j;
                assert(bit_index(h1, h2, t, m as int) == j);
            }
            if is_probed(h1, h2, k, m, j) {
                let t = choose|t: int| 0 <= t < k && bit_index(h1, h2, t, m as int) == j;
                assert(idxes@[t] as int == j);
            }
        }
        assert(self@.bits =~= old(self)@.insert_hashes(h1, h2).bits);
    }

    /// Whether every bit probed for an item whose two hashes are `h1` and
    /// `h2` is set; stops at the first clear bit.
    pub fn might_contain_hashes(&self, h1: u64, h2: u64) -> (r: bool)
        requires
            self.wf(),
        ensures
            r == self@.contains_hashes(h1, h2),
    {
        let idxes = self.get_bit_indexes(h1, h2);
        let mut n: usize = 0;
        while n < idxes.len()
            invariant
                self.wf(),
                idxes@.len() == self@.hash_fn_count,
                forall|i: int|
                    0 <= i < idxes@.len() ==> #[trigger] idxes@[i] as int == bit_index(
                        h1,
                        h2,
                        i,
                        self@.bit_size as int,
                    ),
                n <= idxes@.len(),
                forall|i: int|
                    0 <= i < n ==> #[trigger] self@.bits[bit_index(
                        h1,
                        h2,
                        i,
                        self@.bit_size as int,
                    )],
            decreases idxes@.len() - n,
        {
            let idx = idxes[n];
            proof {
                vstd::arithmetic::div_mod::lemma_mod_bound(
                    (h1 + n * h2) % 0x1_0000_0000_0000_0000,
                    self@.bit_size as int,
                );
            }
            if !bits_get(&self.bits, idx) {
                return false;
            }
            n += 1;
        }
        true
    }

    /// The two hashes of `item`: xxHash64 under `DEFAULT_SEED` and under the
    /// filter's seed.
    fn item_hashes<T: Hash>(&self, item: &T) -> (u64, u64) {
        (hash_item(item, DEFAULT_SEED), hash_item(item, self.seed))
    }

    /// Inserts `item`: sets every bit probed for its two hashes.
    pub fn insert<T: Hash>(&mut self, item: T)
        requires
            old(self).wf(),
        ensures
            final(self).wf(),
            exists|h1: u64, h2: u64| final(self)@ == old(self)@.insert_hashes(h1, h2),
    {
        let (h1, h2) = self.item_hashes(&item);
        self.insert_hashes(h1, h2);
    }

    /// Whether `item` may have been inserted: every bit probed for its two
    /// hashes is set.
    pub fn might_contain<T: Hash>(&self, item: T) -> (r: bool)
        requires
            self.wf(),
        ensures
            exists|h1: u64, h2: u64| r == self@.contains_hashes(h1, h2),
    {
        let (h1, h2) = self.item_hashes(&item);
        self.might_contain_hashes(h1, h2)
    }

    /// Clears every bit; size, hash function count and seed stay.
    pub fn reset(&mut self)
        requires
            old(self).wf(),
        ensures
            final(self).wf(),
            final(self)@ == old(self)@.cleared(),
    {
        self.bits = bits_repeat(false, self.bit_size);
        assert(self@.bits =~= old(self)@.cleared().bits);
    }

    /// Number of bits that are set.
    pub fn count_ones(&self) -> (r: usize)
        ensures
            r == count_true(self@.bits),
    {
        bits_count_ones(&self.bits)
    }
}

} // verus!
