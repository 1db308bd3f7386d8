//! A Cuckoo filter: buckets of small fingerprints, each item with two
//! candidate buckets, and bounded relocation when both are full.
use core::hash::Hash;
use vstd::arithmetic::power2::{
    lemma2_to64, lemma_pow2_adds, lemma_pow2_pos, lemma_pow2_strictly_increases, lemma_pow2_unfold,
    pow2,
};
use vstd::arithmetic::div_mod::lemma_small_mod;
use vstd::bits::{lemma_u64_low_bits_mask_is_mod, low_bits_mask};
use vstd::prelude::*;

use crate::hashing::{hash_byte, hash_item, random_below, xxh64};

verus! {

/// Number of fingerprint slots in a bucket.
pub const BUCKET_SIZE: usize = 4;

/// Longest relocation chain an insert tries before it gives up.
pub const MAX_REBUCKET: u16 = 500;

/// Seed under which items and fingerprints are hashed.
pub const HASH_SEED: u64 = 0;

/// The slot value that marks an empty slot.
pub const EMPTY: u8 = 0;

/// The fingerprint an item with hash `hash` gets: never the empty value.
pub open spec fn fingerprint_of(hash: u64) -> u8 {
    (hash % 255 + 1) as u8
}

/// Number of entries of `s` equal to `v`.
pub open spec fn occurrences(s: Seq<u8>, v: u8) -> nat
    decreases s.len(),
{
    if s.len() == 0 {
        0
    } else {
        occurrences(s.drop_last(), v) + if s.last() == v {
            1nat
        } else {
            0nat
        }
    }
}

/// `i` is the first position of `v` in `s`.
pub open spec fn is_first(s: Seq<u8>, v: u8, i: int) -> bool {
    &&& 0 <= i < s.len()
    &&& s[i] == v
    &&& forall|j: int| 0 <= j < i ==> s[j] != v
}

proof fn lemma_occurrences_update(s: Seq<u8>, k: int, w: u8, v: u8)
    requires
        0 <= k < s.len(),
    ensures
        occurrences(s.update(k, w), v) + (if s[k] == v {
            1nat
        } else {
            0nat
        }) == occurrences(s, v) + (if w == v {
            1nat
        } else {
            0nat
        }),
    decreases s.len(),
{
    if k == s.len() - 1 {
        assert(s.update(k, w).drop_last() =~= s.drop_last());
    } else {
        assert(s.update(k, w).drop_last() =~= s.drop_last().update(k, w));
        lemma_occurrences_update(s.drop_last(), k, w, v);
    }
}

proof fn lemma_occurrences_contains(s: Seq<u8>, v: u8)
    ensures
        occurrences(s, v) > 0 <==> s.contains(v),
    decreases s.len(),
{
    if s.len() > 0 {
        lemma_occurrences_contains(s.drop_last(), v);
        if s.drop_last().contains(v) {
            let i = choose|i: int| 0 <= i < s.drop_last().len() && s.drop_last()[i] == v;
            assert(s[i] == v);
        }
        if s.contains(v) && s.last() != v {
            let i = choose|i: int| 0 <= i < s.len() && s[i] == v;
            assert(s.drop_last()[i] == v);
        }
    }
}

/// A one-byte digest of an item; the value `EMPTY` marks an empty slot.
#[derive(Copy, Clone, Debug, PartialEq, Eq, Structural)]
pub struct Fingerprint {
    value: u8,
}

impl View for Fingerprint {
    type V = u8;

    closed spec fn view(&self) -> u8 {
        self.value
    }
}

impl Fingerprint {
    /// The fingerprint of an item whose hash is `hash`.
    pub fn create(hash: u64) -> (r: Self)
        ensures
            r@ == fingerprint_of(hash),
            r@ != EMPTY,
    {
        Self { value: (hash % 255 + 1) as u8 }
    }

    /// The fingerprint of an empty slot.
    pub fn empty() -> (r: Self)
        ensures
            r@ == EMPTY,
    {
        Self { value: EMPTY }
    }

    /// Whether this is the empty-slot value.
    pub fn is_empty(&self) -> (r: bool)
        ensures
            r == (self@ == EMPTY),
    {
        self.value == EMPTY
    }

    /// The fingerprint's byte.
    pub fn value(&self) -> (r: u8)
        ensures
            r == self@,
    {
        self.value
    }
}

/// An error returned by a method on a `Bucket` or a `CuckooFilter`.
#[derive(Debug, PartialEq, Eq, Structural)]
pub enum BucketError {
    /// No free slot could be found for the fingerprint.
    BucketFull { fingerprint: u8 },
    /// The fingerprint is not stored where it was looked for.
    FingerprintNotFound { fingerprint: u8 },
}

/// A fixed number of fingerprint slots, each empty or occupied.
#[derive(Copy, Clone, Debug)]
pub struct Bucket {
    pub slots: [Fingerprint; BUCKET_SIZE],
}

impl View for Bucket {
    type V = Seq<u8>;

    open spec fn view(&self) -> Seq<u8> {
        self.slots@.map_values(|f: Fingerprint| f@)
    }
}

impl Bucket {
    /// A bucket whose slots are all empty.
    pub fn new() -> (r: Self)
        ensures
            r@ == Seq::new(BUCKET_SIZE as nat, |_i: int| EMPTY),
    {
        let r = Self { slots: [Fingerprint::empty(); BUCKET_SIZE] };
        assert(r@ =~= Seq::new(BUCKET_SIZE as nat, |_i: int| EMPTY));
        r
    }

    /// Whether some slot holds `fingerprint`.
    pub fn contains(&self, fingerprint: Fingerprint) -> (r: bool)
        ensures
            r == self@.contains(fingerprint@),
    {
        let mut i: usize = 0;
        while i < BUCKET_SIZE
            invariant
                0 <= i <= BUCKET_SIZE,
                forall|j: int| 0 <= j < i ==> self@[j] != fingerprint@,
            decreases BUCKET_SIZE - i,
        {
            if self.slots[i].value == fingerprint.value {
                assert(self@[i as int] == fingerprint@);
                return true;
            }
            i += 1;
        }
        false
    }

    /// Puts `fingerprint` in the first empty slot; fails with `BucketFull`
    /// when there is none. Equal fingerprints are stored once each.
    pub fn try_insert(&mut self, fingerprint: Fingerprint) -> (r: Result<(), BucketError>)
        ensures
            r is Ok <==> old(self)@.contains(EMPTY),
            r is Ok ==> exists|i: int|
                is_first(old(self)@, EMPTY, i) && final(self)@ == old(self)@.update(
                    i,
                    fingerprint@,
                ),
            r is Err ==> final(self)@ == old(self)@ && r == Err::<(), BucketError>(
                BucketError::BucketFull { fingerprint: fingerprint@ },
            ),
    {
        let mut i: usize = 0;
        while i < BUCKET_SIZE
            invariant
                0 <= i <= BUCKET_SIZE,
                *self == *old(self),
                forall|j: int| 0 <= j < i ==> self@[j] != EMPTY,
            decreases BUCKET_SIZE - i,
        {
            if self.slots[i].is_empty() {
                assert(is_first(old(self)@, EMPTY, i as int));
                self.slots[i] = fingerprint;
                assert(self@ =~= old(self)@.update(i as int, fingerprint@));
                return Ok(());
            }
            i += 1;
        }
        Err(BucketError::BucketFull { fingerprint: fingerprint.value })
    }

    /// Empties the first slot that holds `fingerprint`; fails with
    /// `FingerprintNotFound` when no slot does.
    pub fn try_delete(&mut self, fingerprint: Fingerprint) -> (r: Result<(), BucketError>)
        ensures
            r is Ok <==> old(self)@.contains(fingerprint@),
            r is Ok ==> exists|i: int|
                is_first(old(self)@, fingerprint@, i) && final(self)@ == old(self)@.update(
                    i,
                    EMPTY,
                ),
            r is Err ==> final(self)@ == old(self)@ && r == Err::<(), BucketError>(
                BucketError::FingerprintNotFound { fingerprint: fingerprint@ },
            ),
    {
        let mut i: usize = 0;
        while i < BUCKET_SIZE
            invariant
                0 <= i <= BUCKET_SIZE,
                *self == *old(self),
                forall|j: int| 0 <= j < i ==> self@[j] != fingerprint@,
            decreases BUCKET_SIZE - i,
        {
            if self.slots[i].value == fingerprint.value {
                assert(is_first(old(self)@, fingerprint@, i as int));
                self.slots[i] = Fingerprint::empty();
                assert(self@ =~= old(self)@.update(i as int, EMPTY));
                return Ok(());
            }
            i += 1;
        }
        Err(BucketError::FingerprintNotFound { fingerprint: fingerprint.value })
    }

    /// Empties every slot.
    pub fn reset(&mut self)
        ensures
            final(self)@ == Seq::new(BUCKET_SIZE as nat, |_i: int| EMPTY),
    {
        *self = Self::new();
    }
}

/// `n` is a power of two below 2^64.
pub open spec fn is_pow2(n: nat) -> bool {
    exists|e: nat| e < 64 && n == pow2(e)
}

/// `p` is the smallest power of two that is at least `n`.
pub open spec fn is_next_pow2(p: nat, n: nat) -> bool {
    &&& is_pow2(p)
    &&& n <= p
    &&& p == 1 || p / 2 < n
}

/// Number of buckets a filter of `capacity` items gets: the next power of
/// two of `capacity`, divided by `BUCKET_SIZE`, and at least one.
pub open spec fn bucket_count_for(p: nat) -> nat {
    if p / (BUCKET_SIZE as nat) >= 1 {
        p / (BUCKET_SIZE as nat)
    } else {
        1
    }
}

/// The hash of fingerprint `g` that moves it between its two buckets.
pub open spec fn fingerprint_hash(g: u8) -> u64 {
    xxh64(HASH_SEED, seq![g])
}

/// The first candidate bucket of an item with hash `h`, among `nb`.
pub open spec fn primary_index(h: u64, nb: nat) -> int {
    (h % (nb as u64)) as int
}

/// The other candidate bucket of fingerprint `g` when it sits in bucket
/// `i`, among `nb`.
pub open spec fn alt_index(i: int, g: u8, nb: nat) -> int {
    (((i as u64) ^ fingerprint_hash(g)) % (nb as u64)) as int
}

/// Bucket `b` is one of the two candidate buckets of fingerprint `g`
/// whose other candidate is `j`.
pub open spec fn in_pair(b: int, j: int, g: u8, nb: nat) -> bool {
    b == j || b == alt_index(j, g, nb)
}

/// Number of copies of fingerprint `g` in bucket `j` and in its alternate.
pub open spec fn stored(v: Seq<Seq<u8>>, g: u8, j: int) -> nat {
    let a = alt_index(j, g, v.len());
    occurrences(v[j], g) + if a != j {
        occurrences(v[a], g)
    } else {
        0
    }
}

/// The bucket array has a power-of-two length and full-sized buckets.
pub open spec fn buckets_wf(v: Seq<Seq<u8>>) -> bool {
    &&& is_pow2(v.len())
    &&& forall|i: int| 0 <= i < v.len() ==> (#[trigger] v[i]).len() == BUCKET_SIZE
}

/// No bucket has an empty slot.
pub open spec fn is_full(v: Seq<Seq<u8>>) -> bool {
    forall|i: int| 0 <= i < v.len() ==> !(#[trigger] v[i]).contains(EMPTY)
}

/// Every slot of every bucket is empty.
pub open spec fn is_cleared(v: Seq<Seq<u8>>) -> bool {
    forall|i: int| 0 <= i < v.len() ==> #[trigger] v[i] == Seq::new(BUCKET_SIZE as nat, |_k: int| EMPTY)
}

/// `w` holds what `v` holds plus one copy of fingerprint `g` in the bucket
/// pair of `i`; every other fingerprint and pair keeps its count.
pub open spec fn one_more(v: Seq<Seq<u8>>, w: Seq<Seq<u8>>, g: u8, i: int) -> bool {
    &&& w.len() == v.len()
    &&& forall|f: u8, j: int|
        f != EMPTY && 0 <= j < v.len() ==> #[trigger] stored(w, f, j) == stored(v, f, j) + if f == g
            && in_pair(i, j, f, v.len()) {
            1nat
        } else {
            0nat
        }
}

/// `w` holds what `v` holds less one copy of fingerprint `g` in the bucket
/// pair of `i`; every other fingerprint and pair keeps its count.
pub open spec fn one_less(v: Seq<Seq<u8>>, w: Seq<Seq<u8>>, g: u8, i: int) -> bool {
    &&& w.len() == v.len()
    &&& forall|f: u8, j: int|
        f != EMPTY && 0 <= j < v.len() ==> #[trigger] stored(w, f, j) + (if f == g && in_pair(
            i,
            j,
            f,
            v.len(),
        ) {
            1nat
        } else {
            0nat
        }) == stored(v, f, j)
}

/// Whether a filter with buckets `v` reports the item with hash `h`.
pub open spec fn contains_spec(v: Seq<Seq<u8>>, h: u64) -> bool {
    stored(v, fingerprint_of(h), primary_index(h, v.len())) > 0
}

proof fn lemma_mask_xor(x: u64, h: u64, m: u64)
    ensures
        (((x ^ h) & m) ^ h) & m == x & m,
{
    assert((((x ^ h) & m) ^ h) & m == x & m) by (bit_vector);
}

/// Facts about a power-of-two bucket count as a `u64`.
pub(crate) proof fn lemma_pow2_bound(nb: nat) -> (e: nat)
    requires
        is_pow2(nb),
    ensures
        e < 64,
        nb == pow2(e),
        0 < nb < 0x1_0000_0000_0000_0000,
{
    let e = choose|e: nat| e < 64 && nb == pow2(e);
    lemma_pow2_pos(e);
    lemma_pow2_strictly_increases(e, 64);
    lemma2_to64();
    e
}

/// The alternate of a bucket is a bucket, and the alternate of the
/// alternate is where one started.
proof fn lemma_alt_index(i: int, g: u8, nb: nat)
    requires
        is_pow2(nb),
        0 <= i < nb,
    ensures
        0 <= alt_index(i, g, nb) < nb,
        alt_index(alt_index(i, g, nb), g, nb) == i,
{
    let e = lemma_pow2_bound(nb);
    let n = nb as u64;
    let x = i as u64;
    let h = fingerprint_hash(g);
    let m = low_bits_mask(e) as u64;
    assert(n == pow2(e) as u64);
    lemma_u64_low_bits_mask_is_mod(x ^ h, e);
    let a = (x ^ h) % n;
    assert(alt_index(i, g, nb) == a as int);
    lemma_u64_low_bits_mask_is_mod(a ^ h, e);
    lemma_u64_low_bits_mask_is_mod(x, e);
    lemma_mask_xor(x, h, m);
    assert((a as int) as u64 == a);
    assert(a == (x ^ h) & m);
    assert((a ^ h) % n == (a ^ h) & m);
    assert(x as int == i);
    assert(n as int == nb as int);
    lemma_small_mod(x as nat, n as nat);
    assert(x % n == x);
    assert((a ^ h) % n == x);
}

/// Two buckets are each other's alternates in both directions.
proof fn lemma_alt_symmetric(b: int, j: int, g: u8, nb: nat)
    requires
        is_pow2(nb),
        0 <= b < nb,
        0 <= j < nb,
    ensures
        b == alt_index(j, g, nb) <==> j == alt_index(b, g, nb),
{
    lemma_alt_index(b, g, nb);
    lemma_alt_index(j, g, nb);
}

/// Moving a fingerprint to its alternate bucket keeps its bucket pair.
proof fn lemma_in_pair_alt(c: int, j: int, g: u8, nb: nat)
    requires
        is_pow2(nb),
        0 <= c < nb,
        0 <= j < nb,
    ensures
        in_pair(alt_index(c, g, nb), j, g, nb) == in_pair(c, j, g, nb),
{
    lemma_alt_index(c, g, nb);
    lemma_alt_index(j, g, nb);
    lemma_alt_symmetric(c, j, g, nb);
    lemma_alt_symmetric(alt_index(c, g, nb), j, g, nb);
}

/// How overwriting one slot changes each pair's count.
proof fn lemma_stored_update(v: Seq<Seq<u8>>, b: int, k: int, w: u8, f: u8, j: int)
    requires
        buckets_wf(v),
        0 <= b < v.len(),
        0 <= k < BUCKET_SIZE,
        0 <= j < v.len(),
    ensures
        ({
            let v2 = v.update(b, v[b].update(k, w));
            stored(v2, f, j) + (if v[b][k] == f && in_pair(b, j, f, v.len()) {
                1nat
            } else {
                0nat
            }) == stored(v, f, j) + (if w == f && in_pair(b, j, f, v.len()) {
                1nat
            } else {
                0nat
            })
        }),
{
    let nb = v.len();
    let v2 = v.update(b, v[b].update(k, w));
    let a = alt_index(j, f, nb);
    lemma_alt_index(j, f, nb);
    lemma_occurrences_update(v[b], k, w, f);
    assert(v2.len() == nb);
    if b != j && b != a {
        assert(v2[j] == v[j]);
        assert(v2[a] == v[a]);
    } else if b == j {
        if a != j {
            assert(v2[a] == v[a]);
        }
    } else {
        assert(v2[j] == v[j]);
    }
}

/// A fingerprint is counted in a pair exactly when one of its two buckets
/// holds it.
proof fn lemma_stored_contains(v: Seq<Seq<u8>>, g: u8, j: int)
    requires
        buckets_wf(v),
        0 <= j < v.len(),
    ensures
        stored(v, g, j) > 0 <==> (v[j].contains(g) || v[alt_index(j, g, v.len())].contains(g)),
{
    lemma_alt_index(j, g, v.len());
    lemma_occurrences_contains(v[j], g);
    lemma_occurrences_contains(v[alt_index(j, g, v.len())], g);
}

/// Number of empty slots over all buckets.
pub open spec fn empty_slots(v: Seq<Seq<u8>>) -> nat
    decreases v.len(),
{
    if v.len() == 0 {
        0
    } else {
        empty_slots(v.drop_last()) + occurrences(v.last(), EMPTY)
    }
}

/// How overwriting one slot changes the number of empty slots.
proof fn lemma_empty_slots_update(v: Seq<Seq<u8>>, b: int, k: int, w: u8)
    requires
        0 <= b < v.len(),
        0 <= k < v[b].len(),
    ensures
        empty_slots(v.update(b, v[b].update(k, w))) + (if v[b][k] == EMPTY {
            1nat
        } else {
            0nat
        }) == empty_slots(v) + (if w == EMPTY {
            1nat
        } else {
            0nat
        }),
    decreases v.len(),
{
    let v2 = v.update(b, v[b].update(k, w));
    lemma_occurrences_update(v[b], k, w, EMPTY);
    if b == v.len() - 1 {
        assert(v2.drop_last() =~= v.drop_last());
    } else {
        assert(v2.drop_last() =~= v.drop_last().update(b, v[b].update(k, w)));
        lemma_empty_slots_update(v.drop_last(), b, k, w);
    }
}

proof fn lemma_occurrences_bound(s: Seq<u8>, v: u8)
    ensures
        occurrences(s, v) <= s.len(),
    decreases s.len(),
{
    if s.len() > 0 {
        lemma_occurrences_bound(s.drop_last(), v);
    }
}

/// There are at most `BUCKET_SIZE` empty slots per bucket.
pub(crate) proof fn lemma_empty_slots_bound(v: Seq<Seq<u8>>)
    requires
        forall|i: int| 0 <= i < v.len() ==> (#[trigger] v[i]).len() == BUCKET_SIZE,
    ensures
        empty_slots(v) <= BUCKET_SIZE * v.len(),
    decreases v.len(),
{
    if v.len() > 0 {
        assert(v.drop_last().len() == v.len() - 1);
        assert forall|i: int| 0 <= i < v.drop_last().len() implies (
        #[trigger] v.drop_last()[i]).len() == BUCKET_SIZE by {
            assert(v.drop_last()[i] == v[i]);
        }
        lemma_empty_slots_bound(v.drop_last());
        lemma_occurrences_bound(v.last(), EMPTY);
    }
}

/// Filling an empty slot with `g` adds one copy of `g` to its pair.
proof fn lemma_fill_slot(v: Seq<Seq<u8>>, b: int, k: int, g: u8)
    requires
        buckets_wf(v),
        0 <= b < v.len(),
        0 <= k < BUCKET_SIZE,
        v[b][k] == EMPTY,
    ensures
        one_more(v, v.update(b, v[b].update(k, g)), g, b),
{
    assert forall|f: u8, j: int| f != EMPTY && 0 <= j < v.len() implies #[trigger] stored(
        v.update(b, v[b].update(k, g)),
        f,
        j,
    ) == stored(v, f, j) + if f == g && in_pair(b, j, f, v.len()) {
        1nat
    } else {
        0nat
    } by {
        lemma_stored_update(v, b, k, g, f, j);
    }
}

/// Emptying a slot that holds `g` removes one copy of `g` from its pair.
proof fn lemma_clear_slot(v: Seq<Seq<u8>>, b: int, k: int, g: u8)
    requires
        buckets_wf(v),
        0 <= b < v.len(),
        0 <= k < BUCKET_SIZE,
        v[b][k] == g,
        g != EMPTY,
    ensures
        one_less(v, v.update(b, v[b].update(k, EMPTY)), g, b),
{
    assert forall|f: u8, j: int| f != EMPTY && 0 <= j < v.len() implies #[trigger] stored(
        v.update(b, v[b].update(k, EMPTY)),
        f,
        j,
    ) + (if f == g && in_pair(b, j, f, v.len()) {
        1nat
    } else {
        0nat
    }) == stored(v, f, j) by {
        lemma_stored_update(v, b, k, EMPTY, f, j);
    }
}

/// A change stated from one bucket of a pair holds from the other too.
proof fn lemma_pair_change_alt(v: Seq<Seq<u8>>, w: Seq<Seq<u8>>, g: u8, i: int)
    requires
        buckets_wf(v),
        0 <= i < v.len(),
    ensures
        one_more(v, w, g, alt_index(i, g, v.len())) ==> one_more(v, w, g, i),
        one_less(v, w, g, alt_index(i, g, v.len())) ==> one_less(v, w, g, i),
{
    assert forall|j: int| 0 <= j < v.len() implies in_pair(alt_index(i, g, v.len()), j, g, v.len())
        == in_pair(i, j, g, v.len()) by {
        lemma_in_pair_alt(i, j, g, v.len());
    }
}

/// Replays a log of overwritten slots backwards, restoring each old value.
spec fn undo(v: Seq<Seq<u8>>, log: Seq<(usize, usize, u8)>) -> Seq<Seq<u8>>
    decreases log.len(),
{
    if log.len() == 0 {
        v
    } else {
        let (b, k, f) = log.last();
        undo(v.update(b as int, v[b as int].update(k as int, f)), log.drop_last())
    }
}

/// What inserting the item with hash `h` does to buckets `v`, leaving `w`
/// and returning `r`.
pub open spec fn insert_post(
    v: Seq<Seq<u8>>,
    w: Seq<Seq<u8>>,
    h: u64,
    r: Result<(), BucketError>,
) -> bool {
    let nb = v.len();
    let g = fingerprint_of(h);
    let i1 = primary_index(h, nb);
    let i2 = alt_index(i1, g, nb);
    &&& r is Ok ==> one_more(v, w, g, i1)
    &&& r is Ok ==> empty_slots(w) + 1 == empty_slots(v)
    &&& r is Err ==> w == v && r == Err::<(), BucketError>(
        BucketError::BucketFull { fingerprint: g },
    )
    &&& v[i1].contains(EMPTY) ==> r is Ok && exists|k: int|
        is_first(v[i1], EMPTY, k) && w == v.update(i1, v[i1].update(k, g))
    &&& !v[i1].contains(EMPTY) && v[i2].contains(EMPTY) ==> r is Ok && exists|k: int|
        is_first(v[i2], EMPTY, k) && w == v.update(i2, v[i2].update(k, g))
    &&& is_full(v) ==> r is Err
}

/// What deleting the item with hash `h` does to buckets `v`, leaving `w`
/// and returning `r`.
pub open spec fn delete_post(
    v: Seq<Seq<u8>>,
    w: Seq<Seq<u8>>,
    h: u64,
    r: Result<(), BucketError>,
) -> bool {
    let nb = v.len();
    let g = fingerprint_of(h);
    let i1 = primary_index(h, nb);
    let i2 = alt_index(i1, g, nb);
    &&& r is Ok <==> contains_spec(v, h)
    &&& r is Ok ==> one_less(v, w, g, i1)
    &&& r is Ok ==> empty_slots(w) == empty_slots(v) + 1
    &&& r is Err ==> w == v && r == Err::<(), BucketError>(
        BucketError::FingerprintNotFound { fingerprint: g },
    )
    &&& v[i1].contains(g) ==> exists|k: int|
        is_first(v[i1], g, k) && w == v.update(i1, v[i1].update(k, EMPTY))
    &&& !v[i1].contains(g) && v[i2].contains(g) ==> exists|k: int|
        is_first(v[i2], g, k) && w == v.update(i2, v[i2].update(k, EMPTY))
}

/// The smallest power of two that is at least `n`.
fn next_power_of_two(n: usize) -> (p: usize)
    requires
        n <= usize::MAX / 2 + 1,
    ensures
        is_next_pow2(p as nat, n as nat),
{
    let mut p: usize = 1;
    let ghost mut e: nat = 0;
    proof {
        lemma2_to64();
    }
    while p < n
        invariant
            1 <= p,
            p == pow2(e),
            e < 64,
            p == 1 || p / 2 < n,
            n <= usize::MAX / 2 + 1,
        decreases 64 - e,
    {
        proof {
            lemma_pow2_unfold(e + 1);
            if e + 1 >= 64 {
                lemma2_to64();
                if e + 1 > 64 {
                    lemma_pow2_strictly_increases(64, e + 1);
                }
                assert(false);
            }
        }
        p = p * 2;
        proof {
            e = e + 1;
        }
    }
    assert(is_pow2(p as nat)) by {
        assert(e < 64 && p == pow2(e));
    }
    p
}

/// A Cuckoo filter: a power-of-two number of buckets of fingerprints.
#[derive(Clone, Debug)]
pub struct CuckooFilter {
    filter: Vec<Bucket>,
}

impl View for CuckooFilter {
    type V = Seq<Seq<u8>>;

    closed spec fn view(&self) -> Seq<Seq<u8>> {
        self.filter@.map_values(|b: Bucket| b@)
    }
}

impl CuckooFilter {
    /// The bucket array is well formed.
    pub open spec fn wf(&self) -> bool {
        buckets_wf(self@)
    }

    /// Constructs an empty filter for about `capacity` items: the next power
    /// of two of `capacity`, over `BUCKET_SIZE`, buckets, and at least one.
    pub fn new(capacity: usize) -> (r: Self)
        requires
            capacity <= usize::MAX / 2 + 1,
        ensures
            r.wf(),
            exists|p: nat| is_next_pow2(p, capacity as nat) && r@.len() == bucket_count_for(p),
            is_cleared(r@),
    {
        let p = next_power_of_two(capacity);
        let nb: usize = if p / BUCKET_SIZE >= 1 {
            p / BUCKET_SIZE
        } else {
            1
        };
        proof {
            let e = lemma_pow2_bound(p as nat);
            lemma2_to64();
            if e >= 2 {
                lemma_pow2_adds((e - 2) as nat, 2);
                assert(nb == pow2((e - 2) as nat));
            } else {
                assert(p < 4) by {
                    if e == 1 {
                        lemma_pow2_unfold(1);
                    }
                }
                assert(nb == pow2(0));
            }
            assert(is_pow2(nb as nat));
        }
        let mut filter: Vec<Bucket> = Vec::new();
        while filter.len() < nb
            invariant
                filter.len() <= nb,
                forall|i: int|
                    0 <= i < filter.len() ==> (#[trigger] filter@[i])@ == Seq::new(
                        BUCKET_SIZE as nat,
                        |_k: int| EMPTY,
                    ),
            decreases nb - filter.len(),
        {
            filter.push(Bucket::new());
        }
        let r = Self { filter };
        assert(r@.len() == bucket_count_for(p as nat));
        r
    }

    /// Number of buckets.
    pub fn bucket_count(&self) -> (r: usize)
        ensures
            r == self@.len(),
    {
        self.filter.len()
    }

    /// The first candidate bucket of an item with hash `hash`.
    pub fn primary_bucket(&self, hash: u64) -> (r: usize)
        requires
            self.wf(),
        ensures
            r == primary_index(hash, self@.len()),
            r < self@.len(),
    {
        proof {
            lemma_pow2_bound(self@.len());
        }
        (hash % (self.filter.len() as u64)) as usize
    }

    /// The other candidate bucket of `fingerprint` when it sits in bucket
    /// `i`: `i` xor the fingerprint's hash, modulo the bucket count. It
    /// depends on the fingerprint alone, so a stored fingerprint can move
    /// without its item.
    pub fn alternate_bucket(&self, i: usize, fingerprint: Fingerprint) -> (r: usize)
        requires
            self.wf(),
            i < self@.len(),
        ensures
            r == alt_index(i as int, fingerprint@, self@.len()),
            r < self@.len(),
    {
        proof {
            lemma_pow2_bound(self@.len());
            lemma_alt_index(i as int, fingerprint@, self@.len());
        }
        let fh = hash_byte(HASH_SEED, fingerprint.value);
        (((i as u64) ^ fh) % (self.filter.len() as u64)) as usize
    }

    /// The fingerprint in slot `k` of bucket `b`.
    fn read_slot(&self, b: usize, k: usize) -> (r: Fingerprint)
        requires
            b < self@.len(),
            k < BUCKET_SIZE,
        ensures
            r@ == self@[b as int][k as int],
    {
        self.filter[b].slots[k]
    }

    /// Overwrites slot `k` of bucket `b` with `fingerprint`.
    fn write_slot(&mut self, b: usize, k: usize, fingerprint: Fingerprint)
        requires
            old(self).wf(),
            b < old(self)@.len(),
            k < BUCKET_SIZE,
        ensures
            final(self).wf(),
            final(self)@ == old(self)@.update(
                b as int,
                old(self)@[b as int].update(k as int, fingerprint@),
            ),
    {
        let mut bucket = self.filter[b];
        bucket.slots[k] = fingerprint;
        assert(bucket@ =~= old(self)@[b as int].update(k as int, fingerprint@));
        self.filter.set(b, bucket);
        assert(self@ =~= old(self)@.update(b as int, bucket@));
    }

    /// Whether bucket `b` holds `fingerprint`.
    fn bucket_contains(&self, b: usize, fingerprint: Fingerprint) -> (r: bool)
        requires
            b < self@.len(),
        ensures
            r == self@[b as int].contains(fingerprint@),
    {
        self.filter[b].contains(fingerprint)
    }

    /// `Bucket::try_insert` on bucket `b`.
    fn try_insert_at(&mut self, b: usize, fingerprint: Fingerprint) -> (r: Result<(), BucketError>)
        requires
            old(self).wf(),
            b < old(self)@.len(),
        ensures
            final(self).wf(),
            r is Ok <==> old(self)@[b as int].contains(EMPTY),
            r is Ok ==> exists|k: int|
                is_first(old(self)@[b as int], EMPTY, k) && final(self)@ == old(self)@.update(
                    b as int,
                    old(self)@[b as int].update(k, fingerprint@),
                ),
            r is Err ==> final(self)@ == old(self)@ && r == Err::<(), BucketError>(
                BucketError::BucketFull { fingerprint: fingerprint@ },
            ),
    {
        let mut bucket = self.filter[b];
        let r = bucket.try_insert(fingerprint);
        if r.is_ok() {
            self.filter.set(b, bucket);
            assert(self@ =~= old(self)@.update(b as int, bucket@));
        }
        r
    }

    /// `Bucket::try_delete` on bucket `b`.
    fn try_delete_at(&mut self, b: usize, fingerprint: Fingerprint) -> (r: Result<(), BucketError>)
        requires
            old(self).wf(),
            b < old(self)@.len(),
        ensures
            final(self).wf(),
            r is Ok <==> old(self)@[b as int].contains(fingerprint@),
            r is Ok ==> exists|k: int|
                is_first(old(self)@[b as int], fingerprint@, k) && final(self)@ == old(
                    self,
                )@.update(b as int, old(self)@[b as int].update(k, EMPTY)),
            r is Err ==> final(self)@ == old(self)@ && r == Err::<(), BucketError>(
                BucketError::FingerprintNotFound { fingerprint: fingerprint@ },
            ),
    {
        let mut bucket = self.filter[b];
        let r = bucket.try_delete(fingerprint);
        if r.is_ok() {
            self.filter.set(b, bucket);
            assert(self@ =~= old(self)@.update(b as int, bucket@));
        }
        r
    }

    /// Inserts the item whose hash is `hash`. Its fingerprint goes to the
    /// first empty slot of its first candidate bucket, else of its second.
    /// When both are full, a randomly chosen slot of one of them is taken
    /// and the fingerprint evicted from it moves to its own alternate
    /// bucket, and so on for up to `MAX_REBUCKET` moves. If no move frees a
    /// slot the insert fails with `BucketFull` and the filter is left as it
    /// was.
    pub fn insert_hash(&mut self, hash: u64) -> (r: Result<(), BucketError>)
        requires
            old(self).wf(),
        ensures
            final(self).wf(),
            insert_post(old(self)@, final(self)@, hash, r),
    {
        let ghost orig = self@;
        let ghost nb = self@.len();
        let fingerprint = Fingerprint::create(hash);
        let i1 = self.primary_bucket(hash);
        let i2 = self.alternate_bucket(i1, fingerprint);
        let ghost g = fingerprint@;
        proof {
            lemma_alt_index(i1 as int, g, nb);
        }
        if self.try_insert_at(i1, fingerprint).is_ok() {
            proof {
                let k = choose|k: int|
                    is_first(orig[i1 as int], EMPTY, k) && self@ == orig.update(
                        i1 as int,
                        orig[i1 as int].update(k, g),
                    );
                lemma_fill_slot(orig, i1 as int, k, g);
                lemma_empty_slots_update(orig, i1 as int, k, g);
            }
            return Ok(());
        }
        if self.try_insert_at(i2, fingerprint).is_ok() {
            proof {
                let k = choose|k: int|
                    is_first(orig[i2 as int], EMPTY, k) && self@ == orig.update(
                        i2 as int,
                        orig[i2 as int].update(k, g),
                    );
                lemma_fill_slot(orig, i2 as int, k, g);
                lemma_empty_slots_update(orig, i2 as int, k, g);
                lemma_pair_change_alt(orig, self@, g, i1 as int);
            }
            return Ok(());
        }
        let mut log: Vec<(usize, usize, u8)> = Vec::new();
        let mut cur: usize = if random_below(2) == 0 {
            i1
        } else {
            i2
        };
        let mut victim = fingerprint;
        proof {
            assert forall|f: u8, j: int| f != EMPTY && 0 <= j < nb implies #[trigger] stored(
                self@,
                f,
                j,
            ) + (if f == victim@ && in_pair(cur as int, j, f, nb) {
                1nat
            } else {
                0nat
            }) == stored(orig, f, j) + (if f == g && in_pair(i1 as int, j, f, nb) {
                1nat
            } else {
                0nat
            }) by {
                lemma_in_pair_alt(i1 as int, j, g, nb);
            }
        }
        let mut moves: u16 = 0;
        while moves < MAX_REBUCKET
            invariant
                self.wf(),
                self@.len() == nb,
                orig == old(self)@,
                buckets_wf(orig),
                orig.len() == nb,
                g == fingerprint_of(hash),
                i1 == primary_index(hash, nb),
                i2 == alt_index(i1 as int, g, nb),
                i1 < nb,
                i2 < nb,
                !orig[i1 as int].contains(EMPTY),
                !orig[i2 as int].contains(EMPTY),
                cur < nb,
                victim@ != EMPTY,
                !self@[cur as int].contains(EMPTY),
                forall|f: u8, j: int|
                    f != EMPTY && 0 <= j < nb ==> #[trigger] stored(self@, f, j) + (if f == victim@
                        && in_pair(cur as int, j, f, nb) {
                        1nat
                    } else {
                        0nat
                    }) == stored(orig, f, j) + (if f == g && in_pair(i1 as int, j, f, nb) {
                        1nat
                    } else {
                        0nat
                    }),
                undo(self@, log@) == orig,
                forall|t: int|
                    0 <= t < log@.len() ==> (#[trigger] log@[t]).0 < nb && log@[t].1
                        < BUCKET_SIZE,
                is_full(orig) ==> is_full(self@),
                empty_slots(self@) == empty_slots(orig),
            decreases MAX_REBUCKET - moves,
        {
            let k = random_below(BUCKET_SIZE);
            let evicted = self.read_slot(cur, k);
            let ghost before = self@;
            let ghost before_log = log@;
            self.write_slot(cur, k, victim);
            log.push((cur, k, evicted.value));
            proof {
                assert(evicted@ != EMPTY) by {
                    assert(before[cur as int][k as int] == evicted@);
                }
                assert(log@.drop_last() =~= before_log);
                lemma_empty_slots_update(before, cur as int, k as int, victim@);
                assert(self@.update(cur as int, self@[cur as int].update(k as int, evicted@))
                    =~= before) by {
                    assert(self@[cur as int].update(k as int, evicted@) =~= before[cur as int]);
                }
                assert forall|f: u8, j: int| f != EMPTY && 0 <= j < nb implies #[trigger] stored(
                    self@,
                    f,
                    j,
                ) + (if f == evicted@ && in_pair(alt_index(cur as int, evicted@, nb), j, f, nb) {
                    1nat
                } else {
                    0nat
                }) == stored(orig, f, j) + (if f == g && in_pair(i1 as int, j, f, nb) {
                    1nat
                } else {
                    0nat
                }) by {
                    lemma_stored_update(before, cur as int, k as int, victim@, f, j);
                    lemma_in_pair_alt(cur as int, j, evicted@, nb);
                }
                if is_full(orig) {
                    assert forall|i: int| 0 <= i < nb implies !(#[trigger] self@[i]).contains(
                        EMPTY,
                    ) by {
                        if i == cur && self@[i].contains(EMPTY) {
                            let t = choose|t: int| 0 <= t < BUCKET_SIZE && self@[i][t] == EMPTY;
                            assert(before[i][t] == EMPTY);
                        }
                    }
                }
            }
            let ghost prev = cur;
            victim = evicted;
            cur = self.alternate_bucket(cur, victim);
            let ghost placed = self@;
            if self.try_insert_at(cur, victim).is_ok() {
                proof {
                    let t = choose|t: int|
                        is_first(placed[cur as int], EMPTY, t) && self@ == placed.update(
                            cur as int,
                            placed[cur as int].update(t, victim@),
                        );
                    assert forall|f: u8, j: int| f != EMPTY && 0 <= j < nb implies #[trigger] stored(
                        self@,
                        f,
                        j,
                    ) == stored(orig, f, j) + if f == g && in_pair(i1 as int, j, f, nb) {
                        1nat
                    } else {
                        0nat
                    } by {
                        lemma_stored_update(placed, cur as int, t, victim@, f, j);
                    }
                    lemma_empty_slots_update(placed, cur as int, t, victim@);
                    if is_full(orig) {
                        assert(!placed[cur as int].contains(EMPTY));
                    }
                }
                return Ok(());
            }
            moves = moves + 1;
        }
        while log.len() > 0
            invariant
                self.wf(),
                self@.len() == nb,
                undo(self@, log@) == orig,
                forall|t: int|
                    0 <= t < log@.len() ==> (#[trigger] log@[t]).0 < nb && log@[t].1
                        < BUCKET_SIZE,
            decreases log.len(),
        {
            let ghost before_log = log@;
            let entry = log.pop().unwrap();
            proof {
                assert(entry == before_log.last());
                assert(log@ =~= before_log.drop_last());
            }
            self.write_slot(entry.0, entry.1, Fingerprint { value: entry.2 });
        }
        Err(BucketError::BucketFull { fingerprint: fingerprint.value })
    }

    /// Whether the item whose hash is `hash` may be in the filter: its
    /// fingerprint is in one of its two candidate buckets.
    pub fn contains_hash(&self, hash: u64) -> (r: bool)
        requires
            self.wf(),
        ensures
            r == contains_spec(self@, hash),
    {
        let fingerprint = Fingerprint::create(hash);
        let i1 = self.primary_bucket(hash);
        let i2 = self.alternate_bucket(i1, fingerprint);
        proof {
            lemma_stored_contains(self@, fingerprint@, i1 as int);
        }
        self.bucket_contains(i1, fingerprint) || self.bucket_contains(i2, fingerprint)
    }

    /// Removes one copy of the fingerprint of the item whose hash is `hash`,
    /// from its first candidate bucket if it is there, else from its second;
    /// fails with `FingerprintNotFound` when neither holds it.
    pub fn delete_hash(&mut self, hash: u64) -> (r: Result<(), BucketError>)
        requires
            old(self).wf(),
        ensures
            final(self).wf(),
            delete_post(old(self)@, final(self)@, hash, r),
    {
        let ghost orig = self@;
        let fingerprint = Fingerprint::create(hash);
        let i1 = self.primary_bucket(hash);
        let i2 = self.alternate_bucket(i1, fingerprint);
        let ghost g = fingerprint@;
        proof {
            lemma_stored_contains(orig, g, i1 as int);
            lemma_alt_index(i1 as int, g, orig.len());
        }
        if self.try_delete_at(i1, fingerprint).is_ok() {
            proof {
                let k = choose|k: int|
                    is_first(orig[i1 as int], g, k) && self@ == orig.update(
                        i1 as int,
                        orig[i1 as int].update(k, EMPTY),
                    );
                lemma_clear_slot(orig, i1 as int, k, g);
                lemma_empty_slots_update(orig, i1 as int, k, EMPTY);
            }
            return Ok(());
        }
        let r = self.try_delete_at(i2, fingerprint);
        proof {
            if r is Ok {
                let k = choose|k: int|
                    is_first(orig[i2 as int], g, k) && self@ == orig.update(
                        i2 as int,
                        orig[i2 as int].update(k, EMPTY),
                    );
                lemma_clear_slot(orig, i2 as int, k, g);
                lemma_empty_slots_update(orig, i2 as int, k, EMPTY);
                lemma_pair_change_alt(orig, self@, g, i1 as int);
            }
        }
        r
    }

    /// Empties every bucket; the number of buckets stays.
    pub fn reset(&mut self)
        requires
            old(self).wf(),
        ensures
            final(self).wf(),
            final(self)@.len() == old(self)@.len(),
            is_cleared(final(self)@),
            forall|h: u64| !#[trigger] contains_spec(final(self)@, h),
    {
        let ghost nb = self@.len();
        let mut i: usize = 0;
        while i < self.filter.len()
            invariant
                self.wf(),
                self@.len() == nb,
                0 <= i <= nb,
                forall|j: int|
                    0 <= j < i ==> #[trigger] self@[j] == Seq::new(
                        BUCKET_SIZE as nat,
                        |_k: int| EMPTY,
                    ),
            decreases nb - i,
        {
            let ghost before = self@;
            self.filter.set(i, Bucket::new());
            assert(self@ =~= before.update(i as int, Seq::new(BUCKET_SIZE as nat, |_k: int| EMPTY)));
            i += 1;
        }
        assert forall|h: u64| !#[trigger] contains_spec(self@, h) by {
            let g = fingerprint_of(h);
            let i1 = primary_index(h, nb);
            lemma_pow2_bound(nb);
            lemma_stored_contains(self@, g, i1);
            lemma_alt_index(i1, g, nb);
            assert(!self@[i1].contains(g));
            assert(!self@[alt_index(i1, g, nb)].contains(g));
        }
    }

    /// Inserts `item` (see `insert_hash`), hashed with xxHash64.
    pub fn insert<T: Hash>(&mut self, item: T) -> (r: Result<(), BucketError>)
        requires
            old(self).wf(),
        ensures
            final(self).wf(),
            exists|h: u64| insert_post(old(self)@, final(self)@, h, r),
    {
        let h = hash_item(&item, HASH_SEED);
        self.insert_hash(h)
    }

    /// Whether `item` may be in the filter (see `contains_hash`).
    pub fn contains<T: Hash>(&self, item: T) -> (r: bool)
        requires
            self.wf(),
        ensures
            exists|h: u64| r == contains_spec(self@, h),
    {
        let h = hash_item(&item, HASH_SEED);
        self.contains_hash(h)
    }

    /// Removes `item`'s fingerprint (see `delete_hash`).
    pub fn delete<T: Hash>(&mut self, item: T) -> (r: Result<(), BucketError>)
        requires
            old(self).wf(),
        ensures
            final(self).wf(),
            exists|h: u64| delete_post(old(self)@, final(self)@, h, r),
    {
        let h = hash_item(&item, HASH_SEED);
        self.delete_hash(h)
    }
}

} // verus!
