//! What holds of a Bloom filter across calls, stated over the abstract
//! state that the operations' contracts describe.
use vstd::prelude::*;

use crate::bits::count_true;
use crate::bloom::{bit_index, BloomView};

verus! {

/// The state after inserting, in order, items with the hash pairs `hs`.
pub open spec fn insert_all(v: BloomView, hs: Seq<(u64, u64)>) -> BloomView
    decreases hs.len(),
{
    if hs.len() == 0 {
        v
    } else {
        insert_all(v, hs.drop_last()).insert_hashes(hs.last().0, hs.last().1)
    }
}

proof fn lemma_insert_all_keeps_bits(v: BloomView, hs: Seq<(u64, u64)>)
    requires
        v.wf(),
    ensures
        insert_all(v, hs).wf(),
        insert_all(v, hs).bit_size == v.bit_size,
        insert_all(v, hs).hash_fn_count == v.hash_fn_count,
        forall|j: int| 0 <= j < v.bit_size && v.bits[j] ==> #[trigger] insert_all(v, hs).bits[j],
    decreases hs.len(),
{
    if hs.len() > 0 {
        lemma_insert_all_keeps_bits(v, hs.drop_last());
    }
}

/// No false negatives: once the item with hashes `h1` and `h2` is
/// inserted, the filter reports it, whatever is inserted after it.
pub proof fn lemma_bloom_no_false_negatives(v: BloomView, h1: u64, h2: u64, later: Seq<(u64, u64)>)
    requires
        v.wf(),
    ensures
        insert_all(v.insert_hashes(h1, h2), later).contains_hashes(h1, h2),
{
    let w = v.insert_hashes(h1, h2);
    let m = v.bit_size as int;
    assert forall|i: int| 0 <= i < w.hash_fn_count implies #[trigger] w.bits[bit_index(
        h1,
        h2,
        i,
        m,
    )] by {
        vstd::arithmetic::div_mod::lemma_mod_bound((h1 + i * h2) % 0x1_0000_0000_0000_0000, m);
    }
    lemma_insert_all_keeps_bits(w, later);
    assert forall|i: int| 0 <= i < w.hash_fn_count implies #[trigger] insert_all(
        w,
        later,
    ).bits[bit_index(h1, h2, i, m)] by {
        vstd::arithmetic::div_mod::lemma_mod_bound((h1 + i * h2) % 0x1_0000_0000_0000_0000, m);
        assert(w.bits[bit_index(h1, h2, i, m)]);
    }
}

proof fn lemma_count_none(s: Seq<bool>)
    requires
        forall|j: int| 0 <= j < s.len() ==> !s[j],
    ensures
        count_true(s) == 0,
    decreases s.len(),
{
    if s.len() > 0 {
        lemma_count_none(s.drop_last());
    }
}

/// After a reset the filter reports no item and counts no set bit.
pub proof fn lemma_reset_forgets(v: BloomView, h1: u64, h2: u64)
    requires
        v.wf(),
    ensures
        !v.cleared().contains_hashes(h1, h2),
        count_true(v.cleared().bits) == 0,
{
    let m = v.bit_size as int;
    vstd::arithmetic::div_mod::lemma_mod_bound((h1 + 0 * h2) % 0x1_0000_0000_0000_0000, m);
    let c = v.cleared();
    assert(!c.bits[bit_index(h1, h2, 0, c.bit_size as int)]);
    if c.contains_hashes(h1, h2) {
        assert(c.bits[bit_index(h1, h2, 0, c.bit_size as int)]);
    }
    lemma_count_none(v.cleared().bits);
}

} // verus!
