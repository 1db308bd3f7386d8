//! What holds of a Cuckoo filter across calls, stated over the bucket
//! contents that the operations' contracts describe.
use vstd::prelude::*;

use crate::cuckoo::{
    buckets_wf, contains_spec, delete_post, empty_slots, fingerprint_of, in_pair, insert_post,
    primary_index, stored, BucketError, BUCKET_SIZE, EMPTY,
};

verus! {

/// A completed call on a Cuckoo filter, named by the hash of its item.
pub enum Call {
    Insert(u64),
    Delete(u64),
}

/// Buckets `w` can follow buckets `v` through `call`, whatever it returned.
pub open spec fn call_post(v: Seq<Seq<u8>>, w: Seq<Seq<u8>>, call: Call) -> bool {
    match call {
        Call::Insert(h) => exists|r: Result<(), BucketError>| insert_post(v, w, h, r),
        Call::Delete(h) => exists|r: Result<(), BucketError>| delete_post(v, w, h, r),
    }
}

/// Items with hashes `h` and `other` get the same fingerprint and the same
/// pair of buckets among `nb`, so the filter cannot tell them apart.
pub open spec fn shares_entry(nb: nat, h: u64, other: u64) -> bool {
    &&& fingerprint_of(h) == fingerprint_of(other)
    &&& in_pair(primary_index(other, nb), primary_index(h, nb), fingerprint_of(h), nb)
}

proof fn lemma_call_keeps_found(v: Seq<Seq<u8>>, w: Seq<Seq<u8>>, call: Call, h: u64)
    requires
        buckets_wf(v),
        contains_spec(v, h),
        call_post(v, w, call),
        call is Delete ==> !shares_entry(v.len(), h, call->Delete_0),
    ensures
        w.len() == v.len(),
        contains_spec(w, h),
{
    let g = fingerprint_of(h);
    let i = primary_index(h, v.len());
    assert(0 <= i < v.len()) by {
        crate::cuckoo::lemma_pow2_bound(v.len());
    }
    match call {
        Call::Insert(h2) => {
            let r = choose|r: Result<(), BucketError>| insert_post(v, w, h2, r);
            if r is Ok {
                assert(stored(w, g, i) >= stored(v, g, i));
            }
        },
        Call::Delete(h2) => {
            let r = choose|r: Result<(), BucketError>| delete_post(v, w, h2, r);
            if r is Ok {
                assert(stored(w, g, i) == stored(v, g, i));
            }
        },
    }
}

/// No false negatives: once an insert of the item with hash `h` has
/// succeeded, the filter reports that item after any run of further
/// inserts, successful or not, and of deletes of items that do not share
/// its fingerprint and bucket pair.
pub proof fn lemma_cuckoo_no_false_negatives(
    before: Seq<Seq<u8>>,
    h: u64,
    states: Seq<Seq<Seq<u8>>>,
    calls: Seq<Call>,
)
    requires
        buckets_wf(before),
        states.len() == calls.len() + 1,
        insert_post(before, states[0], h, Ok(())),
        forall|i: int| 0 <= i < states.len() ==> buckets_wf(#[trigger] states[i]),
        forall|i: int|
            0 <= i < calls.len() ==> call_post(states[i], states[i + 1], #[trigger] calls[i]),
        forall|i: int|
            0 <= i < calls.len() && (#[trigger] calls[i]) is Delete ==> !shares_entry(
                before.len(),
                h,
                calls[i]->Delete_0,
            ),
    ensures
        contains_spec(states.last(), h),
{
    lemma_found_through(before, h, states, calls, calls.len() as int);
}

proof fn lemma_found_through(
    before: Seq<Seq<u8>>,
    h: u64,
    states: Seq<Seq<Seq<u8>>>,
    calls: Seq<Call>,
    n: int,
)
    requires
        0 <= n <= calls.len(),
        buckets_wf(before),
        states.len() == calls.len() + 1,
        insert_post(before, states[0], h, Ok(())),
        forall|i: int| 0 <= i < states.len() ==> buckets_wf(#[trigger] states[i]),
        forall|i: int|
            0 <= i < calls.len() ==> call_post(states[i], states[i + 1], #[trigger] calls[i]),
        forall|i: int|
            0 <= i < calls.len() && (#[trigger] calls[i]) is Delete ==> !shares_entry(
                before.len(),
                h,
                calls[i]->Delete_0,
            ),
    ensures
        states[n].len() == before.len(),
        contains_spec(states[n], h),
    decreases n,
{
    if n == 0 {
        let g = fingerprint_of(h);
        let i1 = primary_index(h, before.len());
        crate::cuckoo::lemma_pow2_bound(before.len());
        assert(stored(states[0], g, i1) == stored(before, g, i1) + 1);
    } else {
        lemma_found_through(before, h, states, calls, n - 1);
        assert(buckets_wf(states[n - 1]));
        assert(call_post(states[n - 1], states[n], calls[n - 1]));
        lemma_call_keeps_found(states[n - 1], states[n], calls[n - 1], h);
    }
}

/// After a successful delete of the item with hash `h`, the filter still
/// reports it exactly when it held another copy of that item's fingerprint
/// in the same bucket pair: an item that shares both is indistinguishable.
pub proof fn lemma_delete_then_contains(v: Seq<Seq<u8>>, w: Seq<Seq<u8>>, h: u64)
    requires
        buckets_wf(v),
        delete_post(v, w, h, Ok(())),
    ensures
        contains_spec(w, h) <==> stored(v, fingerprint_of(h), primary_index(h, v.len())) >= 2,
{
    let g = fingerprint_of(h);
    let i1 = primary_index(h, v.len());
    assert(g != EMPTY);
    crate::cuckoo::lemma_pow2_bound(v.len());
    assert(stored(w, g, i1) + 1 == stored(v, g, i1));
}

/// Inserts run out: a run of successful inserts, with no delete between
/// them, is no longer than the number of empty slots it started from, and
/// so no longer than `BUCKET_SIZE` per bucket. Inserting more items than
/// that returns `BucketFull` at least once.
pub proof fn lemma_inserts_run_out(states: Seq<Seq<Seq<u8>>>, hs: Seq<u64>)
    requires
        states.len() == hs.len() + 1,
        forall|i: int| 0 <= i < states.len() ==> buckets_wf(#[trigger] states[i]),
        forall|i: int|
            0 <= i < hs.len() ==> insert_post(states[i], states[i + 1], #[trigger] hs[i], Ok(())),
    ensures
        hs.len() <= empty_slots(states[0]) <= BUCKET_SIZE * states[0].len(),
{
    lemma_slots_used(states, hs, hs.len() as int);
    assert(buckets_wf(states[0]));
    crate::cuckoo::lemma_empty_slots_bound(states[0]);
}

proof fn lemma_slots_used(states: Seq<Seq<Seq<u8>>>, hs: Seq<u64>, n: int)
    requires
        0 <= n <= hs.len(),
        states.len() == hs.len() + 1,
        forall|i: int|
            0 <= i < hs.len() ==> insert_post(states[i], states[i + 1], #[trigger] hs[i], Ok(())),
    ensures
        empty_slots(states[n]) + n == empty_slots(states[0]),
    decreases n,
{
    if n > 0 {
        lemma_slots_used(states, hs, n - 1);
        assert(insert_post(states[n - 1], states[n], hs[n - 1], Ok(())));
    }
}

} // verus!
