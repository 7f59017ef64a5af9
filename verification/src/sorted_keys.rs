//! Keys in strictly increasing order, and the places that a value has among
//! them.

use vstd::prelude::*;

verus! {

/// The keys come in strictly increasing order, so none occurs twice.
pub open spec fn increasing(keys: Seq<int>) -> bool {
    forall|i: int, j: int| 0 <= i < j < keys.len() ==> keys[i] < keys[j]
}

/// The number of keys that lie before `x`.
pub open spec fn rank(keys: Seq<int>, x: int) -> nat
    decreases keys.len(),
{
    if keys.len() == 0 {
        0
    } else {
        rank(keys.drop_last(), x) + if keys.last() < x {
            1nat
        } else {
            0nat
        }
    }
}

/// The place of the last key at or before `x`, and that of the first key
/// where `x` lies before them all.
pub open spec fn segment(keys: Seq<int>, x: int) -> int {
    if rank(keys, x + 1) == 0 {
        0
    } else {
        rank(keys, x + 1) - 1
    }
}

/// Among increasing keys, those before `x` are the first `rank` keys.
pub proof fn lemma_rank(keys: Seq<int>, x: int)
    requires
        increasing(keys),
    ensures
        rank(keys, x) <= keys.len(),
        forall|i: int| 0 <= i < rank(keys, x) ==> keys[i] < x,
        forall|i: int| rank(keys, x) <= i < keys.len() ==> keys[i] >= x,
    decreases keys.len(),
{
    if keys.len() > 0 {
        let before = keys.drop_last();
        lemma_rank(before, x);
        let r = rank(before, x) as int;
        if keys.last() < x && r < before.len() {
            assert(before[r] >= x);
            assert(keys[r] < keys[keys.len() - 1]);
        }
        assert forall|i: int| 0 <= i < rank(keys, x) implies keys[i] < x by {
            if i < before.len() {
                assert(before[i] == keys[i]);
            }
        }
        assert forall|i: int| rank(keys, x) <= i < keys.len() implies keys[i] >= x by {
            if i < before.len() {
                assert(before[i] == keys[i]);
            }
        }
    }
}

/// If the first `k` of increasing keys lie before `x` and the others do
/// not, then `k` is the rank of `x`.
pub proof fn lemma_rank_is(keys: Seq<int>, x: int, k: int)
    requires
        increasing(keys),
        0 <= k <= keys.len(),
        forall|i: int| 0 <= i < k ==> keys[i] < x,
        forall|i: int| k <= i < keys.len() ==> keys[i] >= x,
    ensures
        rank(keys, x) == k,
{
    lemma_rank(keys, x);
    let r = rank(keys, x) as int;
    if r < k {
        assert(keys[r] >= x);
    } else if r > k {
        assert(keys[k] < x);
    }
}

/// If key `i` lies at or before `x`, or is the first key, and the key after
/// it lies after `x`, or there is none, then `i` is the segment of `x`.
pub proof fn lemma_segment_is(keys: Seq<int>, x: int, i: int)
    requires
        increasing(keys),
        0 <= i < keys.len(),
        i == 0 || keys[i] <= x,
        i + 1 < keys.len() ==> x < keys[i + 1],
    ensures
        segment(keys, x) == i,
{
    if keys[i] <= x {
        lemma_rank_is(keys, x + 1, i + 1);
    } else {
        lemma_rank_is(keys, x + 1, 0);
    }
}

/// The segment of `x` is a place among the keys.
pub proof fn lemma_segment(keys: Seq<int>, x: int)
    requires
        increasing(keys),
        keys.len() >= 1,
    ensures
        0 <= segment(keys, x) < keys.len(),
        segment(keys, x) == 0 || keys[segment(keys, x)] <= x,
        segment(keys, x) + 1 < keys.len() ==> x < keys[segment(keys, x) + 1],
{
    lemma_rank(keys, x + 1);
}

} // verus!
