//! Tables of `(key, value)` pairs in ascending order, searched by halving.

use vstd::prelude::*;
use vstd::seq_lib::*;

verus! {

/// Ascending order on pairs: by key, and by value where the keys are equal.
pub open spec fn pair_le(a: (u32, u32), b: (u32, u32)) -> bool {
    a.0 < b.0 || (a.0 == b.0 && a.1 <= b.1)
}

/// The pairs stand in ascending order.
pub open spec fn ascending(s: Seq<(u32, u32)>) -> bool {
    forall|i: int, j: int|
        0 <= i <= j < s.len() ==> pair_le(#[trigger] s[i], #[trigger] s[j])
}

/// Sort pairs with the standard library's `sort_unstable` on slices. Claimed of
/// it: the same pairs come out, each as often as it went in, and they come out
/// in the ascending order of pairs of integers.
#[verifier::external_body]
pub(crate) fn sort_pairs(pairs: &mut Vec<(u32, u32)>)
    ensures
        final(pairs)@.to_multiset() == old(pairs)@.to_multiset(),
        ascending(final(pairs)@),
{
    pairs.sort_unstable();
}

/// Two arrangements of the same pairs hold the same pairs.
pub proof fn lemma_same_pairs(a: Seq<(u32, u32)>, b: Seq<(u32, u32)>, p: (u32, u32))
    requires
        a.to_multiset() == b.to_multiset(),
    ensures
        a.contains(p) == b.contains(p),
        a.len() == b.len(),
{
    a.to_multiset_ensures();
    b.to_multiset_ensures();
    assert(a.contains(p) <==> a.to_multiset().count(p) > 0);
    assert(b.contains(p) <==> b.to_multiset().count(p) > 0);
}

/// Look `key` up: the largest value that stands beside it, or `None` if the
/// table does not hold it.
pub fn find_last(pairs: &Vec<(u32, u32)>, key: u32) -> (r: Option<u32>)
    requires
        ascending(pairs@),
    ensures
        match r {
            Some(v) => {
                &&& pairs@.contains((key, v))
                &&& forall|w: u32| #[trigger] pairs@.contains((key, w)) ==> w <= v
            },
            None => forall|w: u32| !#[trigger] pairs@.contains((key, w)),
        },
{
    // The pairs with keys up to `key` are the first `lo` ones.
    let mut lo: usize = 0;
    let mut hi: usize = pairs.len();
    while lo < hi
        invariant
            ascending(pairs@),
            lo <= hi <= pairs@.len(),
            forall|i: int| 0 <= i < lo ==> (#[trigger] pairs@[i]).0 <= key,
            forall|i: int| hi <= i < pairs@.len() ==> (#[trigger] pairs@[i]).0 > key,
        decreases hi - lo,
    {
        let mid: usize = lo + (hi - lo) / 2;
        if pairs[mid].0 <= key {
            assert forall|i: int| 0 <= i < mid + 1 implies (#[trigger] pairs@[i]).0 <= key by {
                assert(pair_le(pairs@[i], pairs@[mid as int]));
            }
            lo = mid + 1;
        } else {
            assert forall|i: int| mid <= i < pairs@.len() implies (#[trigger] pairs@[i]).0 > key by {
                assert(pair_le(pairs@[mid as int], pairs@[i]));
            }
            hi = mid;
        }
    }
    if lo > 0 && pairs[lo - 1].0 == key {
        let v: u32 = pairs[lo - 1].1;
        proof {
            assert(pairs@[lo - 1] == (key, v));
            assert forall|w: u32| #[trigger] pairs@.contains((key, w)) implies w <= v by {
                let i = choose|i: int| 0 <= i < pairs@.len() && pairs@[i] == (key, w);
                assert(pairs@[i].0 == key);
                assert(pair_le(pairs@[i], pairs@[lo - 1]));
            }
        }
        Some(v)
    } else {
        proof {
            assert forall|w: u32| !#[trigger] pairs@.contains((key, w)) by {
                if pairs@.contains((key, w)) {
                    let i = choose|i: int| 0 <= i < pairs@.len() && pairs@[i] == (key, w);
                    assert(pairs@[i].0 == key);
                    assert(pair_le(pairs@[i], pairs@[lo - 1]));
                }
            }
        }
        None
    }
}

} // verus!
