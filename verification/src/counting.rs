//! Finite counting: injections between ranges of equal size are onto, and an
//! image is no larger than what it is the image of.

use vstd::prelude::*;
use vstd::set_lib::*;

verus! {

/// An injection from `0..n` into `1..=n` reaches every value of `1..=n`.
pub proof fn lemma_injection_is_onto(f: spec_fn(int) -> int, n: int, v: int)
    requires
        forall|i: int| 0 <= i < n ==> 1 <= #[trigger] f(i) <= n,
        forall|i: int, j: int| 0 <= i < j < n ==> #[trigger] f(i) != #[trigger] f(j),
        1 <= v <= n,
    ensures
        exists|i: int| 0 <= i < n && #[trigger] f(i) == v,
{
    let domain = set_int_range(0, n);
    let range = set_int_range(1, n + 1);
    lemma_int_range(0, n);
    lemma_int_range(1, n + 1);
    let image = domain.map(f);
    assert(vstd::relations::injective_on(f, domain)) by {
        assert forall|i: int, j: int|
            domain.contains(i) && domain.contains(j) && #[trigger] f(i) == #[trigger] f(
                j,
            ) implies i == j by {
            if i < j {
                assert(f(i) != f(j));
            } else if j < i {
                assert(f(j) != f(i));
            }
        }
    }
    lemma_map_size(domain, image, f);
    assert(image.subset_of(range)) by {
        assert forall|x: int| image.contains(x) implies range.contains(x) by {
            let i = choose|i: int| domain.contains(i) && f(i) == x;
            assert(1 <= f(i) <= n);
        }
    }
    lemma_subset_equality(image, range);
    assert(range.contains(v));
    assert(image.contains(v));
    let i = choose|i: int| domain.contains(i) && f(i) == v;
    assert(0 <= i < n && f(i) == v);
}

/// Some `y` in `0..m` has `f(y) == v`.
pub open spec fn reached(f: spec_fn(int) -> int, m: int, v: int) -> bool {
    exists|y: int| 0 <= y < m && #[trigger] f(y) == v
}

/// If every value of `0..n` is `f(y)` for some `y` in `0..m`, then `n <= m`.
pub proof fn lemma_image_is_no_larger(f: spec_fn(int) -> int, m: int, n: int)
    requires
        0 <= m,
        0 <= n,
        forall|v: int| 0 <= v < n ==> #[trigger] reached(f, m, v),
    ensures
        n <= m,
{
    let domain = set_int_range(0, m);
    let range = set_int_range(0, n);
    lemma_int_range(0, m);
    lemma_int_range(0, n);
    let image = domain.map(f);
    lemma_map_size_bound(domain, image, f);
    assert(range.subset_of(image)) by {
        assert forall|v: int| range.contains(v) implies image.contains(v) by {
            assert(reached(f, m, v));
            let y = choose|y: int| 0 <= y < m && #[trigger] f(y) == v;
            assert(domain.contains(y));
        }
    }
    lemma_len_subset(range, image);
}

} // verus!
