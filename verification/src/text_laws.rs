//! What the text of a recovered polynomial says.

use crate::analysis;
use crate::bits;
use crate::recovery;
use crate::recurrence;
use vstd::prelude::*;

verus! {

/// The number that a text of decimal digits stands for.
pub open spec fn number_of(text: Seq<char>) -> int
    decreases text.len(),
{
    if text.len() == 0 {
        0
    } else {
        10 * number_of(text.drop_last()) + (text.last() as int - '0' as int)
    }
}

/// Numbers are written so that they read back: in digits only, at least one, and
/// without a leading zero but for 0 itself.
pub proof fn lemma_decimal_reads_back(n: nat)
    ensures
        number_of(analysis::decimal(n)) == n,
        analysis::decimal(n).len() >= 1,
        forall|i: int|
            0 <= i < analysis::decimal(n).len() ==> '0' <= #[trigger] analysis::decimal(n)[i]
                <= '9',
        analysis::decimal(n)[0] == '0' <==> n == 0,
        n == 0 ==> analysis::decimal(n).len() == 1,
    decreases n,
{
    let text = analysis::decimal(n);
    if n < 10 {
        assert(text.drop_last() =~= Seq::empty());
        reveal_with_fuel(number_of, 2);
    } else {
        let rest = analysis::decimal(n / 10);
        lemma_decimal_reads_back(n / 10);
        assert(text.drop_last() =~= rest);
        assert(text.last() == analysis::digit(n % 10));
        assert forall|i: int| 0 <= i < text.len() implies '0' <= #[trigger] text[i] <= '9' by {
            if i < rest.len() {
                assert(text[i] == rest[i]);
            }
        }
        assert(text[0] == rest[0]);
    }
}

/// Different numbers are written differently.
pub proof fn lemma_decimals_differ(a: nat, b: nat)
    requires
        analysis::decimal(a) == analysis::decimal(b),
    ensures
        a == b,
{
    lemma_decimal_reads_back(a);
    lemma_decimal_reads_back(b);
}

/// The terms with the given exponents, each with the sign before it, of a
/// polynomial of degree `degree`: a power of `x` each. Of degree two the only such
/// term is written as a bare `x`.
pub open spec fn listed(degree: nat, exponents: Seq<nat>) -> Seq<char>
    decreases exponents.len(),
{
    if exponents.len() == 0 {
        seq![]
    } else {
        listed(degree, exponents.drop_last()) + " + "@ + (if degree == 2 {
            "x"@
        } else {
            "x^"@ + analysis::decimal(exponents.last())
        })
    }
}

/// The exponents of the terms between the leading one and the constant, highest
/// first, are those of the coefficients that are one: coefficient `i` belongs to
/// the exponent `l - i`.
pub open spec fn are_exponents(l: nat, c: Seq<u8>, exponents: Seq<nat>) -> bool {
    &&& forall|t: int| 0 <= t < exponents.len() ==> 0 < #[trigger] exponents[t] < l
    &&& forall|s: int, t: int|
        0 <= s < t < exponents.len() ==> #[trigger] exponents[s] > #[trigger] exponents[t]
    &&& forall|e: nat|
        0 < e < l ==> (#[trigger] exponents.contains(e) <==> (l - e < c.len() && c[l - e] == 1))
}

/// The terms of the coefficients below `i`.
proof fn lemma_terms_below(l: nat, c: Seq<u8>, i: nat) -> (exponents: Seq<nat>)
    requires
        1 <= i <= l,
    ensures
        analysis::middle_terms(l, c, i) == listed(l, exponents),
        forall|t: int| 0 <= t < exponents.len() ==> l - i < #[trigger] exponents[t] < l,
        forall|s: int, t: int|
            0 <= s < t < exponents.len() ==> #[trigger] exponents[s] > #[trigger] exponents[t],
        forall|e: nat|
            l - i < e < l ==> (#[trigger] exponents.contains(e) <==> (l - e < c.len() && c[l - e]
                == 1)),
    decreases i,
{
    if i == 1 {
        Seq::empty()
    } else {
        let k = (i - 1) as nat;
        let rest = lemma_terms_below(l, c, k);
        let last = (l - k) as nat;
        if k < c.len() && c[k as int] == 1 {
            let all = rest.push(last);
            assert(all.drop_last() =~= rest);
            assert(analysis::middle_terms(l, c, i) =~= listed(l, all));
            assert forall|e: nat| l - i < e < l implies (#[trigger] all.contains(e) <==> (l - e
                < c.len() && c[l - e] == 1)) by {
                if e == last {
                    assert(all[rest.len() as int] == last);
                } else {
                    if rest.contains(e) {
                        let t = choose|t: int| 0 <= t < rest.len() && rest[t] == e;
                        assert(all[t] == e);
                    }
                    if all.contains(e) {
                        let t = choose|t: int| 0 <= t < all.len() && all[t] == e;
                        assert(rest[t] == e);
                    }
                }
            }
            all
        } else {
            assert(analysis::middle_terms(l, c, i) =~= analysis::middle_terms(l, c, k));
            assert forall|e: nat| l - i < e < l implies (#[trigger] rest.contains(e) <==> (l - e
                < c.len() && c[l - e] == 1)) by {
                if e == last && rest.contains(e) {
                    let t = choose|t: int| 0 <= t < rest.len() && rest[t] == e;
                    assert(rest[t] > l - k);
                }
            }
            rest
        }
    }
}

/// The text names the polynomial: it lists the leading term, the terms of the
/// coefficients that are one, from the highest exponent down, and the constant;
/// and the exponents between are the taps of the register that the polynomial
/// stands for.
pub proof fn lemma_text_names_polynomial(l: nat, c: Seq<u8>, taps: u32) -> (exponents: Seq<nat>)
    requires
        recovery::taps_of(taps, l, c),
    ensures
        are_exponents(l, c, exponents),
        analysis::poly_text(l, c) == "x^"@ + analysis::decimal(l) + listed(l, exponents) + " + "@
            + "1"@,
        forall|t: u32|
            0 < t < l && t < 32 ==> ((taps >> t) & 1 == 1 <==> #[trigger] exponents.contains(
                t as nat,
            )),
{
    let exponents = if l == 0 {
        Seq::<nat>::empty()
    } else {
        lemma_terms_below(l, c, l)
    };
    assert forall|t: u32| 0 < t < l && t < 32 implies ((taps >> t) & 1 == 1
        <==> #[trigger] exponents.contains(t as nat)) by {
        assert(bits::bit(taps, t) == (t < l && recurrence::coef(c, l - t)));
    }
    exponents
}

} // verus!
