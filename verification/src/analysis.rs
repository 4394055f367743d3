//! Recovering a register from its output bits.

use crate::bits;
use crate::lfsr::Lfsr;
use crate::recovery;
use crate::recurrence;
use vstd::arithmetic::power2::*;
use vstd::prelude::*;

verus! {

/// Sum and product of GF(2) elements held in bytes.
proof fn lemma_byte_sum(d: u8, c: u8, x: u8)
    by (bit_vector)
    requires
        d <= 1,
        c <= 1,
    ensures
        d ^ (c & x) == (if (d == 1) != (c == 1 && x & 1 == 1) {
            1u8
        } else {
            0u8
        }),
        d ^ c == (if (d == 1) != (c == 1) {
            1u8
        } else {
            0u8
        }),
        x & 1 <= 1,
{
}

/// Every entry is 0 or 1.
pub open spec fn is_binary(c: Seq<u8>) -> bool {
    forall|j: int| 0 <= j < c.len() ==> #[trigger] c[j] <= 1
}

/// Add `b`, shifted up by `m`, to `c`.
fn add_shifted(c: &mut Vec<u8>, b: &Vec<u8>, m: usize)
    requires
        old(c)@.len() == b@.len(),
        m < b@.len(),
        is_binary(old(c)@),
        is_binary(b@),
    ensures
        final(c)@ == recurrence::added(old(c)@, b@, m as nat),
        is_binary(final(c)@),
{
    let ghost before = c@;
    let count: usize = b.len() - m;
    let mut j: usize = 0;
    while j < count
        invariant
            c@.len() == b@.len(),
            before.len() == b@.len(),
            m < b@.len(),
            count == b@.len() - m,
            b@.len() <= usize::MAX,
            j <= count,
            is_binary(before),
            is_binary(b@),
            forall|t: int| 0 <= t < b@.len() && !(m <= t < m + j) ==> #[trigger] c@[t] == before[t],
            forall|t: int| m <= t < m + j ==> #[trigger] c@[t] == before[t] ^ b@[t - m],
        decreases count - j,
    {
        c[j + m] = c[j + m] ^ b[j];
        j = j + 1;
    }
    proof {
        assert forall|t: int| 0 <= t < b@.len() implies (#[trigger] c@[t] <= 1 && (c@[t] == 1) == ((
        before[t] == 1) != recurrence::coef(b@, t - m))) by {
            if m <= t {
                lemma_byte_sum(before[t], b@[t - m], 0);
            }
        }
        assert(c@ =~= recurrence::added(before, b@, m as nat));
    }
}

/// How far `s[i]` is off the prediction of the recurrence: 1 if it differs.
fn discrepancy(s: &[u8], c: &Vec<u8>, i: usize, l: usize) -> (d: u8)
    requires
        i < s@.len(),
        l <= i,
        l < c@.len(),
        is_binary(c@),
    ensures
        d <= 1,
        d == 1 <==> recurrence::symbol(s@, i as int) != recurrence::predicted(
            s@,
            c@,
            i as int,
            l as nat,
        ),
{
    let mut d: u8 = s[i] & 1;
    proof {
        lemma_byte_sum(0, 0, s@[i as int]);
    }
    let mut j: usize = 0;
    while j < l
        invariant
            i < s@.len(),
            j <= l <= i,
            l < c@.len(),
            is_binary(c@),
            d <= 1,
            d == 1 <==> recurrence::symbol(s@, i as int) != recurrence::predicted(
                s@,
                c@,
                i as int,
                j as nat,
            ),
        decreases l - j,
    {
        j = j + 1;
        proof {
            lemma_byte_sum(d, c@[j as int], s@[i - j]);
        }
        d = d ^ (c[j] & s[i - j]);
    }
    d
}

/// Berlekamp-Massey over GF(2). Returns `(L, C)` where `L` is the minimal LFSR
/// length and `C` the connection polynomial (`C[0] == 1`), satisfying
/// `s[n] = XOR over i in 1..=L with C[i] == 1 of s[n - i]` for every symbol that
/// has `L` before it. Where the run is too short to determine `C`, it is the one
/// that correcting the recurrence at every failure arrives at.
pub fn berlekamp_massey(s: &[u8]) -> (r: (usize, Vec<u8>))
    requires
        s@.len() < usize::MAX,
    ensures
        r.0 <= s@.len(),
        r.0 == recurrence::massey(s@, s@.len()).l,
        r.1@ == recurrence::massey(s@, s@.len()).c.take(r.0 + 1),
        r.1@.len() == r.0 + 1,
        is_binary(r.1@),
        recurrence::generates(s@, r.1@, r.0 as nat, s@.len() as int),
        recurrence::shortest(s@, r.0 as nat, s@.len() as int),
{
    let n: usize = s.len();
    let mut c: Vec<u8> = vec![0u8; n + 1];
    let mut b: Vec<u8> = vec![0u8; n + 1];
    c[0] = 1;
    b[0] = 1;
    let mut l: usize = 0;
    let mut m: usize = 1;
    // The length that goes with `b`.
    let ghost mut lb: nat = 0;
    let mut i: usize = 0;
    proof {
        assert(c@ =~= recurrence::one(n as nat + 1));
        assert(b@ =~= recurrence::one(n as nat + 1));
    }
    while i < n
        invariant
            n == s@.len(),
            n < usize::MAX,
            i <= n,
            recurrence::massey(s@, i as nat) == (recurrence::Massey {
                c: c@,
                b: b@,
                l: l as nat,
                m: m as nat,
            }),
            c@.len() == n + 1,
            b@.len() == n + 1,
            is_binary(c@),
            is_binary(b@),
            recurrence::degree_within(c@, l as nat),
            recurrence::degree_within(b@, lb),
            recurrence::coef(b@, 0),
            recurrence::generates(s@, c@, l as nat, i as int),
            recurrence::shortest(s@, l as nat, i as int),
            l <= i,
            1 <= m <= i + 1,
            l + lb + m == i + 1,
            l > 0 ==> lb <= i - m && recurrence::generates(s@, b@, lb, i - m)
                && recurrence::symbol(s@, i - m) != recurrence::predicted(s@, b@, i - m, lb),
        decreases n - i,
    {
        let d: u8 = discrepancy(s, &c, i, l);
        if d == 0 {
            proof {
                recurrence::lemma_generates_more(s@, c@, l as nat, i as int);
                recurrence::lemma_shortest_grows(s@, l as nat, i as int);
            }
            m = m + 1;
        } else {
            let ghost before = c@;
            let t: Vec<u8> = c.clone();
            add_shifted(&mut c, &b, m);
            let longer: bool = l <= i - l;
            let ghost l2 = if longer {
                (i + 1 - l) as nat
            } else {
                l as nat
            };
            proof {
                assert(t@ =~= before);
                assert forall|j: int| #[trigger] recurrence::coef(c@, j) == (recurrence::coef(
                    before,
                    j,
                ) != recurrence::coef(b@, j - m)) by {
                    if j > n {
                        assert(!recurrence::coef(b@, j - m));
                    }
                }
                recurrence::lemma_corrected(
                    s@,
                    before,
                    l as nat,
                    i as int,
                    b@,
                    lb,
                    m as nat,
                    c@,
                    l2,
                );
                recurrence::lemma_shortest_after_failure(s@, before, l as nat, i as int, l2);
            }
            if longer {
                proof {
                    lb = l as nat;
                }
                l = i + 1 - l;
                b = t;
                m = 1;
            } else {
                m = m + 1;
            }
        }
        i = i + 1;
    }
    let ghost whole = c@;
    c.truncate(l + 1);
    proof {
        lemma_same_predictions(s@, whole, c@, l as nat);
    }
    (l, c)
}

/// Predictions of length `l` read the coefficients up to `l` only.
proof fn lemma_same_predictions(s: Seq<u8>, a: Seq<u8>, b: Seq<u8>, l: nat)
    requires
        forall|j: int| 0 <= j <= l ==> #[trigger] recurrence::coef(a, j) == recurrence::coef(b, j),
    ensures
        forall|n: int| #[trigger]
            recurrence::predicted(s, b, n, l) == recurrence::predicted(s, a, n, l),
    decreases l,
{
    assert forall|n: int| #[trigger] recurrence::predicted(s, b, n, l) == recurrence::predicted(
        s,
        a,
        n,
        l,
    ) by {
        if l > 0 {
            lemma_same_predictions(s, a, b, (l - 1) as nat);
            assert(recurrence::predicted(s, b, n, (l - 1) as nat) == recurrence::predicted(
                s,
                a,
                n,
                (l - 1) as nat,
            ));
            assert(recurrence::coef(a, l as int) == recurrence::coef(b, l as int));
        }
    }
}

/// Convert a Berlekamp-Massey connection polynomial to a right-shift Fibonacci
/// register. Tap bit `l - i` is set for each `i` in `1..=l` with `c[i] == 1`;
/// taps beyond the word are left out.
pub fn connection_to_lfsr(l: usize, c: &[u8]) -> (r: Lfsr)
    ensures
        r.bits == l as u32,
        recovery::taps_of(r.taps, l as nat, c@),
        forall|t: u32|
            t < 32 ==> ((#[trigger] (r.taps >> t)) & 1 == 1 <==> t < l && l - t < c@.len() && c@[l
                - t] == 1),
{
    let mut taps: u32 = 0;
    let one: u32 = 1;
    let mut i: usize = 0;
    proof {
        assert forall|t: u32| t < 32 implies !#[trigger] bits::bit(0, t) by {
            bits::lemma_word_bits(0, 0, t, t);
        }
    }
    while i < l
        invariant
            i <= l,
            one == 1,
            forall|t: u32|
                t < 32 ==> #[trigger] bits::bit(taps, t) == (l - i <= t < l && recurrence::coef(
                    c@,
                    l - t,
                )),
        decreases l - i,
    {
        i = i + 1;
        if i < c.len() && c[i] == 1 {
            let pos: usize = l - i;
            if pos < 32 {
                let ghost before = taps;
                taps = taps | (one << (pos as u32));
                proof {
                    assert forall|t: u32| t < 32 implies #[trigger] bits::bit(taps, t) == (l - i
                        <= t < l && recurrence::coef(c@, l - t)) by {
                        bits::lemma_or_bit(before, 1, pos as u32, t);
                        assert(bits::bit(before, t) == (l - i + 1 <= t < l && recurrence::coef(
                            c@,
                            l - t,
                        )));
                    }
                }
            }
        }
    }
    proof {
        assert forall|t: u32| t < 32 implies ((#[trigger] (taps >> t)) & 1 == 1 <==> t < l && l - t
            < c@.len() && c@[l - t] == 1) by {
            assert(bits::bit(taps, t) == (l - i <= t < l && recurrence::coef(c@, l - t)));
        }
    }
    Lfsr::new(l as u32, taps)
}

/// A decimal digit.
pub open spec fn digit(d: nat) -> char {
    (48 + d) as char
}

/// The decimal digits of a number.
pub open spec fn decimal(n: nat) -> Seq<char>
    decreases n,
{
    if n < 10 {
        seq![digit(n)]
    } else {
        decimal(n / 10).push(digit(n % 10))
    }
}

/// The terms of a polynomial below its leading one, for the coefficients `1..i`:
/// coefficient `j` stands for `x^(l - j)`. Only the first, where its exponent is
/// one, is written as a bare `x`.
pub open spec fn middle_terms(l: nat, c: Seq<u8>, i: nat) -> Seq<char>
    decreases i,
{
    if i <= 1 {
        seq![]
    } else {
        middle_terms(l, c, (i - 1) as nat) + (if recurrence::coef(c, i - 1) {
            " + "@ + (if i - 1 == 1 && l - (i - 1) == 1 {
                "x"@
            } else {
                "x^"@ + decimal((l - (i - 1)) as nat)
            })
        } else {
            seq![]
        })
    }
}

/// The text of a polynomial.
pub open spec fn poly_text(l: nat, c: Seq<u8>) -> Seq<char> {
    "x^"@ + decimal(l) + middle_terms(l, c, l) + " + "@ + "1"@
}

/// The text of a digit.
fn digit_text(d: usize) -> (r: &'static str)
    requires
        d < 10,
    ensures
        r@ == seq![digit(d as nat)],
{
    proof {
        reveal_strlit("0");
        reveal_strlit("1");
        reveal_strlit("2");
        reveal_strlit("3");
        reveal_strlit("4");
        reveal_strlit("5");
        reveal_strlit("6");
        reveal_strlit("7");
        reveal_strlit("8");
        reveal_strlit("9");
    }
    let r: &'static str = match d {
        0 => "0",
        1 => "1",
        2 => "2",
        3 => "3",
        4 => "4",
        5 => "5",
        6 => "6",
        7 => "7",
        8 => "8",
        _ => "9",
    };
    assert(r@ =~= seq![digit(d as nat)]);
    r
}

/// Append a number in decimal.
fn push_decimal(text: &mut String, n: usize)
    ensures
        final(text)@ == old(text)@ + decimal(n as nat),
    decreases n,
{
    if n >= 10 {
        push_decimal(text, n / 10);
    }
    text.append(digit_text(n % 10));
    proof {
        assert(text@ =~= old(text)@ + decimal(n as nat));
    }
}

/// Human-readable polynomial string, e.g. `x^20 + x^3 + 1`.
pub fn poly_string(l: usize, c: &[u8]) -> (r: String)
    ensures
        r@ == poly_text(l as nat, c@),
{
    let mut text: String = String::new();
    text.append("x^");
    push_decimal(&mut text, l);
    let ghost head = "x^"@ + decimal(l as nat);
    assert(text@ =~= head);
    let mut i: usize = 1;
    while i < l
        invariant
            1 <= i,
            i <= l || i == 1,
            text@ == head + middle_terms(l as nat, c@, i as nat),
        decreases l - i,
    {
        let ghost before = text@;
        if i < c.len() && c[i] == 1 {
            text.append(" + ");
            if i == 1 && l - i == 1 {
                text.append("x");
            } else {
                text.append("x^");
                push_decimal(&mut text, l - i);
            }
        }
        i = i + 1;
        assert(text@ =~= head + middle_terms(l as nat, c@, i as nat));
    }
    proof {
        if l == 0 {
            assert(middle_terms(l as nat, c@, 1) =~= middle_terms(l as nat, c@, 0));
        }
    }
    text.append(" + ");
    text.append("1");
    assert(text@ =~= poly_text(l as nat, c@));
    text
}

/// Length of the transform that covers `len` samples: the next power of two, at
/// least 2 and at most 2^20.
pub fn transform_len(len: usize) -> (n: usize)
    ensures
        exists|e: nat| 1 <= e <= 20 && n == #[trigger] pow2(e),
        n >= len || n == 1048576,
        n > 2 ==> n / 2 < len,
{
    let mut n: usize = 2;
    let ghost mut e: nat = 1;
    proof {
        lemma2_to64();
    }
    while n < len && n < 1048576
        invariant
            1 <= e <= 20,
            n == pow2(e),
            2 <= n <= 1048576,
            n > 2 ==> n / 2 < len,
        decreases 1048576 - n,
    {
        proof {
            lemma2_to64();
            lemma_pow2_unfold(e + 1);
            if e + 1 < 20 {
                lemma_pow2_strictly_increases(e + 1, 20);
            }
            e = e + 1;
        }
        n = n * 2;
    }
    n
}

} // verus!
