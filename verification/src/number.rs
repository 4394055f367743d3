//! Elementary number theory: divisibility, prime factorisation, modular inverses
//! and the Chinese Remainder Theorem.

use vstd::arithmetic::div_mod::*;
use vstd::arithmetic::mul::*;
use vstd::arithmetic::power::*;
use vstd::prelude::*;

verus! {

/// `d` divides `n`.
pub open spec fn divides(d: int, n: int) -> bool {
    d > 0 && n % d == 0
}

/// Greatest common divisor, by Euclid.
pub open spec fn gcd(a: nat, b: nat) -> nat
    decreases b,
{
    if b == 0 {
        a
    } else {
        gcd(b, a % b)
    }
}

pub open spec fn is_prime(p: int) -> bool {
    p > 1 && forall|d: int| 1 < d < p ==> !#[trigger] divides(d, p)
}

/// `q` is `p^e` for some `e >= 1`.
pub open spec fn is_power_of(q: int, p: int) -> bool {
    exists|e: nat| e >= 1 && q == #[trigger] pow(p, e)
}

/// The quotient is a witness for divisibility.
pub proof fn lemma_quotient(d: int, n: int)
    requires
        divides(d, n),
    ensures
        n == d * (n / d),
{
    lemma_fundamental_div_mod(n, d);
}

/// A multiple is divisible.
pub proof fn lemma_multiple(d: int, k: int)
    requires
        d > 0,
    ensures
        divides(d, d * k),
        divides(d, k * d),
        (d * k) / d == k,
{
    lemma_mod_multiples_basic(k, d);
    lemma_mul_is_commutative(d, k);
    lemma_div_multiples_vanish(k, d);
}

/// Linear combinations keep a common divisor.
pub proof fn lemma_divides_sum(d: int, a: int, b: int, x: int, y: int)
    requires
        divides(d, a),
        divides(d, b),
    ensures
        divides(d, a * x + b * y),
        divides(d, a * x - b * y),
{
    lemma_quotient(d, a);
    lemma_quotient(d, b);
    let p = a / d;
    let q = b / d;
    assert(a * x + b * y == d * (p * x + q * y) && a * x - b * y == d * (p * x - q * y))
        by (nonlinear_arith)
        requires
            a == d * p,
            b == d * q,
    ;
    lemma_multiple(d, p * x + q * y);
    lemma_multiple(d, p * x - q * y);
}

/// Divisibility is transitive.
pub proof fn lemma_divides_trans(d: int, m: int, n: int)
    requires
        divides(d, m),
        divides(m, n),
    ensures
        divides(d, n),
{
    lemma_quotient(m, n);
    lemma_divides_sum(d, m, m, n / m, 0);
}

/// A divisor of a positive number is no larger.
pub proof fn lemma_divisor_small(d: int, n: int)
    requires
        divides(d, n),
        n > 0,
    ensures
        d <= n,
        n / d >= 1,
        divides(n / d, n),
{
    lemma_quotient(d, n);
    let k = n / d;
    assert(k >= 1) by (nonlinear_arith)
        requires
            n == d * k,
            n > 0,
            d > 0,
    ;
    assert(d <= n) by (nonlinear_arith)
        requires
            n == d * k,
            k >= 1,
            d > 0,
    ;
    lemma_multiple(k, d);
}

/// The greatest common divisor divides both, and is a combination of both.
pub proof fn lemma_gcd(a: nat, b: nat) -> (uv: (int, int))
    requires
        a > 0 || b > 0,
    ensures
        divides(gcd(a, b) as int, a as int),
        divides(gcd(a, b) as int, b as int),
        a * uv.0 + b * uv.1 == gcd(a, b),
    decreases b,
{
    if b == 0 {
        lemma_mod_self_0(a as int);
        (1, 0)
    } else {
        let (u, v) = lemma_gcd(b, a % b);
        let q = (a / b) as int;
        lemma_fundamental_div_mod(a as int, b as int);
        lemma_divides_sum(gcd(a, b) as int, b as int, (a % b) as int, q, 1);
        assert(a * v + b * (u - q * v) == b * u + (a - b * q) * v) by (nonlinear_arith);
        (v, u - q * v)
    }
}

/// If `m` is coprime to `a` and divides `a * c`, it divides `c`.
pub proof fn lemma_coprime_divides(a: nat, m: nat, c: int)
    requires
        m > 0,
        gcd(a, m) == 1,
        divides(m as int, a * c),
    ensures
        divides(m as int, c),
{
    let (u, v) = lemma_gcd(a, m);
    let ac = a * c;
    assert(c == ac * u + m * (c * v)) by (nonlinear_arith)
        requires
            a * u + m * v == 1,
            ac == a * c,
    ;
    lemma_multiple(m as int, 1);
    assert(m * 1 == m);
    lemma_divides_sum(m as int, ac, m as int, u, c * v);
}

/// Two numbers coprime to `m` have a product coprime to `m`.
pub proof fn lemma_coprime_product(a: nat, b: nat, m: nat)
    requires
        m > 0,
        gcd(a, m) == 1,
        gcd(b, m) == 1,
    ensures
        gcd(a * b, m) == 1,
{
    let (u, v) = lemma_gcd(a, m);
    let (s, t) = lemma_gcd(b, m);
    lemma_gcd(a * b, m);
    let g = gcd(a * b, m) as int;
    let ab = (a * b) as int;
    let (au, mv, bs, mt) = (a * u, m * v, b * s, m * t);
    let w = au * t + v * bs + mv * t;
    assert((au + mv) * (bs + mt) == au * bs + au * mt + mv * bs + mv * mt) by (nonlinear_arith);
    assert((au + mv) * (bs + mt) == 1) by (nonlinear_arith)
        requires
            au + mv == 1,
            bs + mt == 1,
    ;
    assert(au * mt == m * (au * t)) by (nonlinear_arith)
        requires
            mt == m * t,
    ;
    assert(mv * bs == m * (v * bs)) by (nonlinear_arith)
        requires
            mv == m * v,
    ;
    assert(mv * mt == m * (mv * t)) by (nonlinear_arith)
        requires
            mt == m * t,
    ;
    assert(au * bs == ab * (u * s)) by (nonlinear_arith)
        requires
            au == a * u,
            bs == b * s,
            ab == a * b,
    ;
    assert(m * w == m * (au * t) + m * (v * bs) + m * (mv * t)) by (nonlinear_arith)
        requires
            w == au * t + v * bs + mv * t,
    ;
    lemma_divides_sum(g, ab, m as int, u * s, w);
    lemma_divisor_small(g, 1);
}

/// Every number above one has a prime divisor.
pub proof fn lemma_prime_divisor(n: int) -> (p: int)
    requires
        n > 1,
    ensures
        is_prime(p),
        divides(p, n),
    decreases n,
{
    if is_prime(n) {
        lemma_mod_self_0(n);
        n
    } else {
        let d = choose|d: int| 1 < d < n && #[trigger] divides(d, n);
        let p = lemma_prime_divisor(d);
        lemma_divides_trans(p, d, n);
        p
    }
}

/// A prime is coprime to whatever it does not divide.
pub proof fn lemma_prime_coprime(a: nat, p: nat)
    requires
        is_prime(p as int),
        !divides(p as int, a as int),
    ensures
        gcd(a, p) == 1,
{
    lemma_gcd(a, p);
    let g = gcd(a, p) as int;
    lemma_divisor_small(g, p as int);
    if 1 < g < p {
        assert(divides(g, p as int));
    }
}

/// A prime that divides a product divides a factor.
pub proof fn lemma_prime_divides_product(p: int, a: nat, b: nat)
    requires
        is_prime(p),
        divides(p, (a * b) as int),
    ensures
        divides(p, a as int) || divides(p, b as int),
{
    if !divides(p, a as int) {
        lemma_prime_coprime(a, p as nat);
        lemma_coprime_divides(a, p as nat, b as int);
    }
}

/// A prime that divides a power of a prime is that prime.
pub proof fn lemma_prime_divides_power(r: int, p: int, e: nat)
    requires
        is_prime(r),
        is_prime(p),
        divides(r, pow(p, e)),
    ensures
        r == p,
    decreases e,
{
    reveal(pow);
    if e == 0 {
        lemma_divisor_small(r, 1);
    } else {
        let d = (e - 1) as nat;
        lemma_pow_positive(p, d);
        lemma_prime_divides_product(r, p as nat, pow(p, d) as nat);
        if divides(r, p) {
            lemma_divisor_small(r, p);
            if r < p {
                assert(!divides(r, p));
            }
        } else {
            lemma_prime_divides_power(r, p, d);
        }
    }
}

/// A power of a prime is positive and divisible by the prime.
pub proof fn lemma_prime_power_divisible(q: int, p: int)
    requires
        is_prime(p),
        is_power_of(q, p),
    ensures
        q > 0,
        divides(p, q),
{
    let e = choose|e: nat| e >= 1 && q == #[trigger] pow(p, e);
    lemma_pow_positive(p, e);
    reveal(pow);
    lemma_multiple(p, pow(p, (e - 1) as nat));
}

/// Powers of different primes are coprime.
pub proof fn lemma_prime_powers_coprime(a: nat, p: int, b: nat, q: int)
    requires
        is_prime(p),
        is_prime(q),
        p != q,
        is_power_of(a as int, p),
        is_power_of(b as int, q),
    ensures
        gcd(a, b) == 1,
{
    let e = choose|e: nat| e >= 1 && a == #[trigger] pow(p, e);
    let f = choose|f: nat| f >= 1 && b == #[trigger] pow(q, f);
    lemma_pow_positive(p, e);
    lemma_gcd(a, b);
    let g = gcd(a, b) as int;
    if g > 1 {
        let r = lemma_prime_divisor(g);
        lemma_divides_trans(r, g, a as int);
        lemma_divides_trans(r, g, b as int);
        lemma_prime_divides_power(r, p, e);
        lemma_prime_divides_power(r, q, f);
    }
}

/// The product of the first components.
pub open spec fn product_of(s: Seq<(u64, u64)>) -> nat
    decreases s.len(),
{
    if s.len() == 0 {
        1
    } else {
        product_of(s.drop_last()) * (s.last().0 as nat)
    }
}

/// `s` is the factorisation of `n` into powers of increasing primes, each entry
/// being the prime power and the prime.
pub open spec fn is_factorisation(n: nat, s: Seq<(u64, u64)>) -> bool {
    &&& product_of(s) == n
    &&& forall|i: int|
        0 <= i < s.len() ==> is_prime((#[trigger] s[i]).1 as int) && is_power_of(
            s[i].0 as int,
            s[i].1 as int,
        )
    &&& forall|i: int, j: int| 0 <= i < j < s.len() ==> (#[trigger] s[i]).1 < (#[trigger] s[j]).1
}

/// Every entry divides the product.
pub proof fn lemma_product_divisors(s: Seq<(u64, u64)>)
    requires
        forall|i: int| 0 <= i < s.len() ==> (#[trigger] s[i]).0 > 0,
    ensures
        product_of(s) > 0,
        forall|i: int|
            0 <= i < s.len() ==> divides((#[trigger] s[i]).0 as int, product_of(s) as int),
    decreases s.len(),
{
    if s.len() > 0 {
        let t = s.drop_last();
        let m = s.last().0 as int;
        assert forall|i: int| 0 <= i < t.len() implies (#[trigger] t[i]).0 > 0 by {
            assert(t[i] == s[i]);
        }
        lemma_product_divisors(t);
        let p = product_of(t) as int;
        assert(p * m > 0) by (nonlinear_arith)
            requires
                p > 0,
                m > 0,
        ;
        lemma_multiple(m, p);
        lemma_multiple(p, m);
        assert forall|i: int| 0 <= i < s.len() implies divides(
            (#[trigger] s[i]).0 as int,
            product_of(s) as int,
        ) by {
            if i < t.len() {
                assert(t[i] == s[i]);
                lemma_divides_trans(s[i].0 as int, p, p * m);
            }
        }
    }
}

/// A prime divisor of a factorised number is one of the listed primes.
pub proof fn lemma_prime_is_listed(s: Seq<(u64, u64)>, r: int) -> (i: int)
    requires
        is_prime(r),
        divides(r, product_of(s) as int),
        forall|i: int|
            0 <= i < s.len() ==> is_prime((#[trigger] s[i]).1 as int) && is_power_of(
                s[i].0 as int,
                s[i].1 as int,
            ),
    ensures
        0 <= i < s.len(),
        s[i].1 == r,
    decreases s.len(),
{
    if s.len() == 0 {
        lemma_divisor_small(r, 1);
        0
    } else {
        let t = s.drop_last();
        let last = s.last();
        assert forall|i: int| 0 <= i < t.len() implies is_prime((#[trigger] t[i]).1 as int)
            && is_power_of(t[i].0 as int, t[i].1 as int) by {
            assert(t[i] == s[i]);
        }
        assert(s[s.len() - 1] == last);
        lemma_prime_divides_product(r, product_of(t), last.0 as nat);
        if divides(r, last.0 as int) {
            let e = choose|e: nat| e >= 1 && last.0 == #[trigger] pow(last.1 as int, e);
            lemma_prime_divides_power(r, last.1 as int, e);
            s.len() - 1
        } else {
            let i = lemma_prime_is_listed(t, r);
            assert(t[i] == s[i]);
            i
        }
    }
}

/// A product of powers of other primes is coprime to a power of `p`.
proof fn lemma_product_coprime(s: Seq<(u64, u64)>, q: nat, p: int)
    requires
        is_prime(p),
        is_power_of(q as int, p),
        forall|i: int|
            0 <= i < s.len() ==> is_prime((#[trigger] s[i]).1 as int) && is_power_of(
                s[i].0 as int,
                s[i].1 as int,
            ) && s[i].1 != p,
    ensures
        gcd(product_of(s), q) == 1,
    decreases s.len(),
{
    lemma_prime_power_divisible(q as int, p);
    if s.len() == 0 {
        lemma_gcd(1, q);
        lemma_divisor_small(gcd(1, q) as int, 1);
    } else {
        let t = s.drop_last();
        assert forall|i: int| 0 <= i < t.len() implies is_prime((#[trigger] t[i]).1 as int)
            && is_power_of(t[i].0 as int, t[i].1 as int) && t[i].1 != p by {
            assert(t[i] == s[i]);
        }
        lemma_product_coprime(t, q, p);
        assert(s[s.len() - 1] == s.last());
        lemma_prime_powers_coprime(s.last().0 as nat, s.last().1 as int, q, p);
        lemma_coprime_product(product_of(t), s.last().0 as nat, q);
    }
}

/// A prime power that divides a factorised number divides one of the listed
/// prime powers.
pub proof fn lemma_prime_power_listed(s: Seq<(u64, u64)>, q: nat, p: int) -> (i: int)
    requires
        is_prime(p),
        is_power_of(q as int, p),
        divides(q as int, product_of(s) as int),
        forall|i: int|
            0 <= i < s.len() ==> is_prime((#[trigger] s[i]).1 as int) && is_power_of(
                s[i].0 as int,
                s[i].1 as int,
            ),
        forall|i: int, j: int|
            0 <= i < j < s.len() ==> (#[trigger] s[i]).1 < (#[trigger] s[j]).1,
    ensures
        0 <= i < s.len(),
        divides(q as int, s[i].0 as int),
    decreases s.len(),
{
    lemma_prime_power_divisible(q as int, p);
    if s.len() == 0 {
        lemma_divisor_small(q as int, 1);
        lemma_divisor_small(p, q as int);
        0
    } else {
        let t = s.drop_last();
        let last = s.last();
        assert(s[s.len() - 1] == last);
        assert forall|i: int| 0 <= i < t.len() implies is_prime((#[trigger] t[i]).1 as int)
            && is_power_of(t[i].0 as int, t[i].1 as int) && t[i].1 < last.1 by {
            assert(t[i] == s[i]);
        }
        assert forall|i: int, j: int| 0 <= i < j < t.len() implies (#[trigger] t[i]).1 < (
        #[trigger] t[j]).1 by {
            assert(t[i] == s[i] && t[j] == s[j]);
        }
        if last.1 == p {
            lemma_product_coprime(t, q, p);
            lemma_coprime_divides(product_of(t), q, last.0 as int);
            s.len() - 1
        } else {
            lemma_prime_powers_coprime(last.0 as nat, last.1 as int, q, p);
            lemma_mul_is_commutative(product_of(t) as int, last.0 as int);
            lemma_coprime_divides(last.0 as nat, q, product_of(t) as int);
            let i = lemma_prime_power_listed(t, q, p);
            assert(t[i] == s[i]);
            i
        }
    }
}

/// A proper divisor of a factorised number divides the number with one of the
/// listed primes taken out.
pub proof fn lemma_proper_divisor(n: nat, s: Seq<(u64, u64)>, t: int) -> (i: int)
    requires
        is_factorisation(n, s),
        n > 0,
        divides(t, n as int),
        t < n,
    ensures
        0 <= i < s.len(),
        divides(s[i].1 as int, n as int),
        divides(t, n as int / s[i].1 as int),
{
    let c = n as int / t;
    lemma_quotient(t, n as int);
    lemma_divisor_small(t, n as int);
    assert(c > 1) by (nonlinear_arith)
        requires
            n == t * c,
            t < n,
            c >= 1,
    ;
    let r = lemma_prime_divisor(c);
    lemma_divides_trans(r, c, n as int);
    let i = lemma_prime_is_listed(s, r);
    lemma_quotient(r, c);
    let k = c / r;
    assert(n == r * (t * k)) by (nonlinear_arith)
        requires
            n == t * c,
            c == r * k,
    ;
    lemma_multiple(r, t * k);
    lemma_multiple(t, k);
    i
}

/// Prime-power factorisation of `n` as `(p^e, p)` pairs, by trial division.
pub fn factor_prime_powers(n: u64) -> (out: Vec<(u64, u64)>)
    ensures
        n > 0 ==> is_factorisation(n as nat, out@),
        n == 0 ==> out@.len() == 0,
{
    let ghost whole = n as nat;
    let mut n: u64 = n;
    let mut out: Vec<(u64, u64)> = Vec::new();
    let mut d: u64 = 2;
    proof {
        assert(product_of(out@) == 1);
        lemma_mul_basics(n as int);
    }
    while d <= n / d
        invariant
            d >= 2,
            whole <= u64::MAX,
            whole == 0 ==> n == 0 && out@.len() == 0,
            whole > 0 ==> n > 0,
            product_of(out@) * n == whole,
            forall|q: int| 1 < q < d && n > 0 ==> !#[trigger] divides(q, n as int),
            forall|i: int|
                0 <= i < out@.len() ==> is_prime((#[trigger] out@[i]).1 as int) && is_power_of(
                    out@[i].0 as int,
                    out@[i].1 as int,
                ) && out@[i].1 < d,
            forall|i: int, j: int|
                0 <= i < j < out@.len() ==> (#[trigger] out@[i]).1 < (#[trigger] out@[j]).1,
            n <= whole,
        decreases whole - d,
    {
        proof {
            lemma_div_bounds(n, d);
        }
        if n % d == 0 {
            let ghost before = n;
            let ghost old_out = out@;
            let mut pe: u64 = 1;
            let ghost mut e: nat = 0;
            proof {
                reveal(pow);
                assert forall|q: int| 1 < q < d implies !#[trigger] divides(q, d as int) by {
                    if divides(q, d as int) {
                        lemma_divides_trans(q, d as int, n as int);
                    }
                }
                lemma_mul_basics(n as int);
            }
            while n % d == 0
                invariant
                    d >= 2,
                    n > 0,
                    n <= before,
                    pe >= 1,
                    pe * n == before,
                    pe == pow(d as int, e),
                    e == 0 ==> n == before && before % d == 0,
                    forall|q: int| 1 < q < d ==> !#[trigger] divides(q, n as int),
                decreases n,
            {
                let ghost k = n / d;
                proof {
                    lemma_quotient(d as int, n as int);
                    reveal(pow);
                    assert(pow(d as int, (e + 1) as nat) == d * pow(d as int, e));
                    assert(0 < k < n && pe * d >= 1 && pe * d * k == before && pe * d <= before && pe * d == d * pe)
                        by (nonlinear_arith)
                        requires
                            n == d * k,
                            n > 0,
                            d >= 2,
                            pe >= 1,
                            pe * n == before,
                    ;
                    assert forall|q: int| 1 < q < d implies !#[trigger] divides(q, k as int) by {
                        if divides(q, k as int) {
                            lemma_multiple(k as int, d as int);
                            lemma_divides_trans(q, k as int, n as int);
                        }
                    }
                }
                pe = pe * d;
                n = n / d;
                proof {
                    e = e + 1;
                }
            }
            out.push((pe, d));
            proof {
                assert(e >= 1);
                assert(is_power_of(pe as int, d as int));
                assert(out@.drop_last() =~= old_out);
                assert(product_of(out@) == product_of(old_out) * pe);
                let p = product_of(old_out);
                assert((p * pe) * n == whole) by (nonlinear_arith)
                    requires
                        p * before == whole,
                        pe * n == before,
                ;
                assert forall|i: int| 0 <= i < out@.len() implies is_prime(
                    (#[trigger] out@[i]).1 as int,
                ) && is_power_of(out@[i].0 as int, out@[i].1 as int) && out@[i].1 < d + 1 by {
                    if i < old_out.len() {
                        assert(out@[i] == old_out[i]);
                    }
                }
                assert forall|i: int, j: int| 0 <= i < j < out@.len() implies (
                #[trigger] out@[i]).1 < (#[trigger] out@[j]).1 by {
                    assert(out@[i] == old_out[i]);
                    if j < old_out.len() {
                        assert(out@[j] == old_out[j]);
                    }
                }
            }
        }
        proof {
            assert forall|q: int| 1 < q < d + 1 && n > 0 implies !#[trigger] divides(
                q,
                n as int,
            ) by {}
        }
        d = d + 1;
    }
    if n > 1 {
        let ghost old_out = out@;
        proof {
            assert forall|q: int| 1 < q < n implies !#[trigger] divides(q, n as int) by {
                if divides(q, n as int) {
                    lemma_quotient(q, n as int);
                    lemma_divisor_small(q, n as int);
                    let k = n as int / q;
                    assert(k > 1) by (nonlinear_arith)
                        requires
                            n == q * k,
                            q < n,
                            k >= 1,
                    ;
                    assert(divides(k, n as int));
                    lemma_div_square(n, d, q, k);
                }
            }
            lemma_pow1(n as int);
            assert(is_power_of(n as int, n as int));
            if n < d {
                lemma_mod_self_0(n as int);
                assert(divides(n as int, n as int));
            }
        }
        out.push((n, n));
        proof {
            assert(out@.drop_last() =~= old_out);
            assert forall|i: int| 0 <= i < out@.len() implies is_prime((#[trigger] out@[i]).1 as int)
                && is_power_of(out@[i].0 as int, out@[i].1 as int) by {
                if i < old_out.len() {
                    assert(out@[i] == old_out[i]);
                }
            }
            assert forall|i: int, j: int| 0 <= i < j < out@.len() implies (#[trigger] out@[i]).1 < (
            #[trigger] out@[j]).1 by {
                assert(out@[i] == old_out[i]);
                if j < old_out.len() {
                    assert(out@[j] == old_out[j]);
                }
            }
        }
    } else {
        proof {
            lemma_mul_basics(product_of(out@) as int);
        }
    }
    out
}

proof fn lemma_div_bounds(n: u64, d: u64)
    requires
        2 <= d <= n / d,
    ensures
        d < n,
        n > 0,
{
    let q = (n / d) as int;
    lemma_fundamental_div_mod(n as int, d as int);
    assert(n >= d * q);
    assert(d * q >= 2 * d) by (nonlinear_arith)
        requires
            2 <= d <= q,
    ;
}

/// Above the square root no two factors remain.
proof fn lemma_div_square(n: u64, d: u64, q: int, k: int)
    requires
        d >= 2,
        d > n / d,
        q >= d,
        k >= d,
    ensures
        q * k > n,
{
    lemma_fundamental_div_mod(n as int, d as int);
    let c = (n / d) as int;
    assert(q * k >= d * d) by (nonlinear_arith)
        requires
            q >= d,
            k >= d,
            d >= 2,
    ;
    assert(d * (c + 1) <= d * d) by (nonlinear_arith)
        requires
            c + 1 <= d,
            d >= 2,
    ;
    assert(d * (c + 1) == d * c + d) by (nonlinear_arith);
}

/// Modular inverse of `a` mod `m`, by extended Euclid. For `a` and `m` not coprime
/// the product with `a` is congruent to their greatest common divisor.
pub fn mod_inv(a: u128, m: u128) -> (r: u128)
    requires
        0 < m <= i128::MAX,
        a <= i128::MAX,
    ensures
        r < m,
        (a * r) % m as int == gcd(a as nat, m as nat) as int % m as int,
{
    let mut old_r: i128 = a as i128;
    let mut rest: i128 = m as i128;
    let mut old_s: i128 = 1;
    let mut s: i128 = 0;
    let ghost mut old_t: int = 0;
    let ghost mut t: int = 1;
    let ghost mut sign: int = 1;
    proof {
        lemma_mul_basics(a as int);
        lemma_mul_basics(m as int);
    }
    while rest != 0
        invariant
            0 < m <= i128::MAX,
            a <= i128::MAX,
            0 <= old_r,
            0 <= rest,
            gcd(old_r as nat, rest as nat) == gcd(a as nat, m as nat),
            old_r == a * old_s + m * old_t,
            rest == a * s + m * t,
            sign == 1 || sign == -1,
            sign * old_s >= 0,
            sign * s <= 0,
            rest * (sign * old_s) + old_r * (-(sign * s)) == m,
            -m <= old_s <= m,
            -m <= s <= m,
        decreases rest,
    {
        let q: i128 = old_r / rest;
        proof {
            lemma_fundamental_div_mod(old_r as int, rest as int);
            lemma_euclid_step(a as int, m as int, old_r as int, rest as int, q as int, old_s as int, s as int, old_t, t, sign);
        }
        let next_r: i128 = old_r - q * rest;
        old_r = rest;
        rest = next_r;
        let next_s: i128 = old_s - q * s;
        old_s = s;
        s = next_s;
        proof {
            let next_t = old_t - q * t;
            old_t = t;
            t = next_t;
            sign = -sign;
        }
    }
    let lifted: u128 = if old_s < 0 {
        (old_s + m as i128) as u128
    } else {
        old_s as u128
    };
    proof {
        let g = gcd(a as nat, m as nat) as int;
        let shift: int = if old_s < 0 { 1 } else { 0 };
        let al = a * lifted;
        assert(al == g + m * (a * shift - old_t)) by (nonlinear_arith)
            requires
                g == a * old_s + m * old_t,
                lifted == old_s + shift * m,
                al == a * lifted,
        ;
        lemma_mod_multiples_vanish(a * shift - old_t, g, m as int);
        lemma_mul_is_commutative(a * shift - old_t, m as int);
        lemma_mul_mod_noop_right(a as int, lifted as int, m as int);
    }
    lifted % m
}

/// One step of extended Euclid keeps the coefficients bounded by `m`.
proof fn lemma_euclid_step(
    a: int,
    m: int,
    old_r: int,
    rest: int,
    q: int,
    old_s: int,
    s: int,
    old_t: int,
    t: int,
    sign: int,
)
    requires
        m > 0,
        old_r >= 0,
        rest > 0,
        q == old_r / rest,
        old_r == rest * q + old_r % rest,
        old_r == a * old_s + m * old_t,
        rest == a * s + m * t,
        sign == 1 || sign == -1,
        sign * old_s >= 0,
        sign * s <= 0,
        rest * (sign * old_s) + old_r * (-(sign * s)) == m,
    ensures
        0 <= q <= old_r,
        old_r - q * rest == old_r % rest,
        0 <= old_r % rest < rest,
        0 <= q * rest <= old_r,
        old_r - q * rest == a * (old_s - q * s) + m * (old_t - q * t),
        (-sign) * (old_s - q * s) <= 0,
        (-sign) * s >= 0,
        (old_r - q * rest) * ((-sign) * s) + rest * (-((-sign) * (old_s - q * s))) == m,
        -m <= old_s - q * s <= m,
        -m <= q * s <= m,
{
    lemma_mod_bound(old_r, rest);
    lemma_mul_is_commutative(rest, q);
    assert(0 <= q <= old_r) by (nonlinear_arith)
        requires
            old_r == rest * q + old_r % rest,
            0 <= old_r % rest < rest,
            rest > 0,
            old_r >= 0,
    ;
    assert(q * rest >= 0) by (nonlinear_arith)
        requires
            q >= 0,
            rest > 0,
    ;
    let qr = q * rest;
    let qs = q * s;
    let qt = q * t;
    assert(a * (old_s - qs) + m * (old_t - qt) == (a * old_s + m * old_t) - q * (a * s + m * t))
        by (nonlinear_arith)
        requires
            qs == q * s,
            qt == q * t,
    ;
    // magnitudes
    let u = sign * old_s;
    let v = -(sign * s);
    let w = u + q * v;
    assert((-sign) * s == v && (-sign) * qs == q * v && (-sign) * (old_s - qs) == -w) by (nonlinear_arith)
        requires
            u == sign * old_s,
            v == -(sign * s),
            qs == q * s,
            w == u + q * v,
    ;
    assert(q * v >= 0) by (nonlinear_arith)
        requires
            q >= 0,
            v >= 0,
    ;
    assert((old_r - qr) * v + rest * w == m) by (nonlinear_arith)
        requires
            rest * u + old_r * v == m,
            qr == q * rest,
            w == u + q * v,
    ;
    assert(w <= m) by (nonlinear_arith)
        requires
            (old_r - qr) * v + rest * w == m,
            old_r - qr >= 0,
            v >= 0,
            rest >= 1,
            w >= 0,
    ;
    if sign == 1 {
        assert(old_s - qs == w && qs == -(q * v));
    } else {
        assert(old_s - qs == -w && qs == q * v) by (nonlinear_arith)
            requires
                sign == -1,
                (-sign) * qs == q * v,
                (-sign) * (old_s - qs) == -w,
        ;
    }
}

/// The product of the moduli.
pub open spec fn modulus_of(s: Seq<(u128, u128)>) -> nat
    decreases s.len(),
{
    if s.len() == 0 {
        1
    } else {
        modulus_of(s.drop_last()) * (s.last().1 as nat)
    }
}

/// The product of the moduli but for entry `k`.
pub open spec fn modulus_without(s: Seq<(u128, u128)>, k: int) -> nat
    decreases s.len(),
{
    if s.len() == 0 {
        1
    } else {
        modulus_without(s.drop_last(), k) * (if s.len() - 1 == k {
            1
        } else {
            s.last().1 as nat
        })
    }
}

/// Positive, pairwise coprime moduli.
pub open spec fn coprime_moduli(s: Seq<(u128, u128)>) -> bool {
    &&& forall|i: int| 0 <= i < s.len() ==> (#[trigger] s[i]).1 > 0
    &&& forall|i: int, j: int|
        0 <= i < s.len() && 0 <= j < s.len() && i != j ==> gcd(
            (#[trigger] s[i]).1 as nat,
            (#[trigger] s[j]).1 as nat,
        ) == 1
}

proof fn lemma_modulus_prefix(s: Seq<(u128, u128)>, k: int)
    requires
        0 <= k <= s.len(),
        forall|i: int| 0 <= i < s.len() ==> (#[trigger] s[i]).1 > 0,
    ensures
        1 <= modulus_of(s.take(k)) <= modulus_of(s),
    decreases s.len(),
{
    if k == s.len() {
        assert(s.take(k) =~= s);
        if s.len() > 0 {
            lemma_modulus_prefix(s.drop_last(), s.len() - 1);
            assert(s.drop_last().take(s.len() - 1) =~= s.drop_last());
            let p = modulus_of(s.drop_last());
            let m = s.last().1;
            assert(p * m >= 1) by (nonlinear_arith)
                requires
                    p >= 1,
                    m >= 1,
            ;
        }
    } else {
        let t = s.drop_last();
        assert(t.take(k) =~= s.take(k));
        lemma_modulus_prefix(t, k);
        let p = modulus_of(t);
        let m = s.last().1;
        assert(p * m >= p) by (nonlinear_arith)
            requires
                p >= 1,
                m >= 1,
        ;
    }
}

proof fn lemma_modulus_without(s: Seq<(u128, u128)>, k: int, m: nat)
    requires
        forall|i: int| 0 <= i < s.len() ==> (#[trigger] s[i]).1 > 0,
        m > 0,
        forall|i: int| 0 <= i < s.len() && i != k ==> gcd((#[trigger] s[i]).1 as nat, m) == 1,
    ensures
        gcd(modulus_without(s, k), m) == 1,
        0 <= k < s.len() ==> modulus_of(s) == modulus_without(s, k) * s[k].1,
        !(0 <= k < s.len()) ==> modulus_of(s) == modulus_without(s, k),
    decreases s.len(),
{
    if s.len() == 0 {
        lemma_gcd(1, m);
        lemma_divisor_small(gcd(1, m) as int, 1);
    } else {
        let t = s.drop_last();
        assert forall|i: int| 0 <= i < t.len() implies (#[trigger] t[i]).1 > 0 && (i != k ==> gcd(
            t[i].1 as nat,
            m,
        ) == 1) by {
            assert(t[i] == s[i]);
        }
        lemma_modulus_without(t, k, m);
        let p = modulus_without(t, k);
        let last = s[s.len() - 1].1;
        if s.len() - 1 == k {
            lemma_mul_basics(p as int);
        } else {
            lemma_coprime_product(p, last as nat, m);
            if 0 <= k < t.len() {
                let mk = s[k].1;
                assert(t[k] == s[k]);
                assert((p * mk) * last == (p * last) * mk) by (nonlinear_arith);
            }
        }
    }
}

/// A number divisible by each of some pairwise coprime moduli is divisible by
/// their product.
pub proof fn lemma_coprime_moduli_divide(s: Seq<(u128, u128)>, n: int)
    requires
        coprime_moduli(s),
        forall|i: int| 0 <= i < s.len() ==> divides((#[trigger] s[i]).1 as int, n),
    ensures
        divides(modulus_of(s) as int, n),
    decreases s.len(),
{
    if s.len() == 0 {
        lemma_multiple(1, n);
    } else {
        let t = s.drop_last();
        assert forall|i: int| 0 <= i < t.len() implies (#[trigger] t[i]).1 > 0 && divides(
            t[i].1 as int,
            n,
        ) by {
            assert(t[i] == s[i]);
        }
        assert forall|i: int, j: int|
            0 <= i < t.len() && 0 <= j < t.len() && i != j implies gcd(
            (#[trigger] t[i]).1 as nat,
            (#[trigger] t[j]).1 as nat,
        ) == 1 by {
            assert(t[i] == s[i] && t[j] == s[j]);
        }
        lemma_coprime_moduli_divide(t, n);
        let last = s[s.len() - 1].1 as nat;
        let p = modulus_of(t);
        lemma_modulus_without(s, s.len() - 1, last);
        lemma_mul_basics(modulus_without(t, s.len() - 1) as int);
        lemma_modulus_without_past_end(t, s.len() - 1);
        lemma_quotient(p as int, n);
        let k = n / (p as int);
        lemma_coprime_divides(p, last, k);
        lemma_quotient(last as int, k);
        let j = k / (last as int);
        assert(n == (p * last) * j) by (nonlinear_arith)
            requires
                n == p * k,
                k == last * j,
        ;
        assert(p * last > 0) by (nonlinear_arith)
            requires
                p > 0,
                last > 0,
        ;
        lemma_multiple((p * last) as int, j);
    }
}

proof fn lemma_modulus_without_past_end(s: Seq<(u128, u128)>, k: int)
    requires
        k >= s.len(),
    ensures
        modulus_without(s, k) == modulus_of(s),
    decreases s.len(),
{
    if s.len() > 0 {
        lemma_modulus_without_past_end(s.drop_last(), k);
    }
}

/// Residues modulo pairwise coprime moduli determine a number below their product.
pub proof fn lemma_crt_unique(s: Seq<(u128, u128)>, x: int, y: int)
    requires
        coprime_moduli(s),
        0 <= x < modulus_of(s),
        0 <= y < modulus_of(s),
        forall|i: int|
            0 <= i < s.len() ==> x % ((#[trigger] s[i]).1 as int) == y % (s[i].1 as int),
    ensures
        x == y,
{
    assert forall|i: int| 0 <= i < s.len() implies divides((#[trigger] s[i]).1 as int, x - y) by {
        lemma_mod_equivalence(x, y, s[i].1 as int);
    }
    lemma_coprime_moduli_divide(s, x - y);
    let n = modulus_of(s) as int;
    lemma_quotient(n, x - y);
    let k = (x - y) / n;
    assert(k == 0) by (nonlinear_arith)
        requires
            x - y == n * k,
            -n < x - y < n,
            n > 0,
    ;
    lemma_mul_basics(n);
}

proof fn lemma_small_products(m: int, n: int, p: int, q: int)
    requires
        0 <= p < m,
        0 <= q < n,
    ensures
        0 <= p * q <= m * n,
        0 <= q * p <= m * n,
{
    assert(0 <= p * q <= m * n && p * q == q * p) by (nonlinear_arith)
        requires
            0 <= p < m,
            0 <= q < n,
    ;
}

/// Reducing modulo a multiple first does not change a remainder.
proof fn lemma_mod_through(x: int, n: int, m: int)
    requires
        n > 0,
        divides(m, n),
    ensures
        (x % n) % m == x % m,
{
    lemma_fundamental_div_mod(x, n);
    lemma_quotient(m, n);
    let q = x / n;
    let k = n / m;
    assert(x == (q * k) * m + x % n) by (nonlinear_arith)
        requires
            x == n * q + x % n,
            n == m * k,
    ;
    lemma_mod_multiples_vanish(q * k, x % n, m);
    lemma_mul_is_commutative(q * k, m);
}

/// The sum of the Chinese remainder terms stays within the word.
proof fn lemma_crt_room(m: int, n: int, rr: int, ni: int, inv: int, x: int, term: int)
    requires
        m >= 1,
        n >= 1,
        m * n <= u128::MAX,
        0 <= x < n,
        0 <= term < n,
        term == ((((rr % m) * (ni % n)) % n) * inv) % n,
    ensures
        x + term <= u128::MAX,
{
    if m == 1 {
        lemma_mod_bound(rr, 1);
        assert(rr % m == 0);
        lemma_mul_basics(ni % n);
        lemma_small_mod(0, n as nat);
        lemma_mul_basics(inv);
        assert(n <= m * n);
    } else {
        assert(2 * n <= m * n) by (nonlinear_arith)
            requires
                m >= 2,
                n >= 1,
        ;
    }
}

/// One Chinese remainder term settles the residue of its own modulus and leaves
/// the others as they were.
proof fn lemma_crt_term(
    s: Seq<(u128, u128)>,
    k: int,
    j: int,
    inv: int,
    n: int,
    before: int,
    term: int,
    x: int,
)
    requires
        coprime_moduli(s),
        0 <= k < s.len(),
        0 <= j < s.len(),
        n == modulus_of(s),
        n >= 1,
        ({
            let rr = s[k].0 as int;
            let m = s[k].1 as int;
            let ni = n / m;
            &&& (ni % m * inv) % m == 1int % m
            &&& term == ((((rr % m) * (ni % n)) % n) * inv) % n
        }),
        j < k ==> before % (s[j].1 as int) == s[j].0 as int % (s[j].1 as int),
        j >= k ==> before % (s[j].1 as int) == 0,
        x == (before + term) % n,
    ensures
        x % (s[j].1 as int) == (if j <= k {
            s[j].0 as int % (s[j].1 as int)
        } else {
            0
        }),
{
    let rr = s[k].0 as int;
    let m = s[k].1 as int;
    let mj = s[j].1 as int;
    let ni = n / m;
    lemma_modulus_without(s, k, m as nat);
    lemma_modulus_without(s, j, mj as nat);
    lemma_multiple(m, modulus_without(s, k) as int);
    lemma_multiple(mj, modulus_without(s, j) as int);
    let c = (rr % m) * (ni % n);
    let d = (c % n) * inv;
    lemma_mod_through(before + term, n, mj);
    lemma_mod_through(d, n, mj);
    lemma_mod_through(c, n, mj);
    lemma_mod_through(ni, n, mj);
    lemma_add_mod_noop(before, term, mj);
    lemma_mul_mod_noop_left(c % n, inv, mj);
    lemma_mul_mod_noop_left(c, inv, mj);
    // term and c * inv are congruent modulo mj
    assert(term % mj == (c * inv) % mj);
    lemma_mul_mod_noop_right(rr % m, ni % n, mj);
    lemma_mul_mod_noop_right(rr % m, ni, mj);
    let e = (rr % m) * ni;
    assert(c % mj == e % mj);
    lemma_mul_mod_noop_left(e, inv, mj);
    assert(term % mj == (e * inv) % mj);
    lemma_mul_is_associative(rr % m, ni, inv);
    lemma_mod_bound(term, mj);
    lemma_mod_bound(before, mj);
    if j == k {
        lemma_mul_mod_noop_left(ni, inv, m);
        lemma_mul_mod_noop_right(rr % m, ni * inv, m);
        lemma_mul_mod_noop_right(rr % m, 1, m);
        lemma_mul_basics(rr % m);
        lemma_mod_twice(rr, m);
        lemma_mod_twice(term, m);
        assert(term % m == rr % m);
    } else {
        lemma_quotient(m, n);
        lemma_coprime_divides(m as nat, mj as nat, ni);
        lemma_mul_mod_noop_right(rr % m, ni * inv, mj);
        lemma_mul_mod_noop_left(ni, inv, mj);
        lemma_mul_basics(inv);
        lemma_mul_basics(rr % m);
        lemma_small_mod(0, mj as nat);
        assert(term % mj == 0);
        lemma_mod_twice(before, mj);
    }
}

/// Chinese Remainder Theorem over pairwise-coprime `(residue, modulus)` pairs.
pub fn crt(residues: &[(u128, u128)]) -> (x: u128)
    requires
        coprime_moduli(residues@),
        forall|i: int|
            0 <= i < residues@.len() ==> (#[trigger] residues@[i]).1 <= i128::MAX
                && residues@[i].1 * modulus_of(residues@) <= u128::MAX,
    ensures
        x < modulus_of(residues@),
        forall|i: int|
            0 <= i < residues@.len() ==> x as int % ((#[trigger] residues@[i]).1 as int)
                == residues@[i].0 as int % (residues@[i].1 as int),
{
    let ghost s = residues@;
    let ghost n = modulus_of(s) as int;
    let mut modulus: u128 = 1;
    let mut i: usize = 0;
    proof {
        assert(s.take(0) =~= Seq::empty());
    }
    while i < residues.len()
        invariant
            s == residues@,
            n == modulus_of(s),
            coprime_moduli(s),
            forall|j: int| 0 <= j < s.len() ==> (#[trigger] s[j]).1 * n <= u128::MAX,
            i <= s.len(),
            modulus == modulus_of(s.take(i as int)),
        decreases s.len() - i,
    {
        proof {
            assert(s.take(i + 1).drop_last() =~= s.take(i as int));
            assert(s.take(i + 1).last() == s[i as int]);
            lemma_modulus_prefix(s, i + 1);
            let m = s[i as int].1;
            assert(n <= m * n) by (nonlinear_arith)
                requires
                    m >= 1,
                    n >= 1,
            ;
        }
        modulus = modulus * residues[i].1;
        i = i + 1;
    }
    proof {
        assert(s.take(s.len() as int) =~= s);
        lemma_modulus_prefix(s, 0);
        assert forall|j: int| 0 <= j < s.len() implies 0int % ((#[trigger] s[j]).1 as int) == 0 by {
            lemma_small_mod(0, s[j].1 as nat);
        }
    }
    let mut x: u128 = 0;
    let mut k: usize = 0;
    while k < residues.len()
        invariant
            s == residues@,
            n == modulus_of(s),
            n == modulus,
            n >= 1,
            coprime_moduli(s),
            forall|j: int|
                0 <= j < s.len() ==> (#[trigger] s[j]).1 * n <= u128::MAX && s[j].1 <= i128::MAX,
            k <= s.len(),
            x < n,
            forall|j: int|
                0 <= j < k ==> x as int % ((#[trigger] s[j]).1 as int) == s[j].0 as int % (
                s[j].1 as int),
            forall|j: int| k <= j < s.len() ==> x as int % ((#[trigger] s[j]).1 as int) == 0,
        decreases s.len() - k,
    {
        let (rr, m) = residues[k];
        let ghost without = modulus_without(s, k as int) as int;
        proof {
            lemma_modulus_without(s, k as int, m as nat);
            lemma_mul_is_commutative(without, m as int);
            lemma_multiple(m as int, without);
        }
        let ni: u128 = modulus / m;
        let inv: u128 = mod_inv(ni % m, m);
        proof {
            lemma_mod_twice(ni as int, m as int);
            assert(gcd((ni % m) as nat, m as nat) == 1) by {
                assert(gcd(ni as nat, m as nat) == gcd(m as nat, ni as nat % m as nat));
                assert(gcd((ni % m) as nat, m as nat) == gcd(m as nat, (ni % m) as nat % m as nat));
            }
        }
        let ghost c1 = (rr as int % m as int) * (ni as int % n);
        proof {
            assert(ni == without);
            lemma_mod_bound(rr as int, m as int);
            lemma_mod_bound(ni as int, n);
            lemma_small_products(m as int, n, rr as int % m as int, ni as int % n);
        }
        let part: u128 = (rr % m) * (ni % modulus) % modulus;
        proof {
            lemma_mod_bound(c1, n);
            lemma_small_products(m as int, n, inv as int, part as int);
            lemma_mul_is_commutative(part as int, inv as int);
        }
        let term: u128 = part * inv % modulus;
        proof {
            lemma_mod_bound(part * inv, n);
            lemma_crt_room(m as int, n, rr as int, ni as int, inv as int, x as int, term as int);
        }
        let ghost before = x as int;
        x = (x + term) % modulus;
        proof {
            lemma_mod_bound(before + term, n);
            assert forall|j: int| 0 <= j < s.len() implies x as int % ((#[trigger] s[j]).1 as int)
                == (if j <= k { s[j].0 as int % (s[j].1 as int) } else { 0 }) by {
                lemma_crt_term(s, k as int, j, inv as int, n, before, term as int, x as int);
            }
        }
        k = k + 1;
    }
    proof {
        lemma_small_mod(x as nat, n as nat);
    }
    x % modulus
}

} // verus!
