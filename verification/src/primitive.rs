//! Registers that are maximal-length because their polynomial is primitive.
//!
//! The step of a register satisfies the register's polynomial, so the register
//! `k` steps on is the sum of its first states that `x^k`, reduced by that
//! polynomial, selects. A few powers of `x` then decide maximal length.

use crate::bits;
use crate::format::Side;
use crate::gf;
use crate::lfsr::Lfsr;
use crate::number;
use crate::orbit;
use vstd::arithmetic::div_mod::*;
use vstd::arithmetic::mul::*;
use vstd::arithmetic::power::*;
use vstd::arithmetic::power2::*;
use vstd::prelude::*;

verus! {

impl Lfsr {
    /// A register that is back at 1 after a period, but after no `period / p` for
    /// the primes `p` of the period, is maximal-length.
    pub proof fn lemma_no_early_return(self, factors: Seq<(u64, u64)>)
        requires
            self.valid(),
            number::is_factorisation(self.period(), factors),
            self.state_at(1, self.period()) == 1,
            forall|i: int|
                0 <= i < factors.len() ==> self.state_at(
                    1,
                    self.period() / ((#[trigger] factors[i]).1 as nat),
                ) != 1,
        ensures
            self.maximal(),
    {
        let p = self.period();
        orbit::lemma_one_in_register(self);
        bits::lemma_low_mask_is_pow2(self.bits);
        assert forall|k: nat| 0 < k < p implies #[trigger] self.state_at(1, k) != 1 by {
            if self.state_at(1, k) == 1 {
                let t = self.lemma_least_return(k);
                self.lemma_return_multiple(t, p / t);
                lemma_fundamental_div_mod(p as int, t as int);
                lemma_mod_bound(p as int, t as int);
                self.lemma_state_adds(1, t * (p / t), p % t);
                assert(self.state_at(1, p % t) == 1);
                let i = number::lemma_proper_divisor(p, factors, t as int);
                let q = p / (factors[i].1 as nat);
                number::lemma_quotient(t as int, q as int);
                self.lemma_return_multiple(t, q / t);
            }
        }
    }

    /// The ring in which the step is multiplication by `x`.
    pub open spec fn step_ring(self) -> gf::Ring {
        gf::ring(self.bits, self.taps & bits::low_mask(self.bits))
    }

    /// The taps select the states that add up to the one `bits` steps on.
    proof fn lemma_taps_select(self, s: u32)
        requires
            self.valid(),
            s <= bits::low_mask(self.bits),
        ensures
            self.orbit_sum(s, self.taps & bits::low_mask(self.bits), self.bits as nat)
                == self.state_at(s, self.bits as nat),
    {
        let emitted = Seq::new(
            (2 * self.bits) as nat,
            |i: int| self.output_at(s, i as nat),
        );
        self.lemma_own_recurrence(s, emitted);
        self.lemma_recurrence_is_dependency(
            s,
            emitted,
            self.connection(),
            self.bits,
            self.taps & bits::low_mask(self.bits),
        );
    }

    /// The register `k` steps on is the sum of the states that `x^k` selects.
    pub proof fn lemma_state_is_power_sum(self, s: u32, k: nat)
        requires
            1 <= self.bits < 32,
            s <= bits::low_mask(self.bits),
        ensures
            self.step_ring().valid(),
            self.step_ring().has(self.step_ring().x_to(k)),
            self.orbit_sum(s, self.step_ring().x_to(k), self.bits as nat) == self.state_at(s, k),
        decreases k,
    {
        let n = self.bits;
        let g = self.step_ring();
        bits::lemma_mask_bound(self.taps, n);
        bits::lemma_selector_bounds(0, 0, n);
        if k == 0 {
            self.lemma_orbit_sum_unit(s, 0, n as nat);
            bits::lemma_selector_bounds(0, 0, n);
            orbit::lemma_one_in_register(self);
        } else {
            let y = g.x_to((k - 1) as nat);
            let red = g.red;
            self.lemma_state_is_power_sum(s, (k - 1) as nat);
            g.lemma_mulx(y, 0);
            self.lemma_orbit_sum_next(s, y, n as nat);
            let low = (y << 1) & bits::low_mask(n);
            let top = y & (1u32 << ((n - 1) as u32)) != 0;
            lemma_shifted_up(y, n);
            self.lemma_taps_select(s);
            assert forall|i: u32| n <= i < n + 1 implies !bits::bit(low, i) by {
                bits::lemma_word_bits(low, 0, i, n);
            }
            self.lemma_orbit_sum_extends(s, low, n as nat, (n + 1) as nat);
            let sum = self.orbit_sum(s, low, n as nat);
            bits::lemma_xor_group(low, 0, 0);
            bits::lemma_xor_group(sum, 0, 0);
            if top {
                self.lemma_orbit_sum_xor(s, low, bits::unit(n), (n + 1) as nat);
                self.lemma_orbit_sum_unit(s, n, (n + 1) as nat);
                self.lemma_orbit_sum_xor(s, low, red, n as nat);
            }
        }
    }

    /// The first summand of a sum of states taken out.
    proof fn lemma_orbit_sum_first(self, s: u32, y: u32, m: nat)
        requires
            m < 32,
        ensures
            self.orbit_sum(s, y, m + 1) == (if y & 1 == 1 {
                s
            } else {
                0
            }) ^ self.orbit_sum(self.next(s), y >> 1, m),
        decreases m,
    {
        bits::lemma_halve(y, y, 0);
        let first: u32 = if y & 1 == 1 {
            s
        } else {
            0
        };
        if m == 0 {
            reveal_with_fuel(Lfsr::orbit_sum, 2);
            bits::lemma_xor_group(0, first, 0);
        } else {
            let i = (m - 1) as u32;
            self.lemma_orbit_sum_first(s, y, i as nat);
            bits::lemma_halve(y, y, i);
            self.lemma_state_adds(s, 1, i as nat);
            reveal_with_fuel(Lfsr::state_at, 2);
            assert(self.state_at(s, 1) == self.next(s));
            let last: u32 = if bits::bit(y, m as u32) {
                self.state_at(s, m)
            } else {
                0
            };
            bits::lemma_xor_group(first, self.orbit_sum(self.next(s), y >> 1, i as nat), last);
        }
    }
}

/// A word shifted up, as its part in the register and the bit above.
proof fn lemma_shifted_up(y: u32, n: u32)
    by (bit_vector)
    requires
        1 <= n < 32,
        y <= bits::low_mask(n),
    ensures
        (y << 1) & bits::low_mask(n) <= bits::low_mask(n),
        y << 1 == ((y << 1) & bits::low_mask(n)) ^ (if y & (1u32 << ((n - 1) as u32)) != 0 {
            bits::unit(n)
        } else {
            0
        }),
{
}

/// The product of 20-bit words over the low `k` bits of `b`.
pub open spec fn product20(red: u32, a: u32, b: u32, k: u32) -> u32
    decreases k,
{
    if k == 0 {
        0
    } else {
        (if b & 1 == 1 {
            a
        } else {
            0
        }) ^ product20(red, gf::shift_reduce(20, red, a), b >> 1, (k - 1) as u32)
    }
}

/// A 20-bit word to a power of up to `k` bits, by square-and-multiply.
pub open spec fn power20(red: u32, a: u32, e: u32, k: u32) -> u32
    decreases k,
{
    if k == 0 {
        1
    } else {
        product20(
            red,
            power20(red, product20(red, a, a, 20), e >> 1, (k - 1) as u32),
            if e & 1 == 1 {
                a
            } else {
                1
            },
            20,
        )
    }
}

/// The sum of the `k` states from `s` on that `y` selects, of a 20-bit register.
pub open spec fn selected20(taps: u32, s: u32, y: u32, k: u32) -> u32
    decreases k,
{
    if k == 0 {
        0
    } else {
        (if y & 1 == 1 {
            s
        } else {
            0
        }) ^ selected20(taps, orbit::shifted(20, s, bits::fold(s & taps)), y >> 1, (k - 1) as u32)
    }
}

/// The powers of `x` that decide for the registers of the two sides.
proof fn lemma_powers()
    by (bit_vector)
    ensures
        selected20(0x361e5, 1, power20(0x361e5, 2, 1048575, 20), 20) == 1,
        selected20(0x361e5, 1, power20(0x361e5, 2, 349525, 20), 20) != 1,
        selected20(0x361e5, 1, power20(0x361e5, 2, 209715, 20), 20) != 1,
        selected20(0x361e5, 1, power20(0x361e5, 2, 95325, 20), 20) != 1,
        selected20(0x361e5, 1, power20(0x361e5, 2, 33825, 20), 20) != 1,
        selected20(0x361e5, 1, power20(0x361e5, 2, 25575, 20), 20) != 1,
        selected20(0x4f0d9, 1, power20(0x4f0d9, 2, 1048575, 20), 20) == 1,
        selected20(0x4f0d9, 1, power20(0x4f0d9, 2, 349525, 20), 20) != 1,
        selected20(0x4f0d9, 1, power20(0x4f0d9, 2, 209715, 20), 20) != 1,
        selected20(0x4f0d9, 1, power20(0x4f0d9, 2, 95325, 20), 20) != 1,
        selected20(0x4f0d9, 1, power20(0x4f0d9, 2, 33825, 20), 20) != 1,
        selected20(0x4f0d9, 1, power20(0x4f0d9, 2, 25575, 20), 20) != 1,
        0x361e5u32 & bits::low_mask(20) == 0x361e5,
        0x4f0d9u32 & bits::low_mask(20) == 0x4f0d9,
        1 <= bits::low_mask(20),
{
}

proof fn lemma_product20(red: u32, a: u32, b: u32, k: u32)
    requires
        k <= 20,
        b <= bits::low_mask(k),
    ensures
        product20(red, a, b, k) == gf::ring(20, red).times(a, b),
    decreases k,
{
    gf::lemma_halves(b, 0, k);
    bits::lemma_xor_group(0, 0, 0);
    if k == 0 {
        bits::lemma_selector_bounds(b, 0, 0);
    } else {
        lemma_product20(red, gf::shift_reduce(20, red, a), b >> 1, (k - 1) as u32);
    }
}

proof fn lemma_power20(red: u32, a: u32, e: u32, k: u32)
    requires
        k <= 20,
        gf::ring(20, red).valid(),
        gf::ring(20, red).has(a),
        e <= bits::low_mask(k),
    ensures
        power20(red, a, e, k) == gf::ring(20, red).power(a, e as nat),
    decreases k,
{
    let g = gf::ring(20, red);
    gf::lemma_halves(e, 0, k);
    bits::lemma_selector_bounds(e, 0, 20);
    if k == 0 {
        bits::lemma_selector_bounds(e, 0, 0);
    } else {
        let half = (e >> 1) as nat;
        lemma_product20(red, a, a, 20);
        g.lemma_times_bounded(a, a);
        lemma_power20(red, g.times(a, a), e >> 1, (k - 1) as u32);
        g.lemma_power_of_square(a, half);
        let square = g.power(a, 2 * half);
        g.lemma_power_bounded(a, 2 * half);
        g.lemma_times_one(square);
        if e & 1 == 1 {
            lemma_product20(red, square, a, 20);
            assert(e == 2 * half + 1);
        } else {
            lemma_product20(red, square, 1, 20);
            assert(e == 2 * half);
        }
    }
}

proof fn lemma_selected20(l: Lfsr, s: u32, y: u32, k: u32)
    requires
        l.bits == 20,
        k <= 20,
    ensures
        selected20(l.taps, s, y, k) == l.orbit_sum(s, y, k as nat),
    decreases k,
{
    if k > 0 {
        bits::lemma_parity_is_fold(s & l.taps);
        l.lemma_orbit_sum_first(s, y, (k - 1) as nat);
        lemma_selected20(l, l.next(s), y >> 1, (k - 1) as u32);
    }
}

/// A 20-bit register `e` steps after 1, by way of `x^e`.
proof fn lemma_steps20(l: Lfsr, e: u32)
    requires
        l.bits == 20,
        l.taps <= bits::low_mask(20),
        e <= bits::low_mask(20),
    ensures
        l.state_at(1, e as nat) == selected20(l.taps, 1, power20(l.taps, 2, e, 20), 20),
{
    let g = l.step_ring();
    bits::lemma_mask_bound(l.taps, 20);
    orbit::lemma_one_in_register(l);
    l.lemma_state_is_power_sum(1, e as nat);
    g.lemma_x_is_two();
    lemma_power20(l.taps, 2, e, 20);
    g.lemma_power_of_x(2, 1, e as nat);
    lemma_mul_basics(e as int);
    lemma_selected20(l, 1, g.x_to(e as nat), 20);
}

/// A number below 49 that none of 2 to 6 divides, but for itself, is prime.
proof fn lemma_small_prime(p: int)
    requires
        1 < p < 49,
        p == 2 || p % 2 != 0,
        p == 3 || p % 3 != 0,
        p == 5 || p % 5 != 0,
    ensures
        number::is_prime(p),
{
    assert forall|d: int| 1 < d < p implies !#[trigger] number::divides(d, p) by {
        if number::divides(d, p) {
            let q = p / d;
            number::lemma_quotient(d, p);
            number::lemma_divisor_small(d, p);
            assert(1 < q < p && (d < 7 || q < 7)) by (nonlinear_arith)
                requires
                    p == d * q,
                    1 < d < p,
                    q >= 1,
                    p < 49,
            ;
            let small = if d < 7 {
                d
            } else {
                q
            };
            assert(number::divides(small, p));
            if small == 2 || small == 4 || small == 6 {
                number::lemma_divides_trans(2, small, p);
            } else if small == 3 {
                assert(p % 3 == 0);
            } else {
                assert(p % 5 == 0);
            }
        }
    }
}

/// `2^20 - 1` in powers of primes.
spec fn factors20() -> Seq<(u64, u64)> {
    seq![(3u64, 3u64), (25, 5), (11, 11), (31, 31), (41, 41)]
}

proof fn lemma_factors20()
    ensures
        number::is_factorisation(1048575, factors20()),
{
    let s = factors20();
    lemma_small_prime(3);
    lemma_small_prime(5);
    lemma_small_prime(11);
    lemma_small_prime(31);
    lemma_small_prime(41);
    lemma_pow1(3);
    lemma_pow1(5);
    lemma_pow1(11);
    lemma_pow1(31);
    lemma_pow1(41);
    lemma_pow_adds(5, 1, 1);
    assert(pow(5, 2) == 25);
    assert(number::is_power_of(3, 3) && number::is_power_of(25, 5) && number::is_power_of(11, 11)
        && number::is_power_of(31, 31) && number::is_power_of(41, 41));
    let none = Seq::<(u64, u64)>::empty();
    let a = none.push(s[0]);
    let b = a.push(s[1]);
    let c = b.push(s[2]);
    let d = c.push(s[3]);
    lemma_one_more(none, s[0], 1);
    lemma_one_more(a, s[1], 3);
    lemma_one_more(b, s[2], 75);
    lemma_one_more(c, s[3], 825);
    lemma_one_more(d, s[4], 25575);
    assert(d.push(s[4]) =~= s);
}

/// The product with one more factor.
proof fn lemma_one_more(s: Seq<(u64, u64)>, f: (u64, u64), n: nat)
    requires
        number::product_of(s) == n,
    ensures
        number::product_of(s.push(f)) == n * (f.0 as nat),
{
    assert(s.push(f).drop_last() =~= s);
}

/// The registers of both sides are maximal-length, so that what holds of
/// maximal-length registers holds on either side.
pub proof fn lemma_sides_are_maximal(side: Side)
    ensures
        side.register().maximal(),
        0 < side.origin() <= bits::low_mask(side.register().bits),
        side.register().maximal_from(side.origin()),
{
    let l = side.register();
    let s = factors20();
    lemma_powers();
    lemma2_to64();
    bits::lemma_low_mask_is_pow2(20);
    bits::lemma_mask_bound(l.taps, 20);
    lemma_factors20();
    lemma_steps20(l, 1048575);
    lemma_steps20(l, 349525);
    lemma_steps20(l, 209715);
    lemma_steps20(l, 95325);
    lemma_steps20(l, 33825);
    lemma_steps20(l, 25575);
    assert(l.period() == 1048575);
    assert forall|i: int| 0 <= i < s.len() implies l.state_at(
        1,
        l.period() / ((#[trigger] s[i]).1 as nat),
    ) != 1 by {
        let p = s[i].1;
        assert(p == 3 || p == 5 || p == 11 || p == 31 || p == 41);
        assert(1048575nat / 3 == 349525 && 1048575nat / 5 == 209715 && 1048575nat / 11 == 95325
            && 1048575nat / 31 == 33825 && 1048575nat / 41 == 25575);
    }
    l.lemma_no_early_return(s);
    orbit::lemma_one_in_register(l);
    l.lemma_maximal_from_any(1, side.origin());
}

} // verus!
