//! Arithmetic of GF(2)[x] modulo a polynomial, in the power basis: bit `i` of a
//! word is the coefficient of `x^i`, and `x^bits` reduces to the word `red`.

use crate::bits;
use vstd::prelude::*;

verus! {

/// The ring GF(2)[x] / (x^bits + red).
pub struct Ring {
    pub bits: u32,
    pub red: u32,
}

/// The ring with the given degree and reduction word.
pub open spec fn ring(bits: u32, red: u32) -> Ring {
    Ring { bits, red }
}

/// `a` times `x` in the ring of degree `n` with reduction word `red`.
pub open spec fn shift_reduce(n: u32, red: u32, a: u32) -> u32 {
    ((a << 1) & bits::low_mask(n)) ^ (if a & (1u32 << ((n - 1) as u32)) != 0 {
        red
    } else {
        0
    })
}

impl Ring {
    pub open spec fn valid(self) -> bool {
        1 <= self.bits <= 32 && self.red <= bits::low_mask(self.bits)
    }

    /// The words that are ring elements.
    pub open spec fn has(self, a: u32) -> bool {
        a <= bits::low_mask(self.bits)
    }

    /// `a * x`.
    pub open spec fn mulx(self, a: u32) -> u32 {
        shift_reduce(self.bits, self.red, a)
    }

    /// `a * x^k`.
    pub open spec fn shift_by(self, a: u32, k: nat) -> u32
        decreases k,
    {
        if k == 0 {
            a
        } else {
            self.mulx(self.shift_by(a, (k - 1) as nat))
        }
    }

    /// `x^k`.
    pub open spec fn x_to(self, k: nat) -> u32 {
        self.shift_by(1, k)
    }

    /// `a * b`: the XOR of `a * x^i` over the set bits `i` of `b`.
    pub open spec fn times(self, a: u32, b: u32) -> u32
        decreases b,
    {
        if b == 0 {
            0
        } else {
            (if b % 2 == 1 {
                a
            } else {
                0
            }) ^ self.times(self.mulx(a), b / 2)
        }
    }

    /// `a^e`.
    pub open spec fn power(self, a: u32, e: nat) -> u32
        decreases e,
    {
        if e == 0 {
            1
        } else {
            self.times(self.power(a, (e - 1) as nat), a)
        }
    }
}

proof fn lemma_shift_reduce(n: u32, red: u32, a: u32, b: u32, i: u32)
    by (bit_vector)
    requires
        1 <= n <= 32,
        red <= bits::low_mask(n),
        a <= bits::low_mask(n),
        b <= bits::low_mask(n),
        i < 32,
    ensures
        shift_reduce(n, red, a) <= bits::low_mask(n),
        a ^ b <= bits::low_mask(n),
        shift_reduce(n, red, a ^ b) == shift_reduce(n, red, a) ^ shift_reduce(n, red, b),
        shift_reduce(n, red, 0) == 0,
        i + 1 < n ==> shift_reduce(n, red, bits::unit(i)) == bits::unit((i + 1) as u32),
        i < n ==> bits::unit(i) <= bits::low_mask(n),
        bits::unit(0) == 1,
        1 <= bits::low_mask(n),
        n >= 2 ==> 2 <= bits::low_mask(n) && shift_reduce(n, red, 1) == 2,
{
}

/// `x` times `x^(n-1)` is the reduction word.
pub proof fn lemma_reduces(n: u32, red: u32)
    by (bit_vector)
    requires
        1 <= n <= 32,
    ensures
        shift_reduce(n, red, bits::unit((n - 1) as u32)) == red,
{
}

/// Halving a word drops its lowest bit.
pub proof fn lemma_halves(b: u32, c: u32, i: u32)
    by (bit_vector)
    requires
        i < 32,
    ensures
        (b ^ c) / 2 == (b / 2) ^ (c / 2),
        ((b ^ c) % 2 == 1) == ((b % 2 == 1) != (c % 2 == 1)),
        b >> 1 == b / 2,
        b & 1 == b % 2,
        i > 0 ==> bits::unit(i) / 2 == bits::unit((i - 1) as u32) && bits::unit(i) % 2 == 0,
        bits::unit(i) != 0,
        bits::unit(0) == 1,
        b <= bits::low_mask(i) ==> b / 2 <= bits::low_mask(if i == 0 {
            0
        } else {
            (i - 1) as u32
        }),
        b <= bits::low_mask((i + 1) as u32) && bits::bit(b, i) ==> b ^ bits::unit(i)
            <= bits::low_mask(i),
        b <= bits::low_mask((i + 1) as u32) && !bits::bit(b, i) ==> b <= bits::low_mask(i),
        (b ^ bits::unit(i)) ^ bits::unit(i) == b,
        b <= bits::low_mask(0) ==> b == 0,
{
}

impl Ring {
    pub proof fn lemma_mulx(self, a: u32, b: u32)
        requires
            self.valid(),
            self.has(a),
            self.has(b),
        ensures
            self.has(self.mulx(a)),
            self.has(a ^ b),
            self.mulx(a ^ b) == self.mulx(a) ^ self.mulx(b),
            self.mulx(0) == 0,
            self.has(0),
            self.has(1),
    {
        lemma_shift_reduce(self.bits, self.red, a, b, 0);
    }

    pub proof fn lemma_shift_by_bounded(self, a: u32, k: nat)
        requires
            self.valid(),
            self.has(a),
        ensures
            self.has(self.shift_by(a, k)),
        decreases k,
    {
        if k > 0 {
            self.lemma_shift_by_bounded(a, (k - 1) as nat);
            self.lemma_mulx(self.shift_by(a, (k - 1) as nat), 0);
        }
    }

    pub proof fn lemma_shift_by_adds(self, a: u32, i: nat, j: nat)
        ensures
            self.shift_by(a, i + j) == self.shift_by(self.shift_by(a, i), j),
        decreases j,
    {
        if j > 0 {
            self.lemma_shift_by_adds(a, i, (j - 1) as nat);
            assert((i + j - 1) as nat == i + (j - 1) as nat);
        }
    }

    pub proof fn lemma_times_bounded(self, a: u32, b: u32)
        requires
            self.valid(),
            self.has(a),
        ensures
            self.has(self.times(a, b)),
        decreases b,
    {
        self.lemma_mulx(a, 0);
        if b != 0 {
            self.lemma_times_bounded(self.mulx(a), b / 2);
            self.lemma_mulx(a, self.times(self.mulx(a), b / 2));
            self.lemma_mulx(0, self.times(self.mulx(a), b / 2));
        }
    }

    /// `(a + c) * b == a * b + c * b`.
    pub proof fn lemma_times_linear_left(self, a: u32, c: u32, b: u32)
        requires
            self.valid(),
            self.has(a),
            self.has(c),
        ensures
            self.times(a ^ c, b) == self.times(a, b) ^ self.times(c, b),
        decreases b,
    {
        self.lemma_mulx(a, c);
        self.lemma_mulx(c, a);
        if b == 0 {
            bits::lemma_xor_group(0, 0, 0);
        } else {
            self.lemma_times_linear_left(self.mulx(a), self.mulx(c), b / 2);
            let p = self.times(self.mulx(a), b / 2);
            let q = self.times(self.mulx(c), b / 2);
            bits::lemma_xor_regroup(a, p, c, q);
        }
    }

    /// `a * (b + c) == a * b + a * c`.
    pub proof fn lemma_times_linear_right(self, a: u32, b: u32, c: u32)
        requires
            self.valid(),
            self.has(a),
        ensures
            self.times(a, b ^ c) == self.times(a, b) ^ self.times(a, c),
        decreases b + c,
    {
        bits::lemma_xor_group(b, c, 0);
        bits::lemma_xor_group(c, b, 0);
        bits::lemma_xor_group(self.times(a, b), self.times(a, c), 0);
        bits::lemma_xor_group(self.times(a, c), self.times(a, b), 0);
        if b != 0 && c != 0 {
            lemma_halves(b, c, 0);
            self.lemma_mulx(a, 0);
            self.lemma_times_linear_right(self.mulx(a), b / 2, c / 2);
            let p = self.times(self.mulx(a), b / 2);
            let q = self.times(self.mulx(a), c / 2);
            bits::lemma_xor_regroup(a, p, a, q);
            bits::lemma_xor_regroup(0, p, a, q);
            bits::lemma_xor_regroup(a, p, 0, q);
            bits::lemma_xor_regroup(0, p, 0, q);
            bits::lemma_xor_group(a, 0, 0);
            if b ^ c == 0 {
                bits::lemma_xor_group(self.times(a, b), self.times(a, b), 0);
            }
        }
    }

    /// Multiplying by `x` before or after makes no difference.
    pub proof fn lemma_times_mulx_left(self, a: u32, b: u32)
        requires
            self.valid(),
            self.has(a),
        ensures
            self.times(self.mulx(a), b) == self.mulx(self.times(a, b)),
        decreases b,
    {
        self.lemma_mulx(a, 0);
        if b != 0 {
            let p = self.times(self.mulx(a), b / 2);
            self.lemma_times_bounded(self.mulx(a), b / 2);
            self.lemma_times_mulx_left(self.mulx(a), b / 2);
            self.lemma_mulx(a, p);
            self.lemma_mulx(0, p);
        }
    }

    /// `a * x^j` by multiplication with the word of `x^j`, `j < 32`.
    pub proof fn lemma_times_unit_right(self, a: u32, j: u32)
        requires
            self.valid(),
            self.has(a),
            j < 32,
        ensures
            self.times(a, bits::unit(j)) == self.shift_by(a, j as nat),
        decreases j,
    {
        lemma_halves(0, 0, j);
        self.lemma_mulx(a, 0);
        if j == 0 {
            assert(self.times(self.mulx(a), 0) == 0);
            bits::lemma_xor_group(a, 0, 0);
        } else {
            self.lemma_times_unit_right(self.mulx(a), (j - 1) as u32);
            self.lemma_shift_by_adds(a, 1, (j - 1) as nat);
            reveal_with_fuel(Ring::shift_by, 2);
            assert(self.shift_by(a, 1) == self.mulx(a));
            let p = self.times(self.mulx(a), bits::unit((j - 1) as u32));
            bits::lemma_xor_group(p, 0, 0);
            assert(1 + (j - 1) as nat == j as nat);
        }
    }

    /// `x^i` is the unit word while `i < bits`.
    pub proof fn lemma_x_to_unit(self, i: u32)
        requires
            self.valid(),
            i < self.bits,
        ensures
            self.x_to(i as nat) == bits::unit(i),
            self.has(bits::unit(i)),
        decreases i,
    {
        lemma_shift_reduce(self.bits, self.red, 0, 0, i);
        if i > 0 {
            self.lemma_x_to_unit((i - 1) as u32);
            lemma_shift_reduce(self.bits, self.red, 0, 0, (i - 1) as u32);
        }
    }

    /// Multiplication by a power of `x` from the left.
    pub proof fn lemma_times_shift_left(self, a: u32, b: u32, k: nat)
        requires
            self.valid(),
            self.has(a),
        ensures
            self.times(self.shift_by(a, k), b) == self.shift_by(self.times(a, b), k),
        decreases k,
    {
        if k > 0 {
            self.lemma_times_shift_left(a, b, (k - 1) as nat);
            self.lemma_shift_by_bounded(a, (k - 1) as nat);
            self.lemma_times_mulx_left(self.shift_by(a, (k - 1) as nat), b);
        }
    }

    /// One is neutral on the left: `1 * b == b`.
    pub proof fn lemma_one_times(self, b: u32)
        requires
            self.valid(),
            self.has(b),
        ensures
            self.times(1, b) == b,
    {
        self.lemma_mulx(0, 0);
        self.lemma_one_times_below(b, self.bits);
    }

    proof fn lemma_one_times_below(self, b: u32, m: u32)
        requires
            self.valid(),
            m <= self.bits,
            b <= bits::low_mask(m),
        ensures
            self.times(1, b) == b,
        decreases m,
    {
        if m == 0 {
            lemma_halves(b, 0, 0);
        } else {
            let i = (m - 1) as u32;
            lemma_halves(b, 0, i);
            if bits::bit(b, i) {
                let rest = b ^ bits::unit(i);
                self.lemma_mulx(0, 0);
                self.lemma_one_times_below(rest, i);
                self.lemma_times_linear_right(1, rest, bits::unit(i));
                self.lemma_times_unit_right(1, i);
                self.lemma_x_to_unit(i);
            } else {
                self.lemma_one_times_below(b, i);
            }
        }
    }

    /// One is neutral on the right: `a * 1 == a`.
    pub proof fn lemma_times_one(self, a: u32)
        ensures
            self.times(a, 1) == a,
    {
        assert(self.times(self.mulx(a), 0) == 0);
        bits::lemma_xor_group(a, 0, 0);
        assert(1u32 / 2 == 0);
    }

    /// Multiplication by `x^k` shifts by `k`.
    pub proof fn lemma_x_to_times(self, k: nat, b: u32)
        requires
            self.valid(),
            self.has(b),
        ensures
            self.times(self.x_to(k), b) == self.shift_by(b, k),
    {
        self.lemma_mulx(0, 0);
        self.lemma_times_shift_left(1, b, k);
        self.lemma_one_times(b);
    }

    /// `x^i * x^j == x^(i + j)`.
    pub proof fn lemma_x_to_adds(self, i: nat, j: nat)
        requires
            self.valid(),
        ensures
            self.times(self.x_to(i), self.x_to(j)) == self.x_to(i + j),
            self.has(self.x_to(i)),
            self.has(self.x_to(j)),
    {
        self.lemma_mulx(0, 0);
        self.lemma_shift_by_bounded(1, i);
        self.lemma_shift_by_bounded(1, j);
        self.lemma_x_to_times(i, self.x_to(j));
        self.lemma_shift_by_adds(1, j, i);
        assert(j + i == i + j);
    }

    /// The ring is commutative.
    pub proof fn lemma_times_commutes(self, a: u32, b: u32)
        requires
            self.valid(),
            self.has(a),
            self.has(b),
        ensures
            self.times(a, b) == self.times(b, a),
    {
        self.lemma_times_commutes_below(a, b, self.bits);
    }

    proof fn lemma_times_commutes_below(self, a: u32, b: u32, m: u32)
        requires
            self.valid(),
            self.has(a),
            m <= self.bits,
            b <= bits::low_mask(m),
        ensures
            self.times(a, b) == self.times(b, a),
        decreases m,
    {
        if m == 0 {
            lemma_halves(b, 0, 0);
            self.lemma_mulx(0, 0);
            self.lemma_times_linear_left(0, 0, a);
            bits::lemma_xor_group(0, 0, 0);
            bits::lemma_xor_group(self.times(0, a), 0, 0);
        } else {
            let i = (m - 1) as u32;
            lemma_halves(b, 0, i);
            if bits::bit(b, i) {
                let rest = b ^ bits::unit(i);
                self.lemma_times_commutes_below(a, rest, i);
                self.lemma_times_linear_right(a, rest, bits::unit(i));
                self.lemma_times_unit_right(a, i);
                self.lemma_x_to_unit(i);
                self.lemma_x_to_times(i as nat, a);
                self.lemma_below(rest, i);
                self.lemma_times_linear_left(rest, bits::unit(i), a);
            } else {
                self.lemma_times_commutes_below(a, b, i);
            }
        }
    }

    proof fn lemma_below(self, a: u32, m: u32)
        requires
            self.valid(),
            m <= self.bits,
            a <= bits::low_mask(m),
        ensures
            self.has(a),
        decreases self.bits - m,
    {
        if m < self.bits {
            bits::lemma_selector_bounds(a, 0, m);
            self.lemma_below(a, (m + 1) as u32);
        }
    }

    /// The ring is associative.
    pub proof fn lemma_times_associates(self, a: u32, b: u32, c: u32)
        requires
            self.valid(),
            self.has(a),
            self.has(b),
        ensures
            self.times(self.times(a, b), c) == self.times(a, self.times(b, c)),
        decreases c,
    {
        if c != 0 {
            let xb = self.mulx(b);
            let tail = self.times(xb, c / 2);
            self.lemma_mulx(b, 0);
            self.lemma_times_bounded(a, b);
            self.lemma_times_mulx_right(a, b);
            self.lemma_times_associates(a, xb, c / 2);
            self.lemma_times_linear_right(a, b, tail);
            self.lemma_times_linear_right(a, 0, tail);
            assert(self.times(a, 0) == 0);
        }
    }

    proof fn lemma_times_mulx_right(self, a: u32, b: u32)
        requires
            self.valid(),
            self.has(a),
            self.has(b),
        ensures
            self.times(a, self.mulx(b)) == self.mulx(self.times(a, b)),
    {
        self.lemma_mulx(b, 0);
        self.lemma_times_commutes(a, self.mulx(b));
        self.lemma_times_mulx_left(b, a);
        self.lemma_times_commutes(a, b);
    }

    pub proof fn lemma_power_bounded(self, a: u32, e: nat)
        requires
            self.valid(),
            self.has(a),
        ensures
            self.has(self.power(a, e)),
        decreases e,
    {
        self.lemma_mulx(0, 0);
        if e > 0 {
            self.lemma_power_bounded(a, (e - 1) as nat);
            self.lemma_times_bounded(self.power(a, (e - 1) as nat), a);
        }
    }

    /// `(a * a)^k == a^(2 k)`.
    pub proof fn lemma_power_of_square(self, a: u32, k: nat)
        requires
            self.valid(),
            self.has(a),
        ensures
            self.power(self.times(a, a), k) == self.power(a, 2 * k),
        decreases k,
    {
        if k > 0 {
            let j = (k - 1) as nat;
            self.lemma_power_of_square(a, j);
            self.lemma_power_bounded(a, 2 * j);
            self.lemma_times_associates(self.power(a, 2 * j), a, a);
            assert((2 * j + 1 - 1) as nat == 2 * j);
            assert(self.power(a, 2 * j + 1) == self.times(self.power(a, 2 * j), a));
            assert((2 * k - 1) as nat == 2 * j + 1);
            assert(self.power(a, 2 * k) == self.times(self.power(a, 2 * j + 1), a));
        }
    }

    /// Powers add: `a^i * a^j == a^(i + j)`, from `a^0 == 1` and `a^1 == a` on.
    pub proof fn lemma_powers_add(self, a: u32, i: nat, j: nat)
        requires
            self.valid(),
            self.has(a),
        ensures
            self.power(a, 0) == 1,
            self.power(a, 1) == a,
            self.times(self.power(a, i), self.power(a, j)) == self.power(a, i + j),
        decreases j,
    {
        self.lemma_power_bounded(a, i);
        self.lemma_one_times(a);
        reveal_with_fuel(Ring::power, 2);
        if j == 0 {
            self.lemma_times_one(self.power(a, i));
        } else {
            let k = (j - 1) as nat;
            self.lemma_powers_add(a, i, k);
            self.lemma_power_bounded(a, k);
            self.lemma_times_associates(self.power(a, i), self.power(a, k), a);
            assert((i + j - 1) as nat == i + k);
        }
    }

    /// Multiplication by doubling, on all words: half of `b` times `a * x`, with `a`
    /// added where `b` is odd. Multiplying by `x` shifts by one place and adds the
    /// reduction word where the top bit leaves.
    pub proof fn lemma_product_by_doubling(self, a: u32, b: u32)
        requires
            1 <= self.bits <= 32,
        ensures
            self.times(a, 0) == 0,
            b > 0 ==> ({
                let top = a & (1u32 << ((self.bits - 1) as u32));
                let shifted = (a << 1) & bits::low_mask(self.bits);
                let ax = if top == 0 {
                    shifted
                } else {
                    shifted ^ self.red
                };
                self.times(a, b) == (if b % 2 == 0 {
                    self.times(ax, b / 2)
                } else {
                    a ^ self.times(ax, b / 2)
                })
            }),
    {
        bits::lemma_xor_group((a << 1) & bits::low_mask(self.bits), 0, 0);
        if b > 0 {
            bits::lemma_xor_group(self.times(self.mulx(a), b / 2), 0, 0);
        }
    }

    /// `x^e` as a power of the word `x`.
    pub proof fn lemma_power_of_x(self, a: u32, k: nat, e: nat)
        requires
            self.valid(),
            a == self.x_to(k),
        ensures
            self.power(a, e) == self.x_to(k * e),
        decreases e,
    {
        if e == 0 {
            assert(k * 0 == 0);
        } else {
            let d = (e - 1) as nat;
            self.lemma_power_of_x(a, k, d);
            self.lemma_x_to_adds(k * d, k);
            assert(k * d + k == k * e) by (nonlinear_arith)
                requires
                    d == e - 1,
            ;
        }
    }

    /// The word 2 is `x`.
    pub proof fn lemma_x_is_two(self)
        requires
            self.valid(),
            self.bits >= 2,
        ensures
            self.x_to(1) == 2,
            self.has(2),
    {
        lemma_shift_reduce(self.bits, self.red, 0, 0, 0);
        reveal_with_fuel(Ring::shift_by, 2);
    }
}

/// Multiply in the power basis, reducing by `x^bits = red`.
pub fn gf_mul(a: u32, b: u32, bits: u32, red: u32) -> (r: u32)
    requires
        1 <= bits <= 32,
    ensures
        r == ring(bits, red).times(a, b),
{
    let ghost g = ring(bits, red);
    let ghost want = g.times(a, b);
    let one: u32 = 1;
    let hibit: u32 = one << (bits - 1);
    let mask: u32 = if bits >= 32 {
        u32::MAX
    } else {
        assert(bits < 32 ==> 1u32 << bits >= 1) by (bit_vector);
        (one << bits) - 1
    };
    let mut a: u32 = a;
    let mut b: u32 = b;
    let mut r: u32 = 0;
    proof {
        bits::lemma_xor_group(want, 0, 0);
    }
    while b != 0
        invariant
            1 <= bits <= 32,
            g == ring(bits, red),
            hibit == 1u32 << ((bits - 1) as u32),
            mask == bits::low_mask(bits),
            r ^ g.times(a, b) == want,
        decreases b,
    {
        proof {
            lemma_halves(b, 0, 0);
            let tail = g.times(g.mulx(a), b / 2);
            bits::lemma_xor_group(r, a, tail);
            bits::lemma_xor_group(tail, 0, 0);
            bits::lemma_xor_group(a, red, 0);
            bits::lemma_xor_group((a << 1) & mask, 0, 0);
        }
        if b & 1 != 0 {
            r = r ^ a;
        }
        b = b >> 1;
        let carry: u32 = a & hibit;
        a = (a << 1) & mask;
        if carry != 0 {
            a = a ^ red;
        }
    }
    proof {
        bits::lemma_xor_group(r, 0, 0);
    }
    r
}

/// `a^e` by square-and-multiply.
pub fn gf_pow(a: u32, e: u64, bits: u32, red: u32) -> (r: u32)
    requires
        ring(bits, red).valid(),
        ring(bits, red).has(a),
    ensures
        r == ring(bits, red).power(a, e as nat),
{
    let ghost g = ring(bits, red);
    let ghost want = g.power(a, e as nat);
    let mut a: u32 = a;
    let mut e: u64 = e;
    let mut r: u32 = 1;
    proof {
        g.lemma_power_bounded(a, e as nat);
        g.lemma_one_times(want);
        g.lemma_mulx(0, 0);
    }
    while e != 0
        invariant
            g == ring(bits, red),
            g.valid(),
            g.has(a),
            g.has(r),
            g.times(r, g.power(a, e as nat)) == want,
        decreases e,
    {
        let ghost half = e as nat / 2;
        proof {
            assert(e & 1 == e % 2 && e >> 1 == e / 2) by (bit_vector);
            g.lemma_power_of_square(a, half);
            g.lemma_times_bounded(a, a);
            g.lemma_times_bounded(r, a);
            g.lemma_power_bounded(a, 2 * half);
            g.lemma_times_associates(r, a, g.power(a, 2 * half));
            g.lemma_times_commutes(a, g.power(a, 2 * half));
            if e % 2 == 1 {
                assert((e as nat - 1) as nat == 2 * half);
            } else {
                assert(e as nat == 2 * half);
            }
        }
        if e & 1 != 0 {
            r = gf_mul(r, a, bits, red);
        }
        a = gf_mul(a, a, bits, red);
        e = e >> 1;
    }
    proof {
        g.lemma_times_one(r);
    }
    r
}

} // verus!
