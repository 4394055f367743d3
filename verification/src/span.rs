//! Sums over the first states of an orbit, and the independence of those states
//! on a maximal-length register.

use crate::bits;
use crate::counting;
use crate::lfsr::Lfsr;
use vstd::arithmetic::power2::*;
use vstd::prelude::*;

verus! {

impl Lfsr {
    /// XOR of the states `i < m` of the orbit of `s` for which bit `i` of `y` is set.
    pub open spec fn orbit_sum(self, s: u32, y: u32, m: nat) -> u32
        decreases m,
    {
        if m == 0 {
            0
        } else {
            self.orbit_sum(s, y, (m - 1) as nat) ^ (if bits::bit(y, (m - 1) as u32) {
                self.state_at(s, (m - 1) as nat)
            } else {
                0
            })
        }
    }

    pub proof fn lemma_orbit_sum_bounded(self, s: u32, y: u32, m: nat)
        requires
            self.valid(),
            s <= bits::low_mask(self.bits),
        ensures
            self.orbit_sum(s, y, m) <= bits::low_mask(self.bits),
        decreases m,
    {
        if m > 0 {
            self.lemma_orbit_sum_bounded(s, y, (m - 1) as nat);
            self.lemma_state_bounded(s, (m - 1) as nat);
            let a = self.orbit_sum(s, y, (m - 1) as nat);
            self.lemma_next_linear(a, self.state_at(s, (m - 1) as nat));
            self.lemma_next_linear(a, 0);
        }
    }

    /// The sum is linear in its selector.
    pub proof fn lemma_orbit_sum_xor(self, s: u32, y: u32, z: u32, m: nat)
        requires
            m <= 32,
        ensures
            self.orbit_sum(s, y ^ z, m) == self.orbit_sum(s, y, m) ^ self.orbit_sum(s, z, m),
        decreases m,
    {
        if m == 0 {
            bits::lemma_xor_group(0, 0, 0);
        } else {
            let i = (m - 1) as u32;
            self.lemma_orbit_sum_xor(s, y, z, i as nat);
            bits::lemma_word_bits(y, z, i, i);
            let a = self.orbit_sum(s, y, i as nat);
            let b = self.orbit_sum(s, z, i as nat);
            let v = self.state_at(s, i as nat);
            bits::lemma_xor_shuffle(a, b, v);
        }
    }

    /// Stepping a sum moves its selector up by one.
    pub proof fn lemma_orbit_sum_next(self, s: u32, y: u32, m: nat)
        requires
            self.valid(),
            s <= bits::low_mask(self.bits),
            m < 32,
        ensures
            self.next(self.orbit_sum(s, y, m)) == self.orbit_sum(s, y << 1, m + 1),
        decreases m,
    {
        if m == 0 {
            self.lemma_zero_is_fixed(0);
            bits::lemma_word_bits(y, 0, 0, 0);
            reveal_with_fuel(Lfsr::orbit_sum, 2);
            bits::lemma_xor_group(0, 0, 0);
        } else {
            let i = (m - 1) as u32;
            let a = self.orbit_sum(s, y, i as nat);
            let v = self.state_at(s, i as nat);
            self.lemma_orbit_sum_next(s, y, i as nat);
            self.lemma_orbit_sum_bounded(s, y, i as nat);
            self.lemma_state_bounded(s, i as nat);
            self.lemma_next_linear(a, v);
            self.lemma_next_linear(a, 0);
            self.lemma_zero_is_fixed(0);
            bits::lemma_word_bits(y, 0, i, i);
            assert(self.state_at(s, m) == self.next(v));
        }
    }

    /// Bits of the selector at and above `m` do not matter.
    pub proof fn lemma_orbit_sum_extends(self, s: u32, y: u32, m: nat, n: nat)
        requires
            m <= n <= 32,
            forall|i: u32| m <= i < n ==> !bits::bit(y, i),
        ensures
            self.orbit_sum(s, y, n) == self.orbit_sum(s, y, m),
        decreases n,
    {
        if m < n {
            self.lemma_orbit_sum_extends(s, y, m, (n - 1) as nat);
            assert(!bits::bit(y, (n - 1) as u32));
            bits::lemma_xor_group(self.orbit_sum(s, y, m), 0, 0);
        }
    }

    /// A sum selected by a unit is one state.
    pub proof fn lemma_orbit_sum_unit(self, s: u32, i: u32, m: nat)
        requires
            m <= 32,
            i < 32,
        ensures
            self.orbit_sum(s, bits::unit(i), m) == (if i < m {
                self.state_at(s, i as nat)
            } else {
                0
            }),
        decreases m,
    {
        if m > 0 {
            self.lemma_orbit_sum_unit(s, i, (m - 1) as nat);
            bits::lemma_word_bits(0, 0, i, (m - 1) as u32);
            bits::lemma_xor_group(self.state_at(s, (m - 1) as nat), 0, 0);
            bits::lemma_xor_group(self.state_at(s, i as nat), 0, 0);
            bits::lemma_xor_group(0, 0, 0);
        }
    }

    /// If a sum of the first `m + 1` states vanishes and takes in the last of
    /// them, every state of the orbit is a sum of the first `m`.
    pub proof fn lemma_dependent_orbit(self, s: u32, v: u32, m: u32, k: nat) -> (y: u32)
        requires
            self.valid(),
            s <= bits::low_mask(self.bits),
            m < 32,
            v <= bits::low_mask((m + 1) as u32),
            bits::bit(v, m),
            self.orbit_sum(s, v, (m + 1) as nat) == 0,
        ensures
            y <= bits::low_mask(m),
            self.orbit_sum(s, y, m as nat) == self.state_at(s, k),
        decreases k,
    {
        if k == 0 {
            bits::lemma_selector_bounds(v, 0, m);
            if m == 0 {
                reveal_with_fuel(Lfsr::orbit_sum, 2);
                bits::lemma_xor_group(s, 0, 0);
                0
            } else {
                self.lemma_orbit_sum_unit(s, 0, m as nat);
                bits::unit(0)
            }
        } else {
            let w = self.lemma_dependent_orbit(s, v, m, (k - 1) as nat);
            self.lemma_orbit_sum_next(s, w, m as nat);
            let up = w << 1;
            bits::lemma_selector_bounds(w, v, m);
            bits::lemma_selector_bounds(up, v, m);
            if bits::bit(up, m) {
                let y = up ^ v;
                self.lemma_orbit_sum_xor(s, up, v, (m + 1) as nat);
                bits::lemma_xor_group(self.orbit_sum(s, up, (m + 1) as nat), 0, 0);
                bits::lemma_word_bits(up, v, m, m);
                bits::lemma_xor_group(self.orbit_sum(s, y, m as nat), 0, 0);
                y
            } else {
                bits::lemma_xor_group(self.orbit_sum(s, up, m as nat), 0, 0);
                up
            }
        }
    }

    /// On a maximal-length register the first `bits` states of an orbit are
    /// linearly independent.
    pub proof fn lemma_maximal_independent(self, s: u32, v: u32)
        requires
            self.valid(),
            self.maximal_from(s),
            s <= bits::low_mask(self.bits),
            v <= bits::low_mask(self.bits),
            self.orbit_sum(s, v, self.bits as nat) == 0,
        ensures
            v == 0,
    {
        if v != 0 {
            let n = self.bits;
            let m = bits::lemma_top_bit(v, n);
            assert forall|i: u32| m + 1 <= i < n implies !bits::bit(v, i) by {
                bits::lemma_word_bits(v, 0, i, (m + 1) as u32);
            }
            self.lemma_orbit_sum_extends(s, v, (m + 1) as nat, n as nat);
            let f = |y: int| self.orbit_sum(s, y as u32, m as nat) as int;
            bits::lemma_low_mask_is_pow2(n);
            bits::lemma_low_mask_is_pow2(m);
            lemma_pow2_strictly_increases(m as nat, n as nat);
            let top = pow2(n as nat) as int;
            let few = pow2(m as nat) as int;
            assert forall|x: int| 0 <= x < top implies #[trigger] counting::reached(f, few, x) by {
                if x == 0 {
                    assert forall|i: u32| 0 <= i < m implies !bits::bit(0, i) by {
                        bits::lemma_word_bits(0, 0, i, i);
                    }
                    self.lemma_orbit_sum_extends(s, 0, 0, m as nat);
                    assert(f(0) == 0);
                } else {
                    let k = self.lemma_maximal_visits(s, x as u32);
                    let y = self.lemma_dependent_orbit(s, v, m, k);
                    assert(f(y as int) == x);
                }
            }
            counting::lemma_image_is_no_larger(f, few, top);
        }
    }
}

} // verus!
