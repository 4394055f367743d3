//! The orbit of a register value under [`Lfsr`] steps: linearity, the window
//! property, and what maximal length means for the states that are visited.

use crate::bits;
use crate::counting;
use crate::lfsr;
use crate::lfsr::Lfsr;
use vstd::prelude::*;

verus! {

/// One step of a register of width `n` with feedback bit `f`.
pub open spec fn shifted(n: u32, s: u32, f: u32) -> u32 {
    ((s >> 1) | (f << ((n - 1) as u32))) & bits::low_mask(n)
}

proof fn lemma_shifted(n: u32, s: u32, f: u32, t: u32, g: u32, i: u32)
    by (bit_vector)
    requires
        1 <= n <= 32,
        s <= bits::low_mask(n),
        t <= bits::low_mask(n),
        f <= 1,
        g <= 1,
        i < 32,
    ensures
        shifted(n, s, f) <= bits::low_mask(n),
        s ^ t <= bits::low_mask(n),
        f ^ g <= 1,
        shifted(n, s ^ t, f ^ g) == shifted(n, s, f) ^ shifted(n, t, g),
        shifted(n, 0, 0) == 0,
        bits::bit(shifted(n, s, f), i) == (if i + 1 < n {
            bits::bit(s, (i + 1) as u32)
        } else {
            i + 1 == n && f == 1
        }),
        bits::bit(s, 0) == (s & 1 == 1),
        s & 1 <= 1,
        i >= n ==> !bits::bit(s, i),
        1 <= bits::low_mask(n),
        bits::bit(shifted(n, 1, f), i) == (i + 1 == n && f == 1),
{
}

impl Lfsr {
    /// Every step stays within the register.
    pub proof fn lemma_next_bounded(self, s: u32)
        requires
            self.valid(),
        ensures
            self.next(s) <= bits::low_mask(self.bits),
    {
        let v = (s >> 1) | (bits::parity_of(s & self.taps) << ((self.bits - 1) as u32));
        bits::lemma_mask_bound(v, self.bits);
    }

    pub proof fn lemma_state_bounded(self, s: u32, k: nat)
        requires
            self.valid(),
            s <= bits::low_mask(self.bits),
        ensures
            self.state_at(s, k) <= bits::low_mask(self.bits),
    {
        if k > 0 {
            self.lemma_next_bounded(self.state_at(s, (k - 1) as nat));
        }
    }

    /// Steps compose.
    pub proof fn lemma_state_adds(self, s: u32, i: nat, j: nat)
        ensures
            self.state_at(s, i + j) == self.state_at(self.state_at(s, i), j),
        decreases j,
    {
        if j > 0 {
            self.lemma_state_adds(s, i, (j - 1) as nat);
            assert((i + j - 1) as nat == i + (j - 1) as nat);
        }
    }

    /// A step is linear over XOR.
    pub proof fn lemma_next_linear(self, a: u32, b: u32)
        requires
            self.valid(),
            a <= bits::low_mask(self.bits),
            b <= bits::low_mask(self.bits),
        ensures
            self.next(a ^ b) == self.next(a) ^ self.next(b),
            a ^ b <= bits::low_mask(self.bits),
    {
        let t = self.taps;
        bits::lemma_parity_is_fold(a & t);
        bits::lemma_parity_is_fold(b & t);
        bits::lemma_parity_xor(a & t, b & t);
        bits::lemma_xor_group(a, b, t);
        lemma_shifted(
            self.bits,
            a,
            bits::parity_of(a & t),
            b,
            bits::parity_of(b & t),
            0,
        );
    }

    /// The all-zero register stays zero.
    pub proof fn lemma_zero_is_fixed(self, k: nat)
        requires
            self.valid(),
        ensures
            self.next(0) == 0,
            self.state_at(0, k) == 0,
        decreases k,
    {
        assert(0 & self.taps == 0) by {
            let t = self.taps;
            assert(0 & t == 0) by (bit_vector);
        }
        assert(bits::parity_of(0) == 0);
        lemma_shifted(self.bits, 0, 0, 0, 0, 0);
        if k > 0 {
            self.lemma_zero_is_fixed((k - 1) as nat);
        }
    }

    /// The bits of the register after a step.
    pub proof fn lemma_next_bit(self, s: u32, i: u32)
        requires
            self.valid(),
            s <= bits::low_mask(self.bits),
            i < 32,
        ensures
            bits::bit(self.next(s), i) == (if i + 1 < self.bits {
                bits::bit(s, (i + 1) as u32)
            } else {
                i + 1 == self.bits && bits::parity_of(s & self.taps) == 1
            }),
            bits::bit(s, 0) == (s & 1 == 1),
            s & 1 <= 1,
            i >= self.bits ==> !bits::bit(s, i),
    {
        bits::lemma_parity_is_fold(s & self.taps);
        lemma_shifted(self.bits, s, bits::parity_of(s & self.taps), s, 0, i);
    }

    /// Stepping back undoes a step: with the lowest bit tapped, as every register
    /// whose states form cycles has it, the value before the step comes back.
    pub proof fn lemma_step_back_undoes_step(self, s: u32, r: Option<u32>)
        requires
            self.valid(),
            s <= bits::low_mask(self.bits),
            bits::bit(self.taps, 0),
            self.is_step_back(self.next(s), r),
        ensures
            r == Some(s),
    {
        self.lemma_next_bounded(s);
        bits::lemma_mask_bound(self.next(s), self.bits);
        let q = r->0;
        let d = q ^ s;
        self.lemma_next_linear(q, s);
        bits::lemma_xor_group(self.next(q), self.next(s), 0);
        bits::lemma_xor_group(q, s, 0);
        assert forall|i: u32| 1 <= i < 32 implies !#[trigger] bits::bit(d, i) by {
            self.lemma_next_bit(d, (i - 1) as u32);
            self.lemma_next_bit(d, i);
            bits::lemma_word_bits(0, 0, (i - 1) as u32, i);
        }
        let top = (self.bits - 1) as u32;
        self.lemma_next_bit(d, top);
        bits::lemma_word_bits(0, 0, top, top);
        bits::lemma_word_bits(0, 0, 0, 0);
        if bits::bit(d, 0) {
            assert forall|i: u32| i < 32 implies bits::bit(d, i) == bits::bit(bits::unit(0), i) by {
                bits::lemma_word_bits(0, 0, 0, i);
            }
            bits::lemma_bits_determine(d, bits::unit(0));
            bits::lemma_dot_unit(0, self.taps);
        } else {
            assert forall|i: u32| i < 32 implies bits::bit(d, i) == bits::bit(0, i) by {
                bits::lemma_word_bits(0, 0, i, i);
            }
            bits::lemma_bits_determine(d, 0);
        }
    }

    /// Bit `j` of the register is the output bit `j` steps ahead.
    pub proof fn lemma_state_bit_is_output(self, s: u32, k: nat, j: u32)
        requires
            self.valid(),
            s <= bits::low_mask(self.bits),
            j < self.bits,
        ensures
            bits::bit(self.state_at(s, k), j) == (self.output_at(s, k + j as nat) == 1),
        decreases j,
    {
        self.lemma_state_bounded(s, k);
        let v = self.state_at(s, k);
        if j == 0 {
            self.lemma_next_bit(v, 0);
            assert(k + 0nat == k);
        } else {
            self.lemma_next_bit(v, (j - 1) as u32);
            assert(self.state_at(s, k + 1) == self.next(v));
            self.lemma_state_bit_is_output(s, k + 1, (j - 1) as u32);
            assert(k + 1 + (j - 1) as nat == k + j as nat);
        }
    }

    /// The window property: `bits` consecutive output bits, taken from index `k`
    /// on and packed earliest lowest, are the register at step `k`.
    pub proof fn lemma_window_packs_to_state(self, seed: u32, k: nat, window: Seq<u8>)
        requires
            self.valid(),
            seed <= bits::low_mask(self.bits),
            window.len() == self.bits,
            forall|j: int|
                0 <= j < window.len() ==> #[trigger] window[j] == self.output_at(
                    seed,
                    k + j as nat,
                ),
        ensures
            lfsr::packs(window, self.state_at(seed, k)),
            lfsr::packed(window) == self.state_at(seed, k),
    {
        self.lemma_state_bounded(seed, k);
        let v = self.state_at(seed, k);
        assert forall|i: u32| i < 32 implies #[trigger] bits::bit(v, i) == (i < window.len()
            && window[i as int] & 1 == 1) by {
            self.lemma_next_bit(v, i);
            if i < self.bits {
                self.lemma_state_bit_is_output(seed, k, i);
                let w = window[i as int];
                let raw = self.state_at(seed, k + i as nat);
                bits::lemma_low_bit(raw, w);
            }
        }
        assert(lfsr::packs(window, v));
        lemma_packs_unique(window, v, lfsr::packed(window));
    }

    /// The recurrence of the output: the bit `bits` places on is the parity of
    /// the tapped bits of the window before it.
    pub proof fn lemma_output_recurrence(self, seed: u32, k: nat)
        requires
            self.valid(),
            seed <= bits::low_mask(self.bits),
        ensures
            self.output_at(seed, k + self.bits as nat) == bits::parity_of(
                self.state_at(seed, k) & self.taps,
            ),
    {
        let v = self.state_at(seed, k);
        self.lemma_state_bounded(seed, k);
        bits::lemma_parity_is_fold(v & self.taps);
        let top = (self.bits - 1) as u32;
        self.lemma_next_bit(v, top);
        assert(self.state_at(seed, k + 1) == self.next(v));
        self.lemma_state_bit_is_output(seed, k + 1, top);
        assert(k + 1 + top as nat == k + self.bits as nat);
        self.lemma_state_bounded(seed, k + self.bits as nat);
        self.lemma_next_bit(self.state_at(seed, k + self.bits as nat), 0);
    }
}

/// The value 1 fits every register.
pub proof fn lemma_one_in_register(l: Lfsr)
    requires
        l.valid(),
    ensures
        1 <= bits::low_mask(l.bits),
{
    lemma_shifted(l.bits, 0, 0, 0, 0, 0);
}

/// A window of up to 32 bits packs to a value.
pub proof fn lemma_packed(window: Seq<u8>)
    requires
        window.len() <= 32,
    ensures
        lfsr::packs(window, lfsr::packed(window)),
    decreases window.len(),
{
    if window.len() == 0 {
        assert forall|i: u32| i < 32 implies !#[trigger] bits::bit(0, i) by {
            bits::lemma_word_bits(0, 0, i, i);
        }
        assert(lfsr::packs(window, 0));
    } else {
        let n = (window.len() - 1) as u32;
        let rest = window.drop_last();
        lemma_packed(rest);
        let low = lfsr::packed(rest);
        let b: u32 = if window[n as int] & 1 == 1 {
            1
        } else {
            0
        };
        let v = low | (b << n);
        assert forall|i: u32| i < 32 implies #[trigger] bits::bit(v, i) == (i < window.len()
            && window[i as int] & 1 == 1) by {
            bits::lemma_or_bit(low, b, n, i);
            assert(bits::bit(low, i) == (i < rest.len() && rest[i as int] & 1 == 1));
        }
        assert(lfsr::packs(window, v));
    }
}

/// A window packs to one value only.
pub proof fn lemma_packs_unique(window: Seq<u8>, a: u32, b: u32)
    requires
        lfsr::packs(window, a),
        lfsr::packs(window, b),
    ensures
        a == b,
{
    bits::lemma_bits_determine(a, b);
}

impl Lfsr {
    /// The least number of steps after which the register is back at 1.
    pub proof fn lemma_least_return(self, k: nat) -> (t: nat)
        requires
            k > 0,
            self.state_at(1, k) == 1,
        ensures
            0 < t <= k,
            self.state_at(1, t) == 1,
            forall|j: nat| 0 < j < t ==> #[trigger] self.state_at(1, j) != 1,
        decreases k,
    {
        if exists|j: nat| 0 < j < k && #[trigger] self.state_at(1, j) == 1 {
            let j = choose|j: nat| 0 < j < k && #[trigger] self.state_at(1, j) == 1;
            self.lemma_least_return(j)
        } else {
            k
        }
    }

    /// Coming back to 1 repeats.
    pub proof fn lemma_return_multiple(self, t: nat, j: nat)
        requires
            self.state_at(1, t) == 1,
        ensures
            self.state_at(1, t * j) == 1,
        decreases j,
    {
        if j == 0 {
            assert(t * 0 == 0);
        } else {
            let i = (j - 1) as nat;
            self.lemma_return_multiple(t, i);
            self.lemma_state_adds(1, t * i, t);
            assert(t * i + t == t * j) by (nonlinear_arith)
                requires
                    i == j - 1,
            ;
        }
    }

    /// On a maximal cycle no state occurs twice within a period, and none is zero.
    pub proof fn lemma_maximal_states_distinct(self, start: u32, i: nat, j: nat)
        requires
            self.valid(),
            self.maximal_from(start),
            i < j < self.period(),
        ensures
            self.state_at(start, i) != self.state_at(start, j),
            self.state_at(start, i) != 0,
            self.state_at(start, j) != 0,
    {
        let p = self.period();
        let back_i = (p - i) as nat;
        let back_j = (p - j) as nat;
        self.lemma_state_adds(start, i, back_i);
        self.lemma_state_adds(start, j, back_j);
        self.lemma_state_adds(start, i, back_j);
        self.lemma_zero_is_fixed(back_i);
        self.lemma_zero_is_fixed(back_j);
        assert(0 < i + back_j < p);
        assert(self.state_at(start, i + back_j) != start);
    }

    /// A maximal cycle visits every nonzero register value.
    pub proof fn lemma_maximal_visits(self, start: u32, v: u32) -> (k: nat)
        requires
            self.valid(),
            self.maximal_from(start),
            start <= bits::low_mask(self.bits),
            0 < v <= bits::low_mask(self.bits),
        ensures
            k < self.period(),
            self.state_at(start, k) == v,
    {
        let p = self.period();
        bits::lemma_low_mask_is_pow2(self.bits);
        let f = |i: int| self.state_at(start, i as nat) as int;
        assert forall|i: int| 0 <= i < p implies 1 <= #[trigger] f(i) <= p by {
            self.lemma_state_bounded(start, i as nat);
            if i + 1 < p {
                self.lemma_maximal_states_distinct(start, i as nat, (i + 1) as nat);
            } else if i > 0 {
                self.lemma_maximal_states_distinct(start, 0, i as nat);
            }
        }
        assert forall|i: int, j: int| 0 <= i < j < p implies #[trigger] f(i) != #[trigger] f(j) by {
            self.lemma_maximal_states_distinct(start, i as nat, j as nat);
        }
        counting::lemma_injection_is_onto(f, p as int, v as int);
        let i = choose|i: int| 0 <= i < p && #[trigger] f(i) == v as int;
        i as nat
    }

    /// The output of a maximal register repeats with the period.
    pub proof fn lemma_maximal_period(self, start: u32, k: nat)
        requires
            self.maximal_from(start),
        ensures
            self.state_at(start, k + self.period()) == self.state_at(start, k),
            self.output_at(start, k + self.period()) == self.output_at(start, k),
    {
        self.lemma_state_adds(start, self.period(), k);
        assert(k + self.period() == self.period() + k);
    }

    /// Maximal length does not depend on the nonzero value it is measured from.
    pub proof fn lemma_maximal_from_any(self, start: u32, other: u32)
        requires
            self.valid(),
            self.maximal_from(start),
            start <= bits::low_mask(self.bits),
            0 < other <= bits::low_mask(self.bits),
        ensures
            self.maximal_from(other),
            self.maximal(),
    {
        self.lemma_maximal_transfers(start, other);
        lemma_shifted(self.bits, 0, 0, 0, 0, 0);
        self.lemma_maximal_transfers(start, 1);
    }

    proof fn lemma_maximal_transfers(self, start: u32, other: u32)
        requires
            self.valid(),
            self.maximal_from(start),
            start <= bits::low_mask(self.bits),
            0 < other <= bits::low_mask(self.bits),
        ensures
            self.maximal_from(other),
    {
        let p = self.period();
        let d = self.lemma_maximal_visits(start, other);
        self.lemma_state_adds(start, d, p);
        self.lemma_maximal_period(start, d);
        assert forall|k: nat| 0 < k < p implies #[trigger] self.state_at(other, k) != other by {
            self.lemma_state_adds(start, d, k);
            if d + k < p {
                self.lemma_maximal_states_distinct(start, d, d + k);
            } else {
                let e = (d + k - p) as nat;
                self.lemma_maximal_period(start, e);
                assert(e + p == d + k);
                assert(e < d);
                self.lemma_maximal_states_distinct(start, e, d);
            }
        }
    }

    /// A register whose lowest tap is clear shifts 1 out into zero, so a maximal
    /// one has it set.
    proof fn lemma_maximal_taps_odd(self)
        requires
            self.maximal(),
        ensures
            self.taps & 1 == 1,
    {
        let t = self.taps;
        if t & 1 != 1 {
            assert(t & 1 != 1 ==> 1 & t == 0) by (bit_vector);
            assert(bits::parity_of(0) == 0);
            lemma_shifted(self.bits, 0, 0, 0, 0, 0);
            assert(self.next(1) == 0) by {
                assert forall|i: u32| i < 32 implies bits::bit(self.next(1), i) == bits::bit(
                    0,
                    i,
                ) by {
                    lemma_shifted(self.bits, 1, 0, 0, 0, i);
                    bits::lemma_word_bits(0, 0, i, i);
                }
                bits::lemma_bits_determine(self.next(1), 0);
            }
            self.lemma_state_adds(1, 1, (self.period() - 1) as nat);
            assert(self.state_at(1, 1) == 0) by {
                reveal_with_fuel(Lfsr::state_at, 2);
            }
            self.lemma_zero_is_fixed((self.period() - 1) as nat);
            bits::lemma_low_mask_is_pow2(self.bits);
            assert(1 + (self.period() - 1) as nat == self.period());
        }
    }

    /// Values that step to the same value differ in the lowest bit at most, and
    /// with the lowest tap set not at all.
    pub proof fn lemma_next_twins(self, a: u32, b: u32)
        requires
            self.valid(),
            a <= bits::low_mask(self.bits),
            b <= bits::low_mask(self.bits),
            self.next(a) == self.next(b),
        ensures
            a == b || (a ^ b == 1 && self.taps & 1 == 0),
            a != b && b & 1 == 0 ==> b < a,
    {
        let d = a ^ b;
        self.lemma_next_linear(a, b);
        bits::lemma_xor_group(a, b, 0);
        bits::lemma_xor_group(self.next(a), self.next(b), 0);
        assert(self.next(d) == 0);
        let t = self.taps;
        bits::lemma_parity_is_fold(d & t);
        let n = self.bits;
        let f = bits::parity_of(d & t);
        assert(f == 0 && (d == 0 || d == 1) && (d == 1 ==> d & t == t & 1) && (t & 1 == 0 || t & 1
            == 1) && (a ^ b == 1 && b & 1 == 0 ==> b < a)) by (bit_vector)
            requires
                1 <= n <= 32,
                d <= bits::low_mask(n),
                f <= 1,
                shifted(n, d, f) == 0,
        ;
        assert(bits::parity_of(1) == 1) by {
            reveal_with_fuel(bits::ones, 2);
        }
    }
}

impl Lfsr {
    /// Stepping back undoes a step: for every register value if the lowest tap is
    /// set, and else, where a step forgets the lowest bit, for the even values.
    pub proof fn lemma_step_back_inverts_step(self, s: u32, r: Option<u32>)
        requires
            self.valid(),
            self.taps & 1 == 1 || s & 1 == 0,
            s <= bits::low_mask(self.bits),
            self.is_step_back(self.next(s), r),
        ensures
            r == Some(s),
    {
        self.lemma_next_bounded(s);
        bits::lemma_mask_bound(self.next(s), self.bits);
        match r {
            Some(prev) => self.lemma_next_twins(prev, s),
            None => assert(self.next(s) != self.next(s) & bits::low_mask(self.bits)),
        }
    }

    /// On a maximal-length register stepping back always succeeds, and a step
    /// leads forward again; its lowest tap is set, so that stepping back undoes
    /// every step.
    pub proof fn lemma_maximal_steps_back(self, s: u32, r: Option<u32>)
        requires
            self.maximal(),
            s <= bits::low_mask(self.bits),
            self.is_step_back(s, r),
        ensures
            r is Some,
            self.next(r->0) == s,
            self.taps & 1 == 1,
    {
        self.lemma_maximal_taps_odd();
        lemma_shifted(self.bits, 0, 0, 0, 0, 0);
        bits::lemma_mask_bound(s, self.bits);
        bits::lemma_low_mask_is_pow2(self.bits);
        if s == 0 {
            self.lemma_zero_is_fixed(0);
            assert(self.next(0) == s);
        } else {
            let k = self.lemma_maximal_visits(1, s);
            let before = if k == 0 {
                (self.period() - 1) as nat
            } else {
                (k - 1) as nat
            };
            self.lemma_state_bounded(1, before);
            assert(self.state_at(1, before + 1) == self.next(self.state_at(1, before)));
            assert(self.next(self.state_at(1, before)) == s);
        }
    }
}

} // verus!
