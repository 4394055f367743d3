//! Why the shortest recurrence of enough output bits is the register's own.

use crate::bits;
use crate::lfsr::Lfsr;
use crate::orbit;
use crate::recurrence;
use vstd::prelude::*;

verus! {

/// `taps` is the tap mask of the recurrence: bit `l - i` is set for each
/// coefficient `i`.
pub open spec fn taps_of(taps: u32, l: nat, c: Seq<u8>) -> bool {
    forall|t: u32|
        t < 32 ==> #[trigger] bits::bit(taps, t) == (t < l && recurrence::coef(c, l - t))
}

/// The bits of a word, as summands.
spec fn word_bits(w: u32) -> spec_fn(int) -> bool {
    |i: int| bits::bit(w, i as u32)
}

/// Parity is the XOR of the bits.
proof fn lemma_parity_is_sum(w: u32, n: u32)
    requires
        n <= 32,
        w <= bits::low_mask(n),
    ensures
        (bits::parity_of(w) == 1) == recurrence::xor_sum(word_bits(w), n as nat),
    decreases n,
{
    if n == 0 {
        bits::lemma_selector_bounds(w, 0, 0);
        assert(bits::parity_of(0) == 0);
    } else {
        let m = (n - 1) as u32;
        let u = bits::unit(m);
        bits::lemma_selector_bounds(w, u, m);
        if bits::bit(w, m) {
            bits::lemma_word_bits(0, 0, m, m);
            assert(u <= bits::low_mask(n)) by {
                assert forall|i: u32| n <= i < 32 implies !#[trigger] bits::bit(u, i) by {
                    bits::lemma_word_bits(0, 0, m, i);
                }
                bits::lemma_bounded_by_bits(u, n);
            }
            let rest = w ^ u;
            lemma_parity_is_sum(rest, m);
            assert forall|i: int| 0 <= i < m implies #[trigger] word_bits(rest)(i) == word_bits(w)(
                i,
            ) by {
                bits::lemma_word_bits(w, u, i as u32, i as u32);
                bits::lemma_word_bits(0, 0, m, i as u32);
            }
            recurrence::lemma_xor_sum_same(word_bits(rest), word_bits(w), m as nat);
            bits::lemma_xor_group(w, u, 0);
            bits::lemma_parity_xor(rest, u);
            bits::lemma_parity_unit(m);
            bits::lemma_parity_is_fold(rest);
            bits::lemma_bit_xor(bits::parity_of(rest), 1);
        } else {
            lemma_parity_is_sum(w, m);
        }
    }
}

/// A prediction, earliest symbol first.
proof fn lemma_prediction_forwards(s: Seq<u8>, c: Seq<u8>, n: int, l: nat)
    ensures
        recurrence::predicted(s, c, n, l) == recurrence::xor_sum(
            |t: int| recurrence::coef(c, l - t) && recurrence::symbol(s, n - l + t),
            l,
        ),
{
    let back = |i: int| recurrence::coef(c, i + 1) && recurrence::symbol(s, n - (i + 1));
    let forth = |t: int| recurrence::coef(c, l - t) && recurrence::symbol(s, n - l + t);
    lemma_prediction_backwards(s, c, n, l);
    assert forall|t: int| 0 <= t < l implies #[trigger] forth(t) == back(l - 1 - t) by {
        assert(l - 1 - t + 1 == l - t);
        assert(n - (l - 1 - t + 1) == n - l + t);
    }
    recurrence::lemma_xor_sum_reversed(back, forth, l);
}

proof fn lemma_prediction_backwards(s: Seq<u8>, c: Seq<u8>, n: int, l: nat)
    ensures
        recurrence::predicted(s, c, n, l) == recurrence::xor_sum(
            |i: int| recurrence::coef(c, i + 1) && recurrence::symbol(s, n - (i + 1)),
            l,
        ),
    decreases l,
{
    if l > 0 {
        lemma_prediction_backwards(s, c, n, (l - 1) as nat);
    }
}

impl Lfsr {
    /// `s` holds output bits of the register from `start` on.
    pub open spec fn emits(self, start: u32, s: Seq<u8>) -> bool {
        forall|n: int| 0 <= n < s.len() ==> #[trigger] s[n] == self.output_at(start, n as nat)
    }

    proof fn lemma_emitted_symbol(self, start: u32, s: Seq<u8>, t: u32, m: u32)
        requires
            self.valid(),
            start <= bits::low_mask(self.bits),
            self.emits(start, s),
            m < self.bits,
            t + m < s.len(),
        ensures
            bits::bit(self.state_at(start, t as nat), m) == recurrence::symbol(s, t + m),
    {
        self.lemma_state_bit_is_output(start, t as nat, m);
        let v = self.state_at(start, (t + m) as nat);
        assert(s[t + m] == self.output_at(start, (t + m) as nat));
        let b = s[t + m];
        bits::lemma_low_bit(v, b);
    }

    /// The bits of a sum of states.
    proof fn lemma_orbit_sum_bit(self, start: u32, y: u32, m: nat, i: u32)
        requires
            m <= 32,
            i < 32,
        ensures
            bits::bit(self.orbit_sum(start, y, m), i) == recurrence::xor_sum(
                |t: int|
                    bits::bit(y, t as u32) && bits::bit(self.state_at(start, t as nat), i),
                m,
            ),
        decreases m,
    {
        bits::lemma_word_bits(0, 0, i, i);
        if m > 0 {
            let t = (m - 1) as u32;
            self.lemma_orbit_sum_bit(start, y, t as nat, i);
            bits::lemma_word_bits(
                self.orbit_sum(start, y, t as nat),
                self.state_at(start, t as nat),
                i,
                i,
            );
            bits::lemma_word_bits(self.orbit_sum(start, y, t as nat), 0, i, i);
        }
    }

    /// A recurrence of the emitted bits is a dependency of the states: the state
    /// after `l` steps is the sum of the states that the taps select.
    pub proof fn lemma_recurrence_is_dependency(
        self,
        start: u32,
        s: Seq<u8>,
        c: Seq<u8>,
        l: u32,
        taps: u32,
    )
        requires
            self.valid(),
            start <= bits::low_mask(self.bits),
            self.emits(start, s),
            s.len() >= 2 * self.bits,
            recurrence::generates(s, c, l as nat, s.len() as int),
            l <= self.bits,
            taps_of(taps, l as nat, c),
        ensures
            self.orbit_sum(start, taps, l as nat) == self.state_at(start, l as nat),
    {
        let sum = self.orbit_sum(start, taps, l as nat);
        let state = self.state_at(start, l as nat);
        self.lemma_orbit_sum_bounded(start, taps, l as nat);
        self.lemma_state_bounded(start, l as nat);
        assert forall|m: u32| m < 32 implies bits::bit(sum, m) == bits::bit(state, m) by {
            if m < self.bits {
                let of_states = |t: int|
                    bits::bit(taps, t as u32) && bits::bit(self.state_at(start, t as nat), m);
                let n = l + m;
                let of_symbols = |t: int|
                    recurrence::coef(c, l - t) && recurrence::symbol(s, n - l + t);
                self.lemma_orbit_sum_bit(start, taps, l as nat, m);
                assert forall|t: int| 0 <= t < l implies #[trigger] of_states(t) == of_symbols(
                    t,
                ) by {
                    self.lemma_emitted_symbol(start, s, t as u32, m);
                    assert(bits::bit(taps, t as u32) == (t < l && recurrence::coef(c, l - t)));
                }
                recurrence::lemma_xor_sum_same(of_states, of_symbols, l as nat);
                lemma_prediction_forwards(s, c, n, l as nat);
                assert(recurrence::symbol(s, n) == recurrence::predicted(s, c, n, l as nat));
                self.lemma_emitted_symbol(start, s, l, m);
            } else {
                bits::lemma_word_bits(sum, 0, m, self.bits);
                bits::lemma_word_bits(state, 0, m, self.bits);
            }
        }
        bits::lemma_bits_determine(sum, state);
    }

    /// The connection polynomial of the register.
    pub open spec fn connection(self) -> Seq<u8> {
        Seq::new(
            (self.bits + 1) as nat,
            |i: int|
                if i == 0 || bits::bit(self.taps, (self.bits - i) as u32) {
                    1u8
                } else {
                    0u8
                },
        )
    }

    /// The register's own recurrence gives its output.
    pub proof fn lemma_own_recurrence(self, start: u32, s: Seq<u8>)
        requires
            self.valid(),
            start <= bits::low_mask(self.bits),
            self.emits(start, s),
        ensures
            recurrence::generates(s, self.connection(), self.bits as nat, s.len() as int),
            taps_of(self.taps & bits::low_mask(self.bits), self.bits as nat, self.connection()),
    {
        let c = self.connection();
        let l = self.bits as nat;
        let mask = bits::low_mask(self.bits);
        bits::lemma_mask_bound(self.taps, self.bits);
        assert forall|t: u32| t < 32 implies #[trigger] bits::bit(self.taps & mask, t) == (t < l
            && recurrence::coef(c, l - t)) by {
            if t < l {
                lemma_mask_bit(self.taps, self.bits, t);
            } else {
                bits::lemma_word_bits(self.taps & mask, 0, t, self.bits);
            }
        }
        assert forall|n: int| l <= n < s.len() implies recurrence::symbol(s, n)
            == #[trigger] recurrence::predicted(s, c, n, l) by {
            let k = (n - l) as nat;
            let v = self.state_at(start, k);
            let w = v & self.taps;
            self.lemma_state_bounded(start, k);
            self.lemma_output_recurrence(start, k);
            assert(k + self.bits as nat == n as nat);
            assert(w <= mask) by {
                assert forall|i: u32| self.bits <= i < 32 implies !#[trigger] bits::bit(w, i) by {
                    bits::lemma_bit_and(v, self.taps, i);
                    bits::lemma_word_bits(v, 0, i, self.bits);
                }
                bits::lemma_bounded_by_bits(w, self.bits);
            }
            lemma_parity_is_sum(w, self.bits);
            bits::lemma_parity_is_fold(w);
            let forth = |t: int| recurrence::coef(c, l - t) && recurrence::symbol(s, n - l + t);
            assert forall|t: int| 0 <= t < l implies #[trigger] word_bits(w)(t) == forth(t) by {
                bits::lemma_bit_and(v, self.taps, t as u32);
                self.lemma_state_bit_is_output(start, k, t as u32);
                assert(s[n - l + t] == self.output_at(start, (n - l + t) as nat));
                let b = s[n - l + t];
                let at = self.state_at(start, (n - l + t) as nat);
                bits::lemma_low_bit(at, b);
                assert(k + t as u32 as nat == (n - l + t) as nat);
            }
            recurrence::lemma_xor_sum_same(word_bits(w), forth, l);
            lemma_prediction_forwards(s, c, n, l);
            let last = s[n];
            assert(last == self.output_at(start, n as nat));
            let at = self.state_at(start, n as nat);
            bits::lemma_low_bit(at, last);
        }
    }
}

/// Masking keeps the bits below the mask.
proof fn lemma_mask_bit(v: u32, n: u32, t: u32)
    by (bit_vector)
    requires
        n <= 32,
        t < n,
    ensures
        bits::bit(v & bits::low_mask(n), t) == bits::bit(v, t),
{
}

/// The recovery law: from twice `bits` consecutive output bits or more of a
/// maximal-length register, the shortest recurrence has length `bits` and its
/// taps are the register's.
pub proof fn lemma_recovers_register(
    register: Lfsr,
    start: u32,
    s: Seq<u8>,
    l: nat,
    c: Seq<u8>,
    taps: u32,
)
    requires
        register.maximal(),
        0 < start <= bits::low_mask(register.bits),
        register.emits(start, s),
        s.len() >= 2 * register.bits,
        recurrence::generates(s, c, l, s.len() as int),
        recurrence::shortest(s, l, s.len() as int),
        taps_of(taps, l, c),
    ensures
        l == register.bits,
        taps == register.taps & bits::low_mask(register.bits),
{
    let n = register.bits;
    orbit::lemma_one_in_register(register);
    register.lemma_maximal_from_any(1, start);
    register.lemma_own_recurrence(start, s);
    assert(l <= n);
    let l32 = l as u32;
    register.lemma_recurrence_is_dependency(start, s, c, l32, taps);
    if l < n {
        let v = taps ^ bits::unit(l32);
        register.lemma_orbit_sum_xor(start, taps, bits::unit(l32), l + 1);
        register.lemma_orbit_sum_unit(start, l32, l + 1);
        register.lemma_orbit_sum_extends(start, taps, l, l + 1);
        bits::lemma_xor_group(register.state_at(start, l), 0, 0);
        assert forall|i: u32| l < i < 32 implies !#[trigger] bits::bit(v, i) by {
            bits::lemma_word_bits(taps, bits::unit(l32), i, i);
            bits::lemma_word_bits(0, 0, l32, i);
        }
        register.lemma_orbit_sum_extends(start, v, l + 1, n as nat);
        bits::lemma_bounded_by_bits(v, n);
        register.lemma_maximal_independent(start, v);
        bits::lemma_word_bits(taps, bits::unit(l32), l32, l32);
    } else {
        let own = register.taps & bits::low_mask(n);
        register.lemma_recurrence_is_dependency(start, s, register.connection(), n, own);
        register.lemma_orbit_sum_xor(start, taps, own, n as nat);
        bits::lemma_xor_group(register.state_at(start, n as nat), 0, 0);
        assert forall|i: u32| n <= i < 32 implies !#[trigger] bits::bit(taps ^ own, i) by {
            bits::lemma_word_bits(taps, own, i, i);
            bits::lemma_mask_bound(register.taps, n);
            bits::lemma_word_bits(own, 0, i, n);
        }
        bits::lemma_bounded_by_bits(taps ^ own, n);
        register.lemma_maximal_independent(start, taps ^ own);
        bits::lemma_xor_group(taps, own, 0);
    }
}

} // verus!
