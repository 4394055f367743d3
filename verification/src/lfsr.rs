//! Generic Fibonacci LFSR.
//!
//! One step emits the lowest bit of the register and shifts right, feeding the
//! parity of the tapped bits into the top:
//!
//! ```text
//! out       = state & 1
//! feedback  = parity(state & taps)
//! state'    = (state >> 1) | (feedback << (bits - 1))
//! ```
//!
//! In this convention the register equals its next `bits` output bits,
//! lowest first, so a window of output bits packs straight back into a register
//! value (see [`pack_state`]).

use crate::bits;
use vstd::arithmetic::power2::*;
use vstd::prelude::*;

verus! {

/// Parity (XOR of all bits) of `v`.
pub fn parity(v: u32) -> (r: u32)
    ensures
        r == bits::parity_of(v),
{
    proof {
        bits::lemma_parity_is_fold(v);
    }
    let halved: u32 = v ^ (v >> 16);
    let halved: u32 = halved ^ (halved >> 8);
    let halved: u32 = halved ^ (halved >> 4);
    let halved: u32 = halved ^ (halved >> 2);
    let halved: u32 = halved ^ (halved >> 1);
    halved & 1
}

/// A Fibonacci LFSR configuration.
#[derive(Clone, Copy, Debug, PartialEq, Eq, Structural)]
pub struct Lfsr {
    /// Register width in bits (e.g. 20).
    pub bits: u32,
    /// Feedback tap mask (feedback polynomial), width `bits`.
    pub taps: u32,
}

impl Lfsr {
    /// A register width that can be stepped.
    pub open spec fn valid(self) -> bool {
        1 <= self.bits <= 32
    }

    /// The register after one step from `s`.
    pub open spec fn next(self, s: u32) -> u32 {
        ((s >> 1) | (bits::parity_of(s & self.taps) << ((self.bits - 1) as u32))) & bits::low_mask(self.bits)
    }

    /// The register `k` steps after it held `s`.
    pub open spec fn state_at(self, s: u32, k: nat) -> u32
        decreases k,
    {
        if k == 0 {
            s
        } else {
            self.next(self.state_at(s, (k - 1) as nat))
        }
    }

    /// The output bit `k` steps after the register held `s`.
    pub open spec fn output_at(self, s: u32, k: nat) -> u8 {
        (self.state_at(s, k) & 1) as u8
    }

    /// Number of nonzero register values, `2^bits - 1`.
    pub open spec fn period(self) -> nat {
        (pow2(self.bits as nat) - 1) as nat
    }

    /// The register first comes back to `start` after exactly `period` steps.
    pub open spec fn maximal_from(self, start: u32) -> bool {
        &&& start != 0
        &&& self.state_at(start, self.period()) == start
        &&& forall|k: nat| 0 < k < self.period() ==> #[trigger] self.state_at(start, k) != start
    }

    /// A maximal-length register: its nonzero values form one cycle.
    pub open spec fn maximal(self) -> bool {
        self.valid() && self.maximal_from(1)
    }

    pub fn new(bits: u32, taps: u32) -> (r: Self)
        ensures
            r.bits == bits,
            r.taps == taps,
    {
        Lfsr { bits, taps }
    }

    /// Mask of `bits` set low bits.
    pub fn mask(&self) -> (r: u32)
        ensures
            r == bits::low_mask(self.bits),
    {
        if self.bits >= 32 {
            u32::MAX
        } else {
            let one: u32 = 1;
            let b: u32 = self.bits;
            assert(b < 32 ==> 1u32 << b >= 1) by (bit_vector);
            (one << self.bits) - 1
        }
    }

    /// Advance one step, returning the emitted bit and updating `state`.
    pub fn step(&self, state: &mut u32) -> (out: u32)
        requires
            self.valid(),
        ensures
            out == *old(state) & 1,
            *final(state) == self.next(*old(state)),
            *final(state) == ((*old(state) >> 1) | (bits::parity_of(*old(state) & self.taps) << ((
            self.bits - 1) as u32))) & bits::low_mask(self.bits),
    {
        let out: u32 = *state & 1;
        let fb: u32 = parity(*state & self.taps);
        *state = ((*state >> 1) | (fb << (self.bits - 1))) & self.mask();
        out
    }

    /// `r` is the smallest register value that steps to `state`, if there is one.
    pub open spec fn is_step_back(self, state: u32, r: Option<u32>) -> bool {
        let target = state & bits::low_mask(self.bits);
        match r {
            Some(prev) => {
                &&& prev <= bits::low_mask(self.bits)
                &&& self.next(prev) == target
                &&& forall|q: u32|
                    q <= bits::low_mask(self.bits) && #[trigger] self.next(q) == target ==> prev
                        <= q
            },
            None => forall|q: u32|
                q <= bits::low_mask(self.bits) ==> #[trigger] self.next(q) != target,
        }
    }

    /// Reverse one step: given the state *after* a forward step, recover the
    /// state *before* it. Returns `None` if no consistent predecessor exists.
    /// Where two predecessors exist (the lowest tap is clear) the smaller comes
    /// back.
    pub fn step_back(&self, state: u32) -> (r: Option<u32>)
        requires
            self.valid(),
        ensures
            self.is_step_back(state, r),
            r matches Some(prev) ==> prev <= bits::low_mask(self.bits) && self.next(prev) == state
                & bits::low_mask(self.bits),
            r is None ==> forall|q: u32|
                q <= bits::low_mask(self.bits) ==> #[trigger] self.next(q) != state
                    & bits::low_mask(self.bits),
            forall|q: u32|
                q <= bits::low_mask(self.bits) && #[trigger] self.next(q) == state & bits::low_mask(
                    self.bits,
                ) ==> r is Some && r->0 <= q,
    {
        let mask: u32 = self.mask();
        let one: u32 = 1;
        let top: u32 = (state >> (self.bits - 1)) & 1;
        let low: u32 = (state & mask) & !(one << (self.bits - 1));
        let mut lsb: u32 = 0;
        while lsb < 2
            invariant
                self.valid(),
                lsb <= 2,
                mask == bits::low_mask(self.bits),
                top == (state >> ((self.bits - 1) as u32)) & 1,
                low == (state & mask) & !(1u32 << ((self.bits - 1) as u32)),
                forall|q: u32|
                    q <= bits::low_mask(self.bits) && #[trigger] self.next(q) == state & bits::low_mask(
                        self.bits,
                    ) ==> lsb <= q & 1,
            decreases 2 - lsb,
        {
            let prev: u32 = ((low << 1) | lsb) & mask;
            proof {
                self.lemma_predecessor(state, prev, lsb);
                assert forall|q: u32|
                    q <= bits::low_mask(self.bits) && #[trigger] self.next(q) == state & bits::low_mask(
                        self.bits,
                    ) implies (q & 1 == lsb ==> q == prev) && (lsb <= q & 1 ==> prev <= q) by {
                    self.lemma_predecessor_unique(state, prev, lsb, q);
                }
            }
            if parity(prev & self.taps) == top {
                return Some(prev);
            }
            lsb = lsb + 1;
        }
        proof {
            assert forall|q: u32| q <= bits::low_mask(self.bits) implies #[trigger] self.next(q) != state
                & bits::low_mask(self.bits) by {
                assert(q & 1 < 2) by (bit_vector);
            }
        }
        None
    }

    /// The candidate predecessor is one exactly if its feedback fits.
    proof fn lemma_predecessor(self, state: u32, prev: u32, lsb: u32)
        requires
            self.valid(),
            lsb < 2,
            prev == (((((state & bits::low_mask(self.bits)) & !(1u32 << ((self.bits - 1) as u32))) << 1)
                | lsb) & bits::low_mask(self.bits)),
        ensures
            prev <= bits::low_mask(self.bits),
            (bits::parity_of(prev & self.taps) == (state >> ((self.bits - 1) as u32)) & 1) == (self.next(
                prev,
            ) == state & bits::low_mask(self.bits)),
    {
        let n = self.bits;
        let fb = bits::parity_of(prev & self.taps);
        bits::lemma_parity_is_fold(prev & self.taps);
        assert(prev <= bits::low_mask(n) && ((fb == (state >> ((n - 1) as u32)) & 1) == (((prev >> 1) | (fb
            << ((n - 1) as u32))) & bits::low_mask(n) == state & bits::low_mask(n)))) by (bit_vector)
            requires
                1 <= n <= 32,
                lsb < 2,
                fb == 0 || fb == 1,
                prev == (((((state & bits::low_mask(n)) & !(1u32 << ((n - 1) as u32))) << 1) | lsb)
                    & bits::low_mask(n)),
        ;
    }

    proof fn lemma_predecessor_unique(self, state: u32, prev: u32, lsb: u32, q: u32)
        requires
            self.valid(),
            lsb < 2,
            prev == (((((state & bits::low_mask(self.bits)) & !(1u32 << ((self.bits - 1) as u32))) << 1)
                | lsb) & bits::low_mask(self.bits)),
            q <= bits::low_mask(self.bits),
            self.next(q) == state & bits::low_mask(self.bits),
        ensures
            q & 1 == lsb ==> q == prev,
            lsb <= q & 1 ==> prev <= q,
    {
        let n = self.bits;
        let fb = bits::parity_of(q & self.taps);
        bits::lemma_parity_is_fold(q & self.taps);
        assert((q & 1 == lsb ==> q == prev) && (lsb <= q & 1 ==> prev <= q)) by (bit_vector)
            requires
                1 <= n <= 32,
                lsb < 2,
                fb == 0 || fb == 1,
                prev == (((((state & bits::low_mask(n)) & !(1u32 << ((n - 1) as u32))) << 1) | lsb)
                    & bits::low_mask(n)),
                q <= bits::low_mask(n),
                ((q >> 1) | (fb << ((n - 1) as u32))) & bits::low_mask(n) == state & bits::low_mask(n),
        ;
    }

    /// Generate the full output sequence starting from `seed`, length equal to
    /// the period. For a maximal-length polynomial with a nonzero seed it is
    /// `2^bits - 1` bits long and visits every nonzero state exactly once.
    pub fn sequence(&self, seed: u32) -> (out: Vec<u8>)
        requires
            self.bits <= 32,
        ensures
            out@.len() == self.period(),
            forall|k: int|
                0 <= k < out@.len() ==> #[trigger] out@[k] == self.output_at(
                    seed & bits::low_mask(self.bits),
                    k as nat,
                ),
    {
        proof {
            bits::lemma_low_mask_is_pow2(self.bits);
            lemma2_to64();
        }
        let period: u64 = (1u64 << self.bits) - 1;
        let mut state: u32 = seed & self.mask();
        let mut out: Vec<u8> = Vec::with_capacity(period as usize);
        let mut k: u64 = 0;
        while k < period
            invariant
                self.bits <= 32,
                period == self.period(),
                period > 0 ==> self.valid(),
                k <= period,
                out@.len() == k,
                state == self.state_at(seed & bits::low_mask(self.bits), k as nat),
                forall|i: int|
                    0 <= i < k ==> #[trigger] out@[i] == self.output_at(
                        seed & bits::low_mask(self.bits),
                        i as nat,
                    ),
            decreases period - k,
        {
            let b: u32 = self.step(&mut state);
            out.push(b as u8);
            k = k + 1;
        }
        out
    }

    /// True if `(bits, taps)` generate a maximal-length sequence from `seed`
    /// (period `2^bits - 1`, every nonzero state visited once). O(period).
    pub fn is_maximal_length(&self, seed: u32) -> (r: bool)
        requires
            self.bits <= 32 || (self.bits < 64 && seed == 0),
        ensures
            r == self.maximal_from(seed & bits::low_mask(self.bits)),
            r ==> seed & bits::low_mask(self.bits) != 0 && self.state_at(
                seed & bits::low_mask(self.bits),
                self.period(),
            ) == seed & bits::low_mask(self.bits),
            r ==> forall|k: nat|
                0 < k < self.period() ==> #[trigger] self.state_at(
                    seed & bits::low_mask(self.bits),
                    k,
                ) != seed & bits::low_mask(self.bits),
            !r && seed & bits::low_mask(self.bits) != 0 && self.state_at(
                seed & bits::low_mask(self.bits),
                self.period(),
            ) == seed & bits::low_mask(self.bits) ==> exists|k: nat|
                0 < k < self.period() && #[trigger] self.state_at(
                    seed & bits::low_mask(self.bits),
                    k,
                ) == seed & bits::low_mask(self.bits),
    {
        let start: u32 = seed & self.mask();
        if start == 0 {
            return false;
        }
        proof {
            assert(0u32 & u32::MAX == 0 && seed & 0 == 0) by (bit_vector);
            assert(1u32 << 0u32 == 1) by (bit_vector);
            bits::lemma_low_mask_is_pow2(self.bits);
            lemma2_to64();
            lemma_pow2_strictly_increases(0, self.bits as nat);
        }
        let period: u64 = (1u64 << self.bits) - 1;
        let mut state: u32 = start;
        let mut i: u64 = 0;
        while i < period
            invariant
                self.bits <= 32,
                start != 0,
                period == self.period(),
                period > 0,
                self.valid(),
                start == seed & bits::low_mask(self.bits),
                i <= period,
                state == self.state_at(start, i as nat),
                forall|k: nat| 0 < k <= i ==> #[trigger] self.state_at(start, k) != start,
            decreases period - i,
        {
            self.step(&mut state);
            if state == start {
                assert(self.state_at(start, (i + 1) as nat) == start);
                return i + 1 == period;
            }
            i = i + 1;
        }
        false
    }
}

/// The value of a window of bits, earliest bit lowest.
pub open spec fn packs(window: Seq<u8>, v: u32) -> bool {
    forall|i: u32| i < 32 ==> #[trigger] bits::bit(v, i) == (i < window.len() && window[i as int] & 1 == 1)
}

/// The value that a window of up to 32 bits packs to.
pub open spec fn packed(window: Seq<u8>) -> u32 {
    choose|v: u32| packs(window, v)
}

/// Pack output bits (`window[0]` is the earliest) into the register value at the
/// time of `window[0]`.
pub fn pack_state(window: &[u8]) -> (s: u32)
    requires
        window@.len() <= 32,
    ensures
        packs(window@, s),
        s == packed(window@),
        forall|i: u32|
            i < window@.len() ==> ((#[trigger] (s >> i)) & 1 == 1 <==> window@[i as int] & 1 == 1),
        forall|i: u32| window@.len() <= i < 32 ==> (#[trigger] (s >> i)) & 1 != 1,
{
    let mut s: u32 = 0;
    let mut i: usize = 0;
    proof {
        assert(forall|j: u32| j < 32 ==> !bits::bit(0, j)) by (bit_vector);
    }
    while i < window.len()
        invariant
            i <= window@.len() <= 32,
            forall|j: u32|
                j < 32 ==> #[trigger] bits::bit(s, j) == (j < i && window@[j as int] & 1 == 1),
        decreases window@.len() - i,
    {
        let b: u32 = (window[i] & 1) as u32;
        let ghost before = s;
        s = s | (b << (i as u32));
        proof {
            let n = i as u32;
            let raw = window@[i as int];
            assert forall|j: u32| j < 32 implies #[trigger] bits::bit(s, j) == (j < i + 1 && window@[j as int]
                & 1 == 1) by {
                assert(bits::bit(before, j) == (j < i && window@[j as int] & 1 == 1));
                assert(bits::bit(before | (((raw & 1) as u32) << n), j) == (bits::bit(before, j) || (j == n && raw
                    & 1 == 1))) by (bit_vector)
                    requires
                        n < 32,
                        j < 32,
                ;
            }
        }
        i = i + 1;
    }
    proof {
        assert(packs(window@, s));
        bits::lemma_bits_determine(s, packed(window@));
        assert forall|i: u32| i < window@.len() implies ((#[trigger] (s >> i)) & 1 == 1
            <==> window@[i as int] & 1 == 1) by {
            assert(bits::bit(s, i) == (i < window@.len() && window@[i as int] & 1 == 1));
        }
        assert forall|i: u32| window@.len() <= i < 32 implies (#[trigger] (s >> i)) & 1 != 1 by {
            assert(bits::bit(s, i) == (i < window@.len() && window@[i as int] & 1 == 1));
        }
    }
    s
}

} // verus!
