//! Discrete logarithms base `x`, and the positions they stand for.

use crate::bits;
use crate::field::Field;
use crate::lfsr::Lfsr;
use crate::orbit;
use vstd::arithmetic::div_mod::*;
use vstd::prelude::*;

verus! {

impl Field {
    /// `r` is the discrete logarithm of `h` base `x`, if it has one.
    pub open spec fn is_log(self, h: u32, r: Option<u32>) -> bool {
        match r {
            Some(e) => e < self.period && self.ring().x_to(e as nat) == h,
            None => forall|e: nat| e < self.period ==> #[trigger] self.ring().x_to(e) != h,
        }
    }

    /// Powers of `x` repeat with the period.
    pub proof fn lemma_x_repeats(self, l: Lfsr, k: nat, m: nat)
        requires
            self.wf(l),
        ensures
            self.ring().x_to(k + m * l.period()) == self.ring().x_to(k),
            self.ring().has(self.ring().x_to(k)),
        decreases m,
    {
        self.lemma_states_are_powers(l, k);
        self.ring().lemma_x_to_adds(k, 0);
        if m == 0 {
            assert(0 * l.period() == 0);
        } else {
            let i = (m - 1) as nat;
            let e = k + i * l.period();
            self.lemma_x_repeats(l, k, i);
            l.lemma_maximal_period(1, e);
            self.lemma_states_are_powers(l, e);
            self.lemma_states_are_powers(l, e + l.period());
            assert(e + l.period() == k + m * l.period()) by (nonlinear_arith)
                requires
                    e == k + i * l.period(),
                    i == m - 1,
            ;
        }
    }

    /// A power of `x` depends on the exponent modulo the period only.
    pub proof fn lemma_x_mod(self, l: Lfsr, k: nat)
        requires
            self.wf(l),
        ensures
            l.period() > 0,
            k % l.period() < l.period(),
            self.ring().x_to(k % l.period()) == self.ring().x_to(k),
    {
        let p = l.period();
        bits::lemma_low_mask_is_pow2(l.bits);
        orbit::lemma_one_in_register(l);
        lemma_fundamental_div_mod(k as int, p as int);
        lemma_mod_bound(k as int, p as int);
        self.lemma_x_repeats(l, k % p, k / p);
        assert(k % p + (k / p) * p == k) by (nonlinear_arith)
            requires
                k == p * (k / p) + k % p,
        ;
    }

    /// Within a period the powers of `x` differ.
    pub proof fn lemma_x_injective(self, l: Lfsr, i: nat, j: nat)
        requires
            self.wf(l),
            i < l.period(),
            j < l.period(),
            self.ring().x_to(i) == self.ring().x_to(j),
        ensures
            i == j,
    {
        orbit::lemma_one_in_register(l);
        self.lemma_states_are_powers(l, i);
        self.lemma_states_are_powers(l, j);
        l.lemma_state_bounded(1, i);
        l.lemma_state_bounded(1, j);
        self.lemma_coordinates(l, l.state_at(1, i), l.state_at(1, j));
        if i < j {
            l.lemma_maximal_states_distinct(1, i, j);
        } else if j < i {
            l.lemma_maximal_states_distinct(1, j, i);
        }
    }

    /// The coordinates of a nonzero register value have a logarithm, the number
    /// of steps to it from 1; those of zero have none.
    pub proof fn lemma_log_of_state(self, l: Lfsr, s: u32, r: Option<u32>)
        requires
            self.wf(l),
            s <= self.mask,
            self.is_log(self.coordinates(s), r),
        ensures
            r is Some <==> s != 0,
            r matches Some(e) ==> l.state_at(1, e as nat) == s,
    {
        orbit::lemma_one_in_register(l);
        match r {
            Some(e) => {
                self.lemma_states_are_powers(l, e as nat);
                l.lemma_state_bounded(1, e as nat);
                self.lemma_coordinates(l, l.state_at(1, e as nat), s);
                if e + 1 < l.period() {
                    l.lemma_maximal_states_distinct(1, e as nat, e as nat + 1);
                } else if e > 0 {
                    l.lemma_maximal_states_distinct(1, 0, e as nat);
                }
            },
            None => {
                if s != 0 {
                    let e = l.lemma_maximal_visits(1, s);
                    self.lemma_states_are_powers(l, e);
                    assert(self.ring().x_to(e) != self.coordinates(s));
                }
            },
        }
    }

    /// The position of a register value is the difference of the logarithms of
    /// the value and of the seed.
    pub proof fn lemma_log_difference(self, l: Lfsr, seed: u32, state: u32, dseed: u32, log: u32)
        requires
            self.wf(l),
            0 < seed <= self.mask,
            state <= self.mask,
            self.is_log(self.coordinates(seed), Some(dseed)),
            self.is_log(self.coordinates(state), Some(log)),
        ensures
            l.position_of(seed, state) == Some(((log - dseed) % (l.period() as int)) as u32),
            0 <= (log - dseed) % (l.period() as int) < l.period(),
            l.period() <= u32::MAX,
    {
        let p = l.period() as int;
        let k = (log - dseed) % p;
        l.lemma_period_fits();
        lemma_mod_bound(log - dseed, p);
        self.lemma_log_of_state(l, seed, Some(dseed));
        self.lemma_log_of_state(l, state, Some(log));
        l.lemma_state_adds(1, dseed as nat, k as nat);
        if dseed <= log {
            lemma_small_mod((log - dseed) as nat, p as nat);
        } else {
            lemma_mod_add_multiples_vanish(log - dseed, p);
            lemma_small_mod((p + log - dseed) as nat, p as nat);
            l.lemma_maximal_period(1, log as nat);
            assert(dseed as nat + k as nat == log as nat + l.period());
        }
        assert(l.state_at(seed, k as nat) == state);
        l.lemma_maximal_position(seed, k as nat);
    }

    /// Every nonzero field element has a logarithm.
    pub proof fn lemma_has_log(self, l: Lfsr, h: u32) -> (e: nat)
        requires
            self.wf(l),
            self.ring().has(h),
            h != 0,
        ensures
            e < l.period(),
            self.ring().x_to(e) == h,
    {
        let s = self.lemma_coordinates_onto(l, h);
        self.lemma_coordinates(l, s, s);
        orbit::lemma_one_in_register(l);
        let e = l.lemma_maximal_visits(1, s);
        self.lemma_states_are_powers(l, e);
        e
    }

    /// No power of `x` is zero.
    pub proof fn lemma_x_nonzero(self, l: Lfsr, k: nat)
        requires
            self.wf(l),
        ensures
            self.ring().x_to(k) != 0,
    {
        if self.ring().x_to(k) == 0 {
            l.lemma_period_fits();
            self.lemma_x_mod(l, k);
            self.lemma_coordinates(l, 0, 0);
            self.lemma_log_of_state(l, 0, Some((k % l.period()) as u32));
        }
    }

    /// Raised to the cofactor `m` of a subgroup of order `pe`, `x^e` is the power
    /// `e % pe` of the subgroup's generator `x^m`, and no other one below `pe`.
    pub proof fn lemma_subgroup_log(self, l: Lfsr, e: nat, pe: nat, m: nat, f: nat)
        requires
            self.wf(l),
            pe > 0,
            l.period() == pe * m,
            f < pe,
        ensures
            e % pe < pe,
            self.ring().x_to(e * m) == self.ring().x_to(m * (e % pe)),
            self.ring().x_to(e * m) == self.ring().x_to(m * f) ==> f == e % pe,
    {
        let p = l.period();
        let q = e / pe;
        let r = e % pe;
        self.lemma_x_mod(l, 0);
        lemma_fundamental_div_mod(e as int, pe as int);
        lemma_mod_bound(e as int, pe as int);
        assert(e * m == m * r + q * p) by (nonlinear_arith)
            requires
                e == pe * q + r,
                p == pe * m,
        ;
        self.lemma_x_repeats(l, m * r, q);
        assert(m > 0 && m * f < p && m * r < p) by (nonlinear_arith)
            requires
                p == pe * m,
                p > 0,
                f < pe,
                r < pe,
                m >= 0,
        ;
        if self.ring().x_to(e * m) == self.ring().x_to(m * f) {
            self.lemma_x_injective(l, m * f, m * r);
            assert(f == r) by (nonlinear_arith)
                requires
                    m * f == m * r,
                    m > 0,
            ;
        }
    }
}

} // verus!
