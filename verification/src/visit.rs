//! Where a register value occurs in a register's output sequence.

use crate::bits;
use crate::lfsr::Lfsr;
use vstd::arithmetic::div_mod::*;
use vstd::arithmetic::power2::*;
use vstd::prelude::*;

verus! {

impl Lfsr {
    /// The last of the first `n` steps from `seed` at which the register holds
    /// `state`.
    pub open spec fn last_visit(self, seed: u32, state: u32, n: nat) -> Option<nat>
        decreases n,
    {
        if n == 0 {
            None
        } else if self.state_at(seed, (n - 1) as nat) == state {
            Some((n - 1) as nat)
        } else {
            self.last_visit(seed, state, (n - 1) as nat)
        }
    }

    /// The absolute index of a register value in the sequence from `seed`. A
    /// value that is never reached has none, nor has the zero value, which no
    /// sequence of a running register holds. Where a short cycle holds a value
    /// more than once within a period, the last index counts.
    pub open spec fn position_of(self, seed: u32, state: u32) -> Option<u32> {
        match self.last_visit(seed, state, self.period()) {
            Some(k) => if state == 0 {
                None
            } else {
                Some(k as u32)
            },
            None => None,
        }
    }

    /// What [`Self::last_visit`] finds.
    pub proof fn lemma_last_visit(self, seed: u32, state: u32, n: nat)
        ensures
            match self.last_visit(seed, state, n) {
                Some(k) => {
                    &&& k < n
                    &&& self.state_at(seed, k) == state
                    &&& forall|j: nat| k < j < n ==> #[trigger] self.state_at(seed, j) != state
                },
                None => forall|j: nat| j < n ==> #[trigger] self.state_at(seed, j) != state,
            },
        decreases n,
    {
        if n > 0 {
            self.lemma_last_visit(seed, state, (n - 1) as nat);
        }
    }

    /// An index that nothing follows is the last visit.
    pub proof fn lemma_last_visit_is(self, seed: u32, state: u32, n: nat, k: nat)
        requires
            k < n,
            self.state_at(seed, k) == state,
            forall|j: nat| k < j < n ==> #[trigger] self.state_at(seed, j) != state,
        ensures
            self.last_visit(seed, state, n) == Some(k),
    {
        self.lemma_last_visit(seed, state, n);
    }

    /// An index below the period fits the index type.
    pub proof fn lemma_period_fits(self)
        requires
            self.bits <= 32,
        ensures
            self.period() <= u32::MAX,
    {
        lemma2_to64();
        if self.bits < 32 {
            lemma_pow2_strictly_increases(self.bits as nat, 32);
        }
    }

    /// An index lies within the period.
    pub proof fn lemma_position_bounded(self, seed: u32, state: u32)
        requires
            self.bits <= 32,
        ensures
            self.position_of(seed, state) matches Some(k) ==> k < self.period(),
    {
        self.lemma_last_visit(seed, state, self.period());
        self.lemma_period_fits();
    }

    /// What a position is, on any register: an index below the period at which the
    /// register holds the value, with none after it; and there is one for every
    /// nonzero value that the register holds within a period.
    pub proof fn lemma_position_is_last_visit(self, seed: u32, state: u32)
        requires
            self.bits <= 32,
        ensures
            self.position_of(seed, state) matches Some(k) ==> {
                &&& state != 0
                &&& k < self.period()
                &&& self.state_at(seed, k as nat) == state
                &&& forall|j: nat|
                    k < j < self.period() ==> #[trigger] self.state_at(seed, j) != state
            },
            self.position_of(seed, state) is None ==> state == 0 || forall|j: nat|
                j < self.period() ==> #[trigger] self.state_at(seed, j) != state,
    {
        self.lemma_last_visit(seed, state, self.period());
        self.lemma_period_fits();
    }

    /// On a maximal-length register every index is found again from the register
    /// value at that index, and every nonzero value has an index.
    pub proof fn lemma_maximal_position(self, seed: u32, k: nat)
        requires
            self.maximal(),
            0 < seed <= bits::low_mask(self.bits),
            k < self.period(),
        ensures
            self.position_of(seed, self.state_at(seed, k)) == Some(k as u32),
            k as u32 == k,
            self.state_at(seed, k) != 0,
    {
        crate::orbit::lemma_one_in_register(self);
        self.lemma_maximal_from_any(1, seed);
        self.lemma_period_fits();
        let state = self.state_at(seed, k);
        if k + 1 < self.period() {
            self.lemma_maximal_states_distinct(seed, k, k + 1);
        } else if k > 0 {
            self.lemma_maximal_states_distinct(seed, 0, k);
        }
        assert forall|j: nat| k < j < self.period() implies #[trigger] self.state_at(seed, j)
            != state by {
            self.lemma_maximal_states_distinct(seed, k, j);
        }
        self.lemma_last_visit_is(seed, state, self.period(), k);
    }

    /// A maximal-length register repeats itself with its period.
    pub proof fn lemma_maximal_repeats(self, seed: u32, k: nat, m: nat)
        requires
            self.maximal(),
            0 < seed <= bits::low_mask(self.bits),
        ensures
            self.state_at(seed, k + m * self.period()) == self.state_at(seed, k),
        decreases m,
    {
        if m == 0 {
            assert(0 * self.period() == 0);
        } else {
            let i = (m - 1) as nat;
            crate::orbit::lemma_one_in_register(self);
            self.lemma_maximal_from_any(1, seed);
            self.lemma_maximal_repeats(seed, k, i);
            self.lemma_maximal_period(seed, k + i * self.period());
            assert(k + i * self.period() + self.period() == k + m * self.period())
                by (nonlinear_arith)
                requires
                    i == m - 1,
            ;
        }
    }

    /// The index found from the register value `k` steps on is `k` modulo the
    /// period.
    pub proof fn lemma_maximal_position_wraps(self, seed: u32, k: nat)
        requires
            self.maximal(),
            0 < seed <= bits::low_mask(self.bits),
        ensures
            self.period() > 0,
            self.position_of(seed, self.state_at(seed, k)) == Some((k % self.period()) as u32),
            (k % self.period()) as u32 == k % self.period(),
            self.state_at(seed, k) != 0,
            self.state_at(seed, k) <= bits::low_mask(self.bits),
    {
        let p = self.period();
        bits::lemma_low_mask_is_pow2(self.bits);
        lemma_fundamental_div_mod(k as int, p as int);
        lemma_mod_bound(k as int, p as int);
        self.lemma_maximal_repeats(seed, k % p, k / p);
        assert(k % p + (k / p) * p == k) by (nonlinear_arith)
            requires
                k == p * (k / p) + k % p,
        ;
        self.lemma_maximal_position(seed, k % p);
        self.lemma_state_bounded(seed, k);
    }

    /// On a maximal-length register only the zero value has no index.
    pub proof fn lemma_maximal_position_exists(self, seed: u32, state: u32)
        requires
            self.maximal(),
            0 < seed <= bits::low_mask(self.bits),
            state <= bits::low_mask(self.bits),
        ensures
            self.position_of(seed, state) is None <==> state == 0,
    {
        if state != 0 {
            crate::orbit::lemma_one_in_register(self);
            self.lemma_maximal_from_any(1, seed);
            let k = self.lemma_maximal_visits(seed, state);
            self.lemma_maximal_position(seed, k);
        }
    }
}

} // verus!
