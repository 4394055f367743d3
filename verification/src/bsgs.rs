//! Balanced position store: discrete logarithms by baby steps and giant steps.
//!
//! A mid-size table (256 KiB) of the first powers of `x`, and a few dozen giant
//! steps per lookup: between the tiny Pohlig-Hellman store and the packed table.

use crate::bits;
use crate::field::{Field, FIELD_MAX_BITS};
use crate::lfsr::Lfsr;
use crate::sorted;
use crate::sorted::{find_last, sort_pairs};
use vstd::arithmetic::mul::*;
use vstd::prelude::*;

verus! {

/// Baby-step table size, in entries: 2^15 entries of 8 bytes are 256 KiB.
pub const BSGS_TABLE_ENTRIES: u64 = 32768;

/// Balanced discrete-log store.
pub struct Bsgs {
    pub field: Field,
    /// Discrete log of the seed; subtracted to turn a raw log into a position.
    pub dseed: u32,
    /// Baby-step count (the table size); giant steps advance by `x^b`.
    pub b: u64,
    /// Giant-step multiplier `x^-b`.
    pub giant: u32,
    /// `(x^j, j)` for `j` in `0..b`, sorted by field element.
    pub baby: Vec<(u32, u32)>,
}

impl Bsgs {
    /// The tables belong to `l`.
    pub open spec fn tables(self, l: Lfsr) -> bool {
        &&& self.field.wf(l)
        &&& 0 < self.b <= l.period()
        &&& self.giant == self.field.ring().x_to((l.period() - self.b) as nat)
        &&& self.baby@.len() == self.b
        &&& sorted::ascending(self.baby@)
        &&& forall|h: u32, j: u32|
            #[trigger] self.baby@.contains((h, j)) <==> j < self.b && h
                == self.field.ring().x_to(j as nat)
    }

    /// The store belongs to `l` started from `seed`.
    pub open spec fn wf(self, l: Lfsr, seed: u32) -> bool {
        &&& self.tables(l)
        &&& 0 < seed <= bits::low_mask(l.bits)
        &&& self.field.is_log(self.field.coordinates(seed), Some(self.dseed))
    }

    /// Build the store, or `None` if the field cannot be built (see
    /// [`Field::build`]) or the seed is zero.
    pub fn build(l: Lfsr, seed: u32) -> (r: Option<Self>)
        ensures
            r is Some <==> (2 <= l.bits <= FIELD_MAX_BITS && l.maximal() && seed & bits::low_mask(l.bits) != 0),
            r matches Some(s) ==> s.wf(l, seed & bits::low_mask(l.bits)) && s.b == (if BSGS_TABLE_ENTRIES
                < l.period() {
                BSGS_TABLE_ENTRIES as int
            } else {
                l.period() as int
            }),
    {
        let field: Field = match Field::build(l) {
            Some(f) => f,
            None => return None,
        };
        let period: u64 = field.period;
        let ghost g = field.ring();
        proof {
            field.lemma_states_are_powers(l, 0);
            g.lemma_x_is_two();
            l.lemma_period_fits();
            field.lemma_x_mod(l, 0);
        }
        let b: u64 = if BSGS_TABLE_ENTRIES < period {
            BSGS_TABLE_ENTRIES
        } else {
            period
        };
        // Baby steps: x^j for j in 0..b, sorted by element for lookup.
        let mut baby: Vec<(u32, u32)> = Vec::with_capacity(b as usize);
        let mut e: u32 = 1;
        let mut j: u64 = 0;
        while j < b
            invariant
                field.wf(l),
                g == field.ring(),
                g.valid(),
                g.x_to(1) == 2,
                j <= b <= 32768,
                e == g.x_to(j as nat),
                baby@.len() == j,
                forall|i: int|
                    0 <= i < j ==> #[trigger] baby@[i] == (g.x_to(i as nat), i as u32),
            decreases b - j,
        {
            baby.push((e, j as u32));
            proof {
                g.lemma_x_to_adds(j as nat, 1);
            }
            e = field.mul(e, 2);
            j = j + 1;
        }
        let ghost steps = baby@;
        sort_pairs(&mut baby);
        proof {
            assert forall|h: u32, i: u32| #[trigger] baby@.contains((h, i)) <==> i < b && h
                == g.x_to(i as nat) by {
                sorted::lemma_same_pairs(steps, baby@, (h, i));
                if steps.contains((h, i)) {
                    let at = choose|at: int| 0 <= at < steps.len() && steps[at] == (h, i);
                    assert(steps[at] == (g.x_to(at as nat), at as u32));
                }
                if i < b && h == g.x_to(i as nat) {
                    assert(steps[i as int] == (h, i));
                }
            }
            sorted::lemma_same_pairs(steps, baby@, (0, 0));
            g.lemma_power_of_x(2, 1, (period - b) as nat);
            lemma_mul_basics(period - b);
        }
        let giant: u32 = field.pow(2, period - b);
        let mut s: Bsgs = Bsgs { field, dseed: 0, b, giant, baby };
        let masked: u32 = seed & s.field.mask;
        proof {
            bits::lemma_mask_bound(seed, l.bits);
            s.field.lemma_coordinates(l, masked, masked);
            assert(s.tables(l));
        }
        let h: u32 = s.field.phi(masked);
        let log: Option<u32> = s.raw_dlog(h);
        proof {
            s.field.lemma_log_of_state(l, masked, log);
        }
        match log {
            Some(d) => {
                s.dseed = d;
                Some(s)
            },
            None => None,
        }
    }

    /// One more giant step takes `b` off the exponent.
    proof fn lemma_giant_step(self, l: Lfsr, cur: u32, done: nat, h: u32)
        requires
            self.tables(l),
            self.field.ring().has(cur),
            self.field.ring().times(cur, self.field.ring().x_to(done)) == h,
        ensures
            self.field.ring().has(self.field.ring().times(cur, self.giant)),
            self.field.ring().times(
                self.field.ring().times(cur, self.giant),
                self.field.ring().x_to(done + self.b as nat),
            ) == h,
            forall|e: nat|
                e >= self.b && cur == #[trigger] self.field.ring().x_to(e)
                    ==> self.field.ring().times(cur, self.giant) == self.field.ring().x_to(
                    (e - self.b) as nat,
                ),
    {
        let g = self.field.ring();
        let p = l.period();
        let rest = (p - self.b) as nat;
        self.field.lemma_states_are_powers(l, 0);
        g.lemma_x_to_adds(rest, done + self.b as nat);
        g.lemma_times_bounded(cur, self.giant);
        g.lemma_times_associates(cur, self.giant, g.x_to(done + self.b as nat));
        assert(rest + (done + self.b as nat) == done + 1 * p);
        self.field.lemma_x_repeats(l, done, 1);
        assert forall|e: nat| e >= self.b && cur == #[trigger] g.x_to(e) implies g.times(
            cur,
            self.giant,
        ) == g.x_to((e - self.b) as nat) by {
            g.lemma_x_to_adds(e, rest);
            assert(e + rest == (e - self.b) as nat + 1 * p);
            self.field.lemma_x_repeats(l, (e - self.b) as nat, 1);
        }
    }

    /// Discrete log of `h` base `x`: find `i` and `j < b` with
    /// `h * x^(-i * b) == x^j`; then the log is `i * b + j`.
    pub fn raw_dlog(&self, h: u32) -> (r: Option<u32>)
        requires
            exists|l: Lfsr| self.tables(l),
            self.field.ring().has(h),
        ensures
            self.field.is_log(h, r),
    {
        let ghost l = choose|l: Lfsr| self.tables(l);
        let ghost g = self.field.ring();
        let period: u64 = self.field.period;
        let ghost log = choose|e: nat| e < period && #[trigger] g.x_to(e) == h;
        proof {
            self.field.lemma_states_are_powers(l, 0);
            l.lemma_period_fits();
            g.lemma_times_one(h);
            assert(g.x_to(0) == 1);
        }
        let mut cur: u32 = h;
        // i * b, over the giant steps i.
        let mut done: u64 = 0;
        while done < period
            invariant
                self.tables(l),
                g == self.field.ring(),
                g.valid(),
                period == self.field.period,
                period == l.period(),
                period <= u32::MAX,
                done < period + self.b,
                g.has(cur),
                g.times(cur, g.x_to(done as nat)) == h,
                (log < period && g.x_to(log) == h) ==> log >= done && cur == g.x_to(
                    (log - done) as nat,
                ),
            decreases period + self.b - done,
        {
            match find_last(&self.baby, cur) {
                Some(j) => {
                    proof {
                        assert(self.baby@.contains((cur, j)));
                        g.lemma_x_to_adds(j as nat, done as nat);
                        self.field.lemma_x_mod(l, j as nat + done as nat);
                    }
                    return Some(((done + j as u64) % period) as u32);
                },
                None => {
                    proof {
                        self.lemma_giant_step(l, cur, done as nat, h);
                        if log < period && g.x_to(log) == h {
                            let e = (log - done) as nat;
                            if e < self.b {
                                assert(self.baby@.contains((cur, e as u32)));
                            }
                            assert(cur == g.x_to(e));
                        }
                    }
                    cur = self.field.mul(cur, self.giant);
                    done = done + self.b;
                },
            }
        }
        proof {
            if exists|e: nat| e < period && #[trigger] g.x_to(e) == h {
                assert(log < period && g.x_to(log) == h);
            }
        }
        None
    }

    /// Look up the absolute index of a register value.
    pub fn position_of_state(&self, state: u32) -> (r: Option<u32>)
        requires
            exists|l: Lfsr, seed: u32| self.wf(l, seed),
        ensures
            forall|l: Lfsr, seed: u32| #[trigger]
                self.wf(l, seed) ==> r == l.position_of(seed, state & bits::low_mask(l.bits)),
    {
        let ghost (l, seed) = choose|l: Lfsr, seed: u32| self.wf(l, seed);
        proof {
            bits::lemma_mask_bound(state, l.bits);
        }
        let state: u32 = state & self.field.mask;
        if state == 0 {
            return None;
        }
        proof {
            self.field.lemma_coordinates(l, state, state);
            assert(self.tables(l));
        }
        let log: Option<u32> = self.raw_dlog(self.field.phi(state));
        proof {
            l.lemma_period_fits();
            assert forall|m: Lfsr, s: u32| #[trigger] self.wf(m, s) implies log is Some && m.position_of(
                s,
                state,
            ) == Some(((log->0 - self.dseed) % (self.field.period as int)) as u32) by {
                self.field.lemma_log_of_state(m, state, log);
                self.field.lemma_log_difference(m, s, state, self.dseed, log->0);
            }
            assert(self.wf(l, seed));
        }
        match log {
            Some(e) => Some(self.field.position_from_log(e, self.dseed)),
            None => None,
        }
    }
}

} // verus!
