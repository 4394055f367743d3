//! Compact position store: discrete logarithms by Pohlig-Hellman.
//!
//! The logarithm is found modulo each prime-power factor of the period and put
//! together by the Chinese remainder theorem. The store is a few dozen bytes, at
//! the cost of some thousand field operations per lookup.

use crate::bits;
use crate::field::{Field, FIELD_MAX_BITS};
use crate::gf;
use crate::lfsr::Lfsr;
use crate::number;
use crate::number::{crt, factor_prime_powers};
use vstd::arithmetic::div_mod::*;
use vstd::arithmetic::mul::*;
use vstd::arithmetic::power::*;
use vstd::arithmetic::power2::*;
use vstd::prelude::*;

verus! {

/// Largest prime-power subgroup in which a logarithm is searched for; beyond it
/// the search would be too slow.
pub const DLOG_MAX_SUBGROUP: u64 = 65536;

/// No prime power beyond the subgroup limit divides `n`.
pub open spec fn small_subgroups(n: nat) -> bool {
    forall|q: int, p: int|
        number::is_prime(p) && #[trigger] number::is_power_of(q, p) && number::divides(q, n as int)
            ==> q <= DLOG_MAX_SUBGROUP
}

/// The subgroup limit: it is met exactly if no power of a prime that divides `n`
/// is beyond 65536.
pub proof fn lemma_subgroup_limit(n: nat)
    ensures
        small_subgroups(n) ==> forall|p: int, e: nat|
            number::is_prime(p) && e >= 1 && (n as int) % #[trigger] pow(p, e) == 0 && pow(p, e) > 0
                ==> pow(p, e) <= 65536,
        !small_subgroups(n) ==> exists|p: int, e: nat|
            number::is_prime(p) && e >= 1 && (n as int) % #[trigger] pow(p, e) == 0 && pow(p, e)
                > 65536,
{
    if small_subgroups(n) {
        assert forall|p: int, e: nat|
            number::is_prime(p) && e >= 1 && (n as int) % #[trigger] pow(p, e) == 0 && pow(p, e)
                > 0 implies pow(p, e) <= 65536 by {
            assert(number::is_power_of(pow(p, e), p));
            assert(number::divides(pow(p, e), n as int));
        }
    } else {
        let (q, p) = choose|q: int, p: int|
            number::is_prime(p) && #[trigger] number::is_power_of(q, p) && number::divides(
                q,
                n as int,
            ) && q > DLOG_MAX_SUBGROUP;
        let e = choose|e: nat| e >= 1 && q == #[trigger] pow(p, e);
        assert((n as int) % pow(p, e) == 0);
    }
}

/// Compact discrete-log store.
pub struct Dlog {
    pub field: Field,
    /// Discrete log of the seed; subtracted to turn a raw log into a position.
    pub dseed: u32,
    /// Per prime-power factor `pe` of the period: `pe` and `x^(period / pe)`.
    pub factors: Vec<(u32, u32)>,
}

/// The entries list the prime powers `fs`, each with a generator of its subgroup.
pub open spec fn lists_subgroups(g: gf::Ring, n: nat, fs: Seq<(u64, u64)>, factors: Seq<(u32, u32)>) -> bool {
    &&& factors.len() == fs.len()
    &&& forall|i: int|
        0 <= i < fs.len() ==> {
            &&& 0 < (#[trigger] factors[i]).0 <= DLOG_MAX_SUBGROUP
            &&& factors[i].0 == fs[i].0
            &&& factors[i].1 == g.x_to(n / (factors[i].0 as nat))
        }
}

impl Dlog {
    /// The factor list belongs to `l`.
    pub open spec fn tables(self, l: Lfsr, fs: Seq<(u64, u64)>) -> bool {
        &&& self.field.wf(l)
        &&& number::is_factorisation(l.period(), fs)
        &&& lists_subgroups(self.field.ring(), l.period(), fs, self.factors@)
    }

    /// The store belongs to `l` started from `seed`.
    pub open spec fn wf(self, l: Lfsr, seed: u32) -> bool {
        &&& exists|fs: Seq<(u64, u64)>| self.tables(l, fs)
        &&& 0 < seed <= bits::low_mask(l.bits)
        &&& self.field.is_log(self.field.coordinates(seed), Some(self.dseed))
    }

    /// Build the store, or `None` if the field cannot be built (see
    /// [`Field::build`]), the seed is zero, or the period has an inconveniently
    /// large prime-power factor.
    pub fn build(l: Lfsr, seed: u32) -> (r: Option<Self>)
        ensures
            r is Some <==> (2 <= l.bits <= FIELD_MAX_BITS && l.maximal() && small_subgroups(
                l.period(),
            ) && seed & bits::low_mask(l.bits) != 0),
            r matches Some(s) ==> s.wf(l, seed & bits::low_mask(l.bits)),
    {
        let field: Field = match Field::build(l) {
            Some(f) => f,
            None => return None,
        };
        let period: u64 = field.period;
        let ghost g = field.ring();
        proof {
            field.lemma_states_are_powers(l, 0);
            g.lemma_x_is_two();
            l.lemma_period_fits();
            field.lemma_x_mod(l, 0);
        }
        let listed: Vec<(u64, u64)> = factor_prime_powers(period);
        let ghost fs = listed@;
        let mut factors: Vec<(u32, u32)> = Vec::new();
        let mut i: usize = 0;
        while i < listed.len()
            invariant
                field.wf(l),
                g == field.ring(),
                g.valid(),
                g.has(2),
                g.x_to(1) == 2,
                period == field.period,
                0 < period <= u32::MAX,
                fs == listed@,
                number::is_factorisation(period as nat, fs),
                i <= listed@.len(),
                lists_subgroups(g, period as nat, fs.take(i as int), factors@),
            decreases listed@.len() - i,
        {
            let pe: u64 = listed[i].0;
            proof {
                lemma_listed(period as nat, fs, i as int);
            }
            if pe > DLOG_MAX_SUBGROUP {
                proof {
                    assert(number::is_power_of(pe as int, fs[i as int].1 as int));
                }
                return None;
            }
            proof {
                g.lemma_power_of_x(2, 1, (period / pe) as nat);
                lemma_mul_basics((period / pe) as int);
            }
            factors.push((pe as u32, field.pow(2, period / pe)));
            proof {
                assert forall|j: int| 0 <= j < fs.take(i + 1).len() implies {
                    &&& 0 < (#[trigger] factors@[j]).0 <= DLOG_MAX_SUBGROUP
                    &&& factors@[j].0 == fs.take(i + 1)[j].0
                    &&& factors@[j].1 == g.x_to(period as nat / (factors@[j].0 as nat))
                } by {
                    if j < i {
                        assert(fs.take(i as int)[j] == fs.take(i + 1)[j]);
                    }
                }
            }
            i = i + 1;
        }
        let mut d: Dlog = Dlog { field, dseed: 0, factors };
        let masked: u32 = seed & d.field.mask;
        proof {
            assert(fs.take(i as int) =~= fs);
            lemma_small_subgroups(period as nat, fs, d.factors@, g);
            bits::lemma_mask_bound(seed, l.bits);
            d.field.lemma_coordinates(l, masked, masked);
            assert(d.tables(l, fs));
        }
        let h: u32 = d.field.phi(masked);
        let log: Option<u32> = d.raw_dlog(h);
        proof {
            d.field.lemma_log_of_state(l, masked, log);
        }
        match log {
            Some(e) => {
                d.dseed = e;
                assert(d.tables(l, fs));
                Some(d)
            },
            None => None,
        }
    }

    /// Search the powers of `gamma` below `pe` for `target`.
    fn subgroup_log(&self, target: u32, gamma: u32, pe: u32) -> (r: Option<u32>)
        requires
            1 <= self.field.bits <= 32,
        ensures
            match r {
                Some(f) => f < pe && self.field.ring().power(gamma, f as nat) == target,
                None => forall|j: nat| j < pe ==> #[trigger] self.field.ring().power(gamma, j) != target,
            },
    {
        let ghost g = self.field.ring();
        let mut acc: u32 = 1;
        let mut e: u32 = 0;
        while e < pe
            invariant
                1 <= self.field.bits <= 32,
                g == self.field.ring(),
                e <= pe,
                acc == g.power(gamma, e as nat),
                forall|j: nat| j < e ==> #[trigger] g.power(gamma, j) != target,
            decreases pe - e,
        {
            if acc == target {
                return Some(e);
            }
            acc = self.field.mul(acc, gamma);
            e = e + 1;
        }
        None
    }

    /// Discrete log of the field element `h` base `x`.
    pub fn raw_dlog(&self, h: u32) -> (r: Option<u32>)
        requires
            exists|l: Lfsr, fs: Seq<(u64, u64)>| self.tables(l, fs),
            self.field.ring().has(h),
        ensures
            self.field.is_log(h, r),
    {
        let ghost (l, fs) = choose|l: Lfsr, fs: Seq<(u64, u64)>| self.tables(l, fs);
        let ghost g = self.field.ring();
        let ghost e = if h == 0 {
            0
        } else {
            self.field.lemma_has_log(l, h)
        };
        let period: u64 = self.field.period;
        let mut residues: Vec<(u128, u128)> = Vec::with_capacity(self.factors.len());
        let mut i: usize = 0;
        proof {
            self.field.lemma_states_are_powers(l, 0);
            l.lemma_period_fits();
            self.field.lemma_x_mod(l, 0);
        }
        while i < self.factors.len()
            invariant
                self.tables(l, fs),
                g == self.field.ring(),
                g.valid(),
                g.has(h),
                period == self.field.period,
                0 < period <= u32::MAX,
                h != 0 ==> e < period && h == g.x_to(e),
                i <= self.factors@.len(),
                h == 0 ==> i == 0,
                residues@.len() == i,
                forall|j: int|
                    0 <= j < i ==> (#[trigger] residues@[j]).1 == fs[j].0 && residues@[j].0 == e % (
                    fs[j].0 as nat),
            decreases self.factors@.len() - i,
        {
            let pe: u32 = self.factors[i].0;
            let gamma: u32 = self.factors[i].1;
            let ghost m = period as nat / (pe as nat);
            proof {
                lemma_listed(period as nat, fs, i as int);
                assert(self.factors@[i as int].0 == fs[i as int].0);
            }
            let target: u32 = self.field.pow(h, period / (pe as u64));
            proof {
                if h != 0 {
                    g.lemma_power_of_x(h, e, m);
                    self.field.lemma_subgroup_log(l, e, pe as nat, m, 0);
                    g.lemma_power_of_x(gamma, m, e % (pe as nat));
                }
            }
            match self.subgroup_log(target, gamma, pe) {
                Some(f) => {
                    proof {
                        g.lemma_power_of_x(gamma, m, f as nat);
                        self.field.lemma_x_nonzero(l, m * (f as nat));
                        if h != 0 {
                            self.field.lemma_subgroup_log(l, e, pe as nat, m, f as nat);
                        }
                    }
                    residues.push((f as u128, pe as u128));
                },
                None => {
                    proof {
                        if h != 0 {
                            assert(g.power(gamma, e % (pe as nat)) != target);
                        }
                        assert forall|k: nat| k < period implies #[trigger] g.x_to(k) != h by {
                            self.field.lemma_x_nonzero(l, k);
                        }
                    }
                    return None;
                },
            }
            i = i + 1;
        }
        proof {
            lemma_period_factors(l.bits, fs);
            lemma_residues(fs, residues@);
            assert forall|j: int| 0 <= j < residues@.len() implies (#[trigger] residues@[j]).1
                <= i128::MAX && residues@[j].1 * number::modulus_of(residues@) <= u128::MAX by {
                let m = residues@[j].1 as int;
                assert(self.factors@[j].0 == m);
                lemma_mul_upper_bound(m, 65536, period as int, u32::MAX as int);
            }
        }
        let x: u128 = crt(residues.as_slice());
        proof {
            assert forall|j: int| 0 <= j < residues@.len() implies x as int % ((
            #[trigger] residues@[j]).1 as int) == e as int % (residues@[j].1 as int) by {
                lemma_mod_twice(e as int, residues@[j].1 as int);
            }
            number::lemma_crt_unique(residues@, x as int, e as int);
        }
        Some(x as u32)
    }

    /// Look up the absolute index of a register value.
    pub fn position_of_state(&self, state: u32) -> (r: Option<u32>)
        requires
            exists|l: Lfsr, seed: u32| self.wf(l, seed),
        ensures
            forall|l: Lfsr, seed: u32| #[trigger]
                self.wf(l, seed) ==> r == l.position_of(seed, state & bits::low_mask(l.bits)),
    {
        let ghost (l, seed) = choose|l: Lfsr, seed: u32| self.wf(l, seed);
        let ghost fs = choose|fs: Seq<(u64, u64)>| self.tables(l, fs);
        proof {
            bits::lemma_mask_bound(state, l.bits);
        }
        let state: u32 = state & self.field.mask;
        if state == 0 {
            return None;
        }
        proof {
            self.field.lemma_coordinates(l, state, state);
            assert(self.tables(l, fs));
        }
        let log: Option<u32> = self.raw_dlog(self.field.phi(state));
        proof {
            l.lemma_period_fits();
            assert forall|m: Lfsr, s: u32| #[trigger] self.wf(m, s) implies log is Some && m.position_of(
                s,
                state,
            ) == Some(((log->0 - self.dseed) % (self.field.period as int)) as u32) by {
                self.field.lemma_log_of_state(m, state, log);
                self.field.lemma_log_difference(m, s, state, self.dseed, log->0);
            }
            assert(self.wf(l, seed));
        }
        match log {
            Some(e) => Some(self.field.position_from_log(e, self.dseed)),
            None => None,
        }
    }
}

/// What an entry of a factorisation is.
proof fn lemma_listed(n: nat, fs: Seq<(u64, u64)>, i: int)
    requires
        n > 0,
        number::is_factorisation(n, fs),
        0 <= i < fs.len(),
    ensures
        fs[i].0 > 0,
        number::is_prime(fs[i].1 as int),
        number::is_power_of(fs[i].0 as int, fs[i].1 as int),
        number::divides(fs[i].0 as int, n as int),
        n == fs[i].0 as nat * (n / (fs[i].0 as nat)),
        n / (fs[i].0 as nat) > 0,
{
    assert forall|j: int| 0 <= j < fs.len() implies (#[trigger] fs[j]).0 > 0 by {
        assert(number::is_power_of(fs[j].0 as int, fs[j].1 as int));
        number::lemma_prime_power_divisible(fs[j].0 as int, fs[j].1 as int);
    }
    number::lemma_product_divisors(fs);
    number::lemma_quotient(fs[i].0 as int, n as int);
    number::lemma_divisor_small(fs[i].0 as int, n as int);
}

/// If every listed prime power is small, every prime power that divides is.
proof fn lemma_small_subgroups(n: nat, fs: Seq<(u64, u64)>, factors: Seq<(u32, u32)>, g: gf::Ring)
    requires
        n > 0,
        number::is_factorisation(n, fs),
        lists_subgroups(g, n, fs, factors),
    ensures
        small_subgroups(n),
{
    assert forall|q: int, p: int|
        number::is_prime(p) && #[trigger] number::is_power_of(q, p) && number::divides(
            q,
            n as int,
        ) implies q <= DLOG_MAX_SUBGROUP by {
        let i = number::lemma_prime_power_listed(fs, q as nat, p);
        lemma_listed(n, fs, i);
        number::lemma_divisor_small(q, fs[i].0 as int);
        assert(factors[i].0 == fs[i].0);
    }
}

/// The period of a register of two bits or more has factors.
proof fn lemma_period_factors(bits: u32, fs: Seq<(u64, u64)>)
    requires
        2 <= bits <= 32,
        number::is_factorisation((pow2(bits as nat) - 1) as nat, fs),
    ensures
        fs.len() > 0,
{
    lemma2_to64();
    if bits > 2 {
        lemma_pow2_strictly_increases(2, bits as nat);
    }
}

/// Residues modulo the listed prime powers meet what the Chinese remainder
/// theorem asks.
proof fn lemma_residues(fs: Seq<(u64, u64)>, residues: Seq<(u128, u128)>)
    requires
        residues.len() == fs.len(),
        forall|i: int| 0 <= i < fs.len() ==> (#[trigger] residues[i]).1 == fs[i].0,
        forall|i: int|
            0 <= i < fs.len() ==> number::is_prime((#[trigger] fs[i]).1 as int) && number::is_power_of(
                fs[i].0 as int,
                fs[i].1 as int,
            ),
        forall|i: int, j: int|
            0 <= i < j < fs.len() ==> (#[trigger] fs[i]).1 < (#[trigger] fs[j]).1,
    ensures
        number::modulus_of(residues) == number::product_of(fs),
        number::coprime_moduli(residues),
    decreases fs.len(),
{
    assert forall|i: int| 0 <= i < residues.len() implies (#[trigger] residues[i]).1 > 0 by {
        number::lemma_prime_power_divisible(fs[i].0 as int, fs[i].1 as int);
    }
    assert forall|i: int, j: int|
        0 <= i < residues.len() && 0 <= j < residues.len() && i != j implies number::gcd(
        (#[trigger] residues[i]).1 as nat,
        (#[trigger] residues[j]).1 as nat,
    ) == 1 by {
        assert(fs[i].1 != fs[j].1);
        number::lemma_prime_powers_coprime(
            fs[i].0 as nat,
            fs[i].1 as int,
            fs[j].0 as nat,
            fs[j].1 as int,
        );
    }
    if fs.len() > 0 {
        let t = fs.drop_last();
        let u = residues.drop_last();
        assert forall|i: int| 0 <= i < t.len() implies (#[trigger] u[i]).1 == t[i].0 by {
            assert(u[i] == residues[i] && t[i] == fs[i]);
        }
        assert forall|i: int| 0 <= i < t.len() implies number::is_prime((#[trigger] t[i]).1 as int)
            && number::is_power_of(t[i].0 as int, t[i].1 as int) by {
            assert(t[i] == fs[i]);
        }
        assert forall|i: int, j: int| 0 <= i < j < t.len() implies (#[trigger] t[i]).1 < (
        #[trigger] t[j]).1 by {
            assert(t[i] == fs[i] && t[j] == fs[j]);
        }
        lemma_residues(t, u);
        assert(residues[residues.len() - 1].1 == fs[fs.len() - 1].0);
    }
}

} // verus!
