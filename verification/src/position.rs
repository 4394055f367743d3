//! Absolute positions from windows of output bits.
//!
//! Index `k` of a sequence is the position at which the register equals the next
//! `bits` output bits. [`PositionMap`] finds it from such a window, over one of
//! several stores that trade memory against the cost of a lookup and give the
//! same answers.

use crate::bits;
use crate::bsgs::Bsgs;
use crate::dlog;
use crate::dlog::Dlog;
use crate::field::FIELD_MAX_BITS;
use crate::lfsr;
use crate::lfsr::{pack_state, Lfsr};
use crate::orbit;
use crate::packed::{Packed, DIRECT_TABLE_MAX_BITS};
use crate::sorted;
use crate::sorted::{find_last, sort_pairs};
use vstd::arithmetic::power2::*;
use vstd::prelude::*;

verus! {

/// Which store [`PositionMap::build_with_kind`] builds. All give the same
/// lookups.
#[derive(Clone, Copy, Debug, PartialEq, Eq, Structural)]
pub enum PositionMapKind {
    /// Bit-packed table: one indexed read per lookup, `2^bits * bits` bits of
    /// memory (2.5 MiB for a 20-bit register).
    Fast,
    /// Baby-step giant-step discrete logarithms: a 256 KiB table, a few dozen
    /// field operations per lookup.
    Balanced,
    /// Pohlig-Hellman discrete logarithms: a few dozen bytes, some thousand field
    /// operations per lookup.
    Compact,
}

impl PositionMapKind {
    /// The best of the stores at hand. A host prefers speed: fast, then balanced,
    /// then compact. A bare target prefers little memory, in the opposite order.
    pub fn preferred(hosted: bool, fast: bool, balanced: bool, compact: bool) -> (r: Option<Self>)
        ensures
            r is None <==> !fast && !balanced && !compact,
            r == Some(PositionMapKind::Fast) <==> fast && (hosted || (!balanced && !compact)),
            r == Some(PositionMapKind::Balanced) <==> balanced && (if hosted {
                !fast
            } else {
                !compact
            }),
            r == Some(PositionMapKind::Compact) <==> compact && (!hosted || (!fast && !balanced)),
    {
        if fast && (hosted || (!balanced && !compact)) {
            Some(PositionMapKind::Fast)
        } else if compact && (!hosted || !balanced) {
            Some(PositionMapKind::Compact)
        } else if balanced {
            Some(PositionMapKind::Balanced)
        } else {
            None
        }
    }

    /// The default store: a host has all of them and takes the fast one.
    pub fn target_default() -> (r: Self)
        ensures
            r == PositionMapKind::Fast,
    {
        match Self::preferred(true, true, true, true) {
            Some(kind) => kind,
            None => PositionMapKind::Fast,
        }
    }
}

/// Lookup backing of [`PositionMap`].
pub enum Store {
    /// Bit-packed table.
    Packed(Packed),
    /// Baby-step giant-step discrete logarithms.
    Bsgs(Bsgs),
    /// Pohlig-Hellman discrete logarithms.
    Dlog(Dlog),
    /// Pairs of register value and position in ascending order, for registers too
    /// wide to pack and for those where positions are not discrete logarithms.
    Sorted(Vec<(u32, u32)>),
}

/// The pairs list the register value at every index of the period.
pub open spec fn lists_visits(pairs: Seq<(u32, u32)>, l: Lfsr, seed: u32) -> bool {
    &&& sorted::ascending(pairs)
    &&& forall|s: u32, k: u32| #[trigger]
        pairs.contains((s, k)) <==> k < l.period() && l.state_at(seed, k as nat) == s
}

impl Store {
    /// The store belongs to `l` started from `seed`.
    pub open spec fn wf(self, l: Lfsr, seed: u32) -> bool {
        match self {
            Store::Packed(p) => p.wf(l, seed),
            Store::Bsgs(b) => b.wf(l, seed),
            Store::Dlog(d) => d.wf(l, seed),
            Store::Sorted(pairs) => lists_visits(pairs@, l, seed),
        }
    }

    /// Which store a kind gives: the one it names where that can be built, and
    /// else the sorted pairs.
    pub open spec fn is_for(self, kind: PositionMapKind, l: Lfsr, seed: u32) -> bool {
        match kind {
            PositionMapKind::Fast => if l.bits <= DIRECT_TABLE_MAX_BITS {
                self is Packed
            } else {
                self is Sorted
            },
            PositionMapKind::Balanced => if 2 <= l.bits <= FIELD_MAX_BITS && l.maximal() && seed
                != 0 {
                self is Bsgs
            } else {
                self is Sorted
            },
            PositionMapKind::Compact => if 2 <= l.bits <= FIELD_MAX_BITS && l.maximal() && seed != 0
                && dlog::small_subgroups(l.period()) {
                self is Dlog
            } else {
                self is Sorted
            },
        }
    }
}

/// Maps every reachable register value to its absolute index in the output
/// sequence.
pub struct PositionMap {
    pub lfsr: Lfsr,
    pub seed: u32,
    pub store: Store,
}

impl PositionMap {
    /// The store holds the positions of the register started from the seed.
    pub open spec fn wf(self) -> bool {
        &&& self.lfsr.bits <= 32
        &&& self.seed <= bits::low_mask(self.lfsr.bits)
        &&& self.store.wf(self.lfsr, self.seed)
    }

    /// `r` is the absolute index of the earliest bit of `window`: of a window of
    /// `bits` bits, the index of the register value that it packs to.
    pub open spec fn resolves(self, window: Seq<u8>, r: Option<u32>) -> bool {
        if window.len() == self.lfsr.bits {
            r == self.lfsr.position_of(self.seed, lfsr::packed(window))
        } else {
            r is None
        }
    }

    /// Build the map with the default store.
    pub fn build(lfsr: Lfsr, seed: u32) -> (r: Self)
        requires
            lfsr.bits <= 32,
        ensures
            r.wf(),
            r.lfsr == lfsr,
            r.seed == seed & bits::low_mask(lfsr.bits),
            r.store.is_for(PositionMapKind::Fast, lfsr, r.seed),
    {
        Self::build_with_kind(lfsr, seed, PositionMapKind::target_default())
    }

    /// Build the map with an explicit kind of store, falling back to sorted pairs
    /// where that store cannot be built.
    pub fn build_with_kind(lfsr: Lfsr, seed: u32, kind: PositionMapKind) -> (r: Self)
        requires
            lfsr.bits <= 32,
        ensures
            r.wf(),
            r.lfsr == lfsr,
            r.seed == seed & bits::low_mask(lfsr.bits),
            r.store.is_for(kind, lfsr, r.seed),
            kind == PositionMapKind::Fast ==> (r.store is Packed <==> lfsr.bits <= 24),
            kind == PositionMapKind::Balanced ==> (r.store is Bsgs <==> 2 <= lfsr.bits <= 24
                && lfsr.maximal() && r.seed != 0),
            kind == PositionMapKind::Compact ==> (r.store is Dlog <==> 2 <= lfsr.bits <= 24
                && lfsr.maximal() && r.seed != 0 && dlog::small_subgroups(lfsr.period())),
            r.store is Packed ==> kind == PositionMapKind::Fast,
            r.store is Bsgs ==> kind == PositionMapKind::Balanced,
            r.store is Dlog ==> kind == PositionMapKind::Compact,
    {
        proof {
            bits::lemma_mask_bound(seed, lfsr.bits);
        }
        let seed: u32 = seed & lfsr.mask();
        proof {
            bits::lemma_mask_bound(seed, lfsr.bits);
        }
        let store: Store = match kind {
            PositionMapKind::Compact => match Dlog::build(lfsr, seed) {
                Some(d) => Store::Dlog(d),
                None => Self::build_sorted_store(lfsr, seed),
            },
            PositionMapKind::Balanced => match Bsgs::build(lfsr, seed) {
                Some(b) => Store::Bsgs(b),
                None => Self::build_sorted_store(lfsr, seed),
            },
            PositionMapKind::Fast => if lfsr.bits <= DIRECT_TABLE_MAX_BITS {
                Store::Packed(Packed::build(lfsr, seed))
            } else {
                Self::build_sorted_store(lfsr, seed)
            },
        };
        PositionMap { lfsr, seed, store }
    }

    /// Pairs of register value and position, collected by walking the whole
    /// sequence and then sorted by value.
    fn build_sorted_store(lfsr: Lfsr, seed: u32) -> (r: Store)
        requires
            lfsr.bits <= 32,
        ensures
            r is Sorted,
            r.wf(lfsr, seed & bits::low_mask(lfsr.bits)),
    {
        let ghost start = seed & bits::low_mask(lfsr.bits);
        proof {
            bits::lemma_low_mask_is_pow2(lfsr.bits);
            lemma2_to64();
            lfsr.lemma_period_fits();
        }
        let period: u64 = (1u64 << lfsr.bits) - 1;
        let mut pairs: Vec<(u32, u32)> = Vec::with_capacity(period as usize);
        let mut state: u32 = seed & lfsr.mask();
        let mut k: u64 = 0;
        while k < period
            invariant
                period == lfsr.period(),
                period <= u32::MAX,
                lfsr.bits <= 32,
                period > 0 ==> lfsr.valid(),
                k <= period,
                state == lfsr.state_at(start, k as nat),
                pairs@.len() == k,
                forall|i: int|
                    0 <= i < k ==> #[trigger] pairs@[i] == (lfsr.state_at(start, i as nat), i as u32),
            decreases period - k,
        {
            pairs.push((state, k as u32));
            lfsr.step(&mut state);
            k = k + 1;
        }
        let ghost walked = pairs@;
        sort_pairs(&mut pairs);
        proof {
            assert forall|s: u32, i: u32| #[trigger] pairs@.contains((s, i)) <==> i < lfsr.period()
                && lfsr.state_at(start, i as nat) == s by {
                sorted::lemma_same_pairs(walked, pairs@, (s, i));
                if walked.contains((s, i)) {
                    let at = choose|at: int| 0 <= at < walked.len() && walked[at] == (s, i);
                    assert(walked[at] == (lfsr.state_at(start, at as nat), at as u32));
                }
                if i < lfsr.period() && lfsr.state_at(start, i as nat) == s {
                    assert(walked[i as int] == (s, i));
                }
            }
        }
        Store::Sorted(pairs)
    }

    /// Build the map over sorted pairs, whatever the register width.
    pub fn build_sorted(lfsr: Lfsr, seed: u32) -> (r: Self)
        requires
            lfsr.bits <= 32,
        ensures
            r.wf(),
            r.lfsr == lfsr,
            r.seed == seed & bits::low_mask(lfsr.bits),
            r.store is Sorted,
    {
        proof {
            bits::lemma_mask_bound(seed, lfsr.bits);
        }
        PositionMap {
            lfsr,
            seed: seed & lfsr.mask(),
            store: Self::build_sorted_store(lfsr, seed),
        }
    }

    pub fn lfsr(&self) -> (r: Lfsr)
        ensures
            r == self.lfsr,
    {
        self.lfsr
    }

    pub fn seed(&self) -> (r: u32)
        ensures
            r == self.seed,
    {
        self.seed
    }

    /// Look up the absolute index for a raw register value.
    pub fn position_of_state(&self, state: u32) -> (r: Option<u32>)
        requires
            self.wf(),
        ensures
            r == self.lfsr.position_of(self.seed, state & bits::low_mask(self.lfsr.bits)),
    {
        proof {
            bits::lemma_mask_bound(state, self.lfsr.bits);
        }
        let state: u32 = state & self.lfsr.mask();
        proof {
            bits::lemma_mask_bound(state, self.lfsr.bits);
        }
        match &self.store {
            Store::Packed(p) => {
                assert(p.wf(self.lfsr, self.seed));
                p.get(state)
            },
            Store::Bsgs(b) => {
                assert(b.wf(self.lfsr, self.seed));
                b.position_of_state(state)
            },
            Store::Dlog(d) => {
                assert(d.wf(self.lfsr, self.seed));
                d.position_of_state(state)
            },
            Store::Sorted(pairs) => {
                if state == 0 {
                    return None;
                }
                let r: Option<u32> = find_last(pairs, state);
                proof {
                    lemma_found(self.lfsr, self.seed, pairs@, state, r);
                }
                r
            },
        }
    }

    /// Resolve the absolute index of the earliest bit in `window`, which holds
    /// exactly `bits` consecutive output bits, earliest first. `None` if the
    /// window has another length or does not pack to a reachable value.
    pub fn position_of_window(&self, window: &[u8]) -> (r: Option<u32>)
        requires
            self.wf(),
        ensures
            self.resolves(window@, r),
            window@.len() != self.lfsr.bits ==> r is None,
            window@.len() == self.lfsr.bits ==> r == self.lfsr.position_of(
                self.seed,
                lfsr::packed(window@),
            ),
    {
        if window.len() != self.lfsr.bits as usize {
            return None;
        }
        let v: u32 = pack_state(window);
        proof {
            lemma_window_fits(self.lfsr.bits, window@, v);
        }
        self.position_of_state(v)
    }
}

/// The largest index beside a value is its last visit.
proof fn lemma_found(l: Lfsr, seed: u32, pairs: Seq<(u32, u32)>, state: u32, r: Option<u32>)
    requires
        l.bits <= 32,
        lists_visits(pairs, l, seed),
        state != 0,
        match r {
            Some(v) => {
                &&& pairs.contains((state, v))
                &&& forall|w: u32| #[trigger] pairs.contains((state, w)) ==> w <= v
            },
            None => forall|w: u32| !#[trigger] pairs.contains((state, w)),
        },
    ensures
        r == l.position_of(seed, state),
{
    l.lemma_period_fits();
    l.lemma_last_visit(seed, state, l.period());
    match l.last_visit(seed, state, l.period()) {
        Some(k) => {
            assert(pairs.contains((state, k as u32)));
            let v = r->0;
            assert(l.state_at(seed, v as nat) == state);
        },
        None => {
            if let Some(v) = r {
                assert(l.state_at(seed, v as nat) == state);
            }
        },
    }
}

/// A window of `n` bits packs to a value of `n` bits.
proof fn lemma_window_fits(n: u32, window: Seq<u8>, v: u32)
    requires
        n <= 32,
        window.len() == n,
        lfsr::packs(window, v),
    ensures
        v <= bits::low_mask(n),
        v & bits::low_mask(n) == v,
{
    assert forall|i: u32| n <= i < 32 implies !#[trigger] bits::bit(v, i) by {}
    bits::lemma_bounded_by_bits(v, n);
    bits::lemma_mask_bound(v, n);
}

/// Lookups do not depend on the store: two maps of the same register and seed
/// resolve every window alike.
pub proof fn lemma_stores_agree(
    a: PositionMap,
    b: PositionMap,
    window: Seq<u8>,
    ra: Option<u32>,
    rb: Option<u32>,
)
    requires
        a.wf(),
        b.wf(),
        a.lfsr == b.lfsr,
        a.seed == b.seed,
        a.resolves(window, ra),
        b.resolves(window, rb),
    ensures
        ra == rb,
{
}

/// The round trip: on a maximal-length register started from a nonzero seed, the
/// window of output bits that starts at index `k` resolves to `k`.
pub proof fn lemma_window_round_trip(map: PositionMap, k: nat, window: Seq<u8>, r: Option<u32>)
    requires
        map.wf(),
        map.lfsr.maximal(),
        map.seed != 0,
        k < map.lfsr.period(),
        window.len() == map.lfsr.bits,
        forall|j: int|
            0 <= j < window.len() ==> #[trigger] window[j] == map.lfsr.output_at(
                map.seed,
                k + j as nat,
            ),
        map.resolves(window, r),
    ensures
        r == Some(k as u32),
        k as u32 == k,
{
    map.lfsr.lemma_window_packs_to_state(map.seed, k, window);
    map.lfsr.lemma_maximal_position(map.seed, k);
}

/// A window of zero bits never resolves, and on a maximal-length register started
/// from a nonzero seed no other window of `bits` bits fails to.
pub proof fn lemma_only_zero_is_unresolved(map: PositionMap, window: Seq<u8>, r: Option<u32>)
    requires
        map.wf(),
        window.len() == map.lfsr.bits,
        map.resolves(window, r),
    ensures
        (forall|j: int| 0 <= j < window.len() ==> #[trigger] window[j] & 1 == 0) ==> r is None,
        map.lfsr.maximal() && map.seed != 0 && r is None ==> forall|j: int|
            0 <= j < window.len() ==> #[trigger] window[j] & 1 == 0,
{
    let v = lfsr::packed(window);
    orbit::lemma_packed(window);
    lemma_window_fits(map.lfsr.bits, window, v);
    if forall|j: int| 0 <= j < window.len() ==> #[trigger] window[j] & 1 == 0 {
        assert forall|i: u32| i < 32 implies bits::bit(v, i) == bits::bit(0, i) by {
            bits::lemma_word_bits(0, 0, i, i);
            if i < window.len() {
                assert(window[i as int] & 1 == 0);
            }
        }
        bits::lemma_bits_determine(v, 0);
    }
    if map.lfsr.maximal() && map.seed != 0 && r is None {
        map.lfsr.lemma_maximal_position_exists(map.seed, v);
        assert forall|j: int| 0 <= j < window.len() implies #[trigger] window[j] & 1 == 0 by {
            bits::lemma_word_bits(0, 0, j as u32, j as u32);
            bits::lemma_low_bit(0, window[j]);
            assert(bits::bit(0, j as u32) == (j < window.len() && window[j] & 1 == 1));
        }
    }
}

} // verus!
