//! What position tracking promises over many cycles.

use crate::bits;
use crate::format::Side;
use crate::lfsr;
use crate::lfsr::Lfsr;
use crate::orbit;
use crate::position::PositionMap;
use crate::primitive;
use crate::tracker;
use crate::tracker::{Direction, Fix, LockConfig, SideTrack, Tracker};
use vstd::arithmetic::div_mod::*;
use vstd::arithmetic::mul::*;
use vstd::arithmetic::power2::*;
use vstd::prelude::*;

verus! {

impl Lfsr {
    /// The window holds consecutive output bits from index `k` on.
    pub open spec fn reads(self, seed: u32, k: nat, window: Seq<u8>) -> bool {
        &&& window.len() == self.bits
        &&& forall|j: int|
            0 <= j < window.len() ==> #[trigger] window[j] == self.output_at(seed, k + j as nat)
    }
}

/// Forward play keeps the window in step: the next bit in and the oldest out
/// makes it the window one index on.
pub proof fn lemma_window_rolls_forward(l: Lfsr, seed: u32, k: nat, window: Seq<u8>, bit: u8)
    requires
        l.valid(),
        l.reads(seed, k, window),
        bit == l.output_at(seed, k + l.bits as nat),
    ensures
        l.reads(seed, k + 1, tracker::rolled(window, bit, l.bits as int)),
{
    let next = tracker::rolled(window, bit, l.bits as int);
    assert forall|j: int| 0 <= j < next.len() implies #[trigger] next[j] == l.output_at(
        seed,
        k + 1 + j as nat,
    ) by {
        if j + 1 < window.len() {
            assert(next[j] == window[j + 1]);
            assert(k + (j + 1) as nat == k + 1 + j as nat);
        } else {
            assert(k + l.bits as nat == k + 1 + j as nat);
        }
    }
}

/// Reverse play keeps the window in step: the preceding bit in and the one played
/// first out makes it the window one index back.
pub proof fn lemma_window_rolls_back(l: Lfsr, seed: u32, k: nat, window: Seq<u8>, bit: u8)
    requires
        l.valid(),
        l.reads(seed, k + 1, window.reverse()),
        bit == l.output_at(seed, k),
    ensures
        l.reads(seed, k, tracker::rolled(window, bit, l.bits as int).reverse()),
{
    let next = tracker::rolled(window, bit, l.bits as int).reverse();
    assert forall|j: int| 0 <= j < next.len() implies #[trigger] next[j] == l.output_at(
        seed,
        k + j as nat,
    ) by {
        if j > 0 {
            assert(next[j] == window.reverse()[j - 1]);
            assert(k + 1 + (j - 1) as nat == k + j as nat);
        }
    }
}

/// Played forward, a window of consecutive bits resolves to the index of its
/// newest bit, modulo the period, wherever in the cycle it lies.
pub proof fn lemma_forward_window(map: PositionMap, k: nat, window: Seq<u8>, direction: Direction)
    requires
        map.wf(),
        map.lfsr.maximal(),
        map.seed != 0,
        map.lfsr.reads(map.seed, k, window),
        direction != Direction::Reverse,
    ensures
        tracker::newest_position(map, window, direction, map.lfsr.period() as int) == Some(
            ((k + map.lfsr.bits - 1) % (map.lfsr.period() as int)) as i64,
        ),
        0 <= (k + map.lfsr.bits - 1) % (map.lfsr.period() as int) < map.lfsr.period()
            <= u32::MAX,
{
    let l = map.lfsr;
    let p = l.period() as int;
    let n = l.bits as int;
    l.lemma_window_packs_to_state(map.seed, k, window);
    l.lemma_maximal_position_wraps(map.seed, k);
    bits::lemma_mask_bound(l.state_at(map.seed, k), l.bits);
    l.lemma_period_fits();
    lemma_add_mod_noop(k as int, n - 1, p);
    lemma_add_mod_noop((k as int) % p, n - 1, p);
    lemma_mod_twice(k as int, p);
    lemma_mod_bound(k + n - 1, p);
}

/// Played in reverse, bits arrive from high index to low, and the window resolves
/// to the index of its newest bit, the lowest.
pub proof fn lemma_reverse_window(map: PositionMap, k: nat, window: Seq<u8>)
    requires
        map.wf(),
        map.lfsr.maximal(),
        map.seed != 0,
        map.lfsr.reads(map.seed, k, window.reverse()),
    ensures
        tracker::newest_position(map, window, Direction::Reverse, map.lfsr.period() as int)
            == Some((k % map.lfsr.period()) as i64),
        k % map.lfsr.period() < map.lfsr.period() <= u32::MAX,
{
    let l = map.lfsr;
    l.lemma_window_packs_to_state(map.seed, k, window.reverse());
    l.lemma_maximal_position_wraps(map.seed, k);
    bits::lemma_mask_bound(l.state_at(map.seed, k), l.bits);
    l.lemma_period_fits();
    lemma_mod_bound(k as int, l.period() as int);
}

/// Forward play tracks: if the fix is at the newest bit of the window that
/// started at index `k`, the window one bit on agrees with it and moves it on by
/// one, through the end of the cycle too.
pub proof fn lemma_forward_play_agrees(
    map: PositionMap,
    fix: Fix,
    k: nat,
    window: Seq<u8>,
    cfg: LockConfig,
)
    requires
        map.wf(),
        map.lfsr.maximal(),
        map.seed != 0,
        map.lfsr.reads(map.seed, k + 1, window),
        fix.last_pos == Some(((k + map.lfsr.bits - 1) % (map.lfsr.period() as int)) as i64),
    ensures
        ({
            let period = map.lfsr.period() as int;
            let looked = tracker::newest_position(map, window, Direction::Forward, period);
            &&& fix.agreement(looked, Direction::Forward, period) == Some(true)
            &&& fix.after(looked, Direction::Forward, period, cfg).last_pos == Some(
                ((k + map.lfsr.bits) % period) as i64,
            )
        }),
{
    let p = map.lfsr.period() as int;
    let n = map.lfsr.bits as int;
    lemma_forward_window(map, k + 1, window, Direction::Forward);
    lemma_mod_bound(k + n - 1, p);
    lemma_add_mod_noop(k + n - 1, 1, p);
    lemma_add_mod_noop((k + n - 1) % p, 1, p);
    lemma_mod_twice(k + n - 1, p);
}

/// Reverse play tracks: if the fix is at index `k + 1`, the window that ends with
/// index `k` agrees with it and moves it down by one.
pub proof fn lemma_reverse_play_agrees(
    map: PositionMap,
    fix: Fix,
    k: nat,
    window: Seq<u8>,
    cfg: LockConfig,
)
    requires
        map.wf(),
        map.lfsr.maximal(),
        map.seed != 0,
        map.lfsr.reads(map.seed, k, window.reverse()),
        fix.last_pos == Some(((k + 1) % map.lfsr.period()) as i64),
    ensures
        ({
            let period = map.lfsr.period() as int;
            let looked = tracker::newest_position(map, window, Direction::Reverse, period);
            &&& fix.agreement(looked, Direction::Reverse, period) == Some(true)
            &&& fix.after(looked, Direction::Reverse, period, cfg).last_pos == Some(
                ((k as int) % period) as i64,
            )
        }),
{
    let p = map.lfsr.period() as int;
    let up = k as int + 1;
    lemma_reverse_window(map, k, window);
    lemma_mod_bound(up, p);
    lemma_sub_mod_noop(up, 1, p);
    lemma_sub_mod_noop(up % p, 1, p);
    lemma_mod_twice(up, p);
}

/// A rolled window steps the register if the new bit is the one it would feed
/// back.
proof fn lemma_rolled_is_step(l: Lfsr, window: Seq<u8>, bit: u8)
    requires
        l.valid(),
        window.len() == l.bits,
    ensures
        ({
            let v = lfsr::packed(window);
            let rolled = lfsr::packed(tracker::rolled(window, bit, l.bits as int));
            &&& v <= bits::low_mask(l.bits)
            &&& rolled <= bits::low_mask(l.bits)
            &&& rolled == l.next(v) <==> (bit & 1) as u32 == bits::parity_of(v & l.taps)
        }),
{
    let n = l.bits;
    let next = tracker::rolled(window, bit, n as int);
    let v = lfsr::packed(window);
    let rolled = lfsr::packed(next);
    orbit::lemma_packed(window);
    orbit::lemma_packed(next);
    assert forall|i: u32| n <= i < 32 implies !#[trigger] bits::bit(v, i) && !bits::bit(
        rolled,
        i,
    ) by {}
    assert forall|i: u32| n <= i < 32 implies !#[trigger] bits::bit(rolled, i) by {}
    bits::lemma_bounded_by_bits(v, n);
    bits::lemma_bounded_by_bits(rolled, n);
    bits::lemma_parity_is_fold(v & l.taps);
    bits::lemma_low_bit(0, bit);
    let top = (n - 1) as u32;
    l.lemma_next_bit(v, top);
    assert(next[top as int] == bit);
    assert(bits::bit(rolled, top) == (next[top as int] & 1 == 1));
    if (bit & 1) as u32 == bits::parity_of(v & l.taps) {
        assert forall|i: u32| i < 32 implies bits::bit(rolled, i) == bits::bit(l.next(v), i) by {
            l.lemma_next_bit(v, i);
            if i + 1 < n {
                assert(next[i as int] == window[i + 1]);
                assert(bits::bit(v, (i + 1) as u32) == (window[i + 1] & 1 == 1));
            }
        }
        bits::lemma_bits_determine(rolled, l.next(v));
    }
}

/// How a side that is not playing behaves: once its fix is at its own lookup of a
/// window, whichever bits that holds, the next lookup agrees exactly if the next
/// bit is the one that this side's register would have fed back.
pub proof fn lemma_agreement_is_feedback(map: PositionMap, fix: Fix, window: Seq<u8>, bit: u8)
    requires
        map.wf(),
        map.lfsr.maximal(),
        map.seed != 0,
        window.len() == map.lfsr.bits,
        lfsr::packed(window) != 0,
        fix.last_pos == tracker::newest_position(
            map,
            window,
            Direction::Forward,
            map.lfsr.period() as int,
        ),
    ensures
        ({
            let period = map.lfsr.period() as int;
            let rolled = tracker::rolled(window, bit, map.lfsr.bits as int);
            let looked = tracker::newest_position(map, rolled, Direction::Forward, period);
            fix.agreement(looked, Direction::Forward, period) == Some(
                (bit & 1) as u32 == bits::parity_of(lfsr::packed(window) & map.lfsr.taps),
            )
        }),
{
    let l = map.lfsr;
    let p = l.period() as int;
    let n = l.bits as int;
    let v = lfsr::packed(window);
    let next = tracker::rolled(window, bit, n);
    let rolled = lfsr::packed(next);
    lemma_rolled_is_step(l, window, bit);
    orbit::lemma_one_in_register(l);
    l.lemma_maximal_from_any(1, map.seed);
    l.lemma_period_fits();
    bits::lemma_mask_bound(v, l.bits);
    bits::lemma_mask_bound(rolled, l.bits);
    let k = l.lemma_maximal_visits(map.seed, v);
    l.lemma_maximal_position(map.seed, k);
    l.lemma_maximal_position_wraps(map.seed, k + 1);
    assert(l.state_at(map.seed, k + 1) == l.next(v));
    let at = k + n - 1;
    lemma_mod_bound(at, p);
    lemma_mod_bound(at + 1, p);
    lemma_add_mod_noop(at, 1, p);
    lemma_add_mod_noop(at % p, 1, p);
    lemma_mod_twice(at, p);
    assert(fix.predicted(Direction::Forward, p) == Some(((at + 1) % p) as i64));
    if rolled != 0 {
        let j = l.lemma_maximal_visits(map.seed, rolled);
        l.lemma_maximal_position(map.seed, j);
        lemma_mod_bound(j + n - 1, p);
        let m = (k + 1) % l.period();
        assert(l.position_of(map.seed, l.next(v)) == Some(m as u32));
        lemma_mod_bound((k + 1) as int, p);
        // The two positions agree exactly if the indices do.
        lemma_add_mod_noop((k + 1) as int, n - 1, p);
        lemma_add_mod_noop(m as int, n - 1, p);
        lemma_mod_twice((k + 1) as int, p);
        assert((m + n - 1) % p == (at + 1) % p);
        if (j + n - 1) % p == (m + n - 1) % p {
            lemma_mod_equivalence(j + n - 1, m + n - 1, p);
            lemma_small_difference(j - m, p);
            let turns = (k + 1) / l.period();
            l.lemma_maximal_repeats(map.seed, m, turns);
            lemma_fundamental_div_mod((k + 1) as int, p);
            lemma_mul_is_commutative(p, turns as int);
            assert(m + turns * l.period() == k + 1);
            assert(rolled == l.next(v));
        }
    }
}

/// The same in reverse: the next lookup agrees exactly if the register of this
/// side, at the value that the window then reads, steps to the one it read before.
pub proof fn lemma_reverse_agreement_is_feedback(
    map: PositionMap,
    fix: Fix,
    window: Seq<u8>,
    bit: u8,
)
    requires
        map.wf(),
        map.lfsr.maximal(),
        map.seed != 0,
        window.len() == map.lfsr.bits,
        lfsr::packed(window.reverse()) != 0,
        fix.last_pos == tracker::newest_position(
            map,
            window,
            Direction::Reverse,
            map.lfsr.period() as int,
        ),
    ensures
        ({
            let period = map.lfsr.period() as int;
            let rolled = tracker::rolled(window, bit, map.lfsr.bits as int);
            let looked = tracker::newest_position(map, rolled, Direction::Reverse, period);
            fix.agreement(looked, Direction::Reverse, period) == Some(
                map.lfsr.next(lfsr::packed(rolled.reverse())) == lfsr::packed(window.reverse()),
            )
        }),
{
    let l = map.lfsr;
    let p = l.period() as int;
    let rolled = tracker::rolled(window, bit, l.bits as int);
    let v = lfsr::packed(window.reverse());
    let w = lfsr::packed(rolled.reverse());
    lemma_packed_fits(l, window.reverse());
    lemma_packed_fits(l, rolled.reverse());
    orbit::lemma_one_in_register(l);
    l.lemma_maximal_from_any(1, map.seed);
    l.lemma_period_fits();
    let k = l.lemma_maximal_visits(map.seed, v);
    l.lemma_maximal_position(map.seed, k);
    let down = if k == 0 {
        p - 1
    } else {
        k - 1
    };
    if k == 0 {
        lemma_mod_add_multiples_vanish(-1, p);
    }
    lemma_small_mod(down as nat, p as nat);
    assert(fix.predicted(Direction::Reverse, p) == Some(down as i64));
    l.lemma_zero_is_fixed(0);
    if w != 0 {
        let j = l.lemma_maximal_visits(map.seed, w);
        l.lemma_maximal_position(map.seed, j);
        assert(l.state_at(map.seed, j + 1) == l.next(w));
        if j + 1 < p {
            if j + 1 < k {
                l.lemma_maximal_states_distinct(map.seed, j + 1, k);
            } else if k < j + 1 {
                l.lemma_maximal_states_distinct(map.seed, k, j + 1);
            }
        } else {
            assert(l.state_at(map.seed, 0) == map.seed);
            if k > 0 {
                l.lemma_maximal_states_distinct(map.seed, 0, k);
            }
        }
    }
}

/// A window of the register's width packs to a register value.
proof fn lemma_packed_fits(l: Lfsr, window: Seq<u8>)
    requires
        l.valid(),
        window.len() == l.bits,
    ensures
        lfsr::packed(window) <= bits::low_mask(l.bits),
        lfsr::packed(window) & bits::low_mask(l.bits) == lfsr::packed(window),
{
    let v = lfsr::packed(window);
    orbit::lemma_packed(window);
    assert forall|i: u32| l.bits <= i < 32 implies !#[trigger] bits::bit(v, i) by {}
    bits::lemma_bounded_by_bits(v, l.bits);
    bits::lemma_mask_bound(v, l.bits);
}

/// A multiple of `p` between `-p` and `p` is zero.
proof fn lemma_small_difference(d: int, p: int)
    requires
        p > 0,
        -p < d < p,
        d % p == 0,
    ensures
        d == 0,
{
    if d > 0 {
        lemma_small_mod(d as nat, p as nat);
    } else if d < 0 {
        lemma_mod_add_multiples_vanish(d, p);
        lemma_small_mod((d + p) as nat, p as nat);
    }
}

impl Fix {
    /// The fix after a run of lookups.
    pub open spec fn after_all(
        self,
        looks: Seq<Option<i64>>,
        direction: Direction,
        period: int,
        cfg: LockConfig,
    ) -> Fix
        decreases looks.len(),
    {
        if looks.len() == 0 {
            self
        } else {
            self.after_all(looks.drop_last(), direction, period, cfg).after(
                looks.last(),
                direction,
                period,
                cfg,
            )
        }
    }

    /// Where the position is after `n` cycles of even motion.
    pub open spec fn coasted(self, n: int, direction: Direction, period: int) -> int {
        (self.last_pos->0 + n * direction.delta()) % period
    }
}

/// One cycle of even motion after `n`.
proof fn lemma_coasted(fix: Fix, at: Fix, n: int, direction: Direction, period: int)
    requires
        0 < period <= u32::MAX,
        fix.last_pos is Some,
        at.last_pos == Some(fix.coasted(n, direction, period) as i64),
    ensures
        0 <= fix.coasted(n, direction, period) < period,
        0 <= fix.coasted(n + 1, direction, period) < period,
        at.predicted(direction, period) == Some(fix.coasted(n + 1, direction, period) as i64),
{
    let p = fix.last_pos->0 as int;
    let d = direction.delta();
    lemma_mod_bound(p + n * d, period);
    lemma_mod_bound(p + (n + 1) * d, period);
    lemma_add_mod_noop(p + n * d, d, period);
    lemma_add_mod_noop((p + n * d) % period, d, period);
    lemma_mod_twice(p + n * d, period);
    assert(p + n * d + d == p + (n + 1) * d) by (nonlinear_arith);
}

/// Even motion builds a lock: after `n` lookups that each agree, the position has
/// moved by `n` cycles and the lock count by `n`, up to twice the threshold.
pub proof fn lemma_even_motion_locks(
    fix: Fix,
    looks: Seq<Option<i64>>,
    direction: Direction,
    period: int,
    cfg: LockConfig,
)
    requires
        cfg.valid(),
        0 < period <= u32::MAX,
        fix.wf(cfg),
        fix.last_pos is Some,
        fix.below(period),
        forall|i: int|
            0 <= i < looks.len() ==> #[trigger] looks[i] == Some(
                fix.coasted(i + 1, direction, period) as i64,
            ),
    ensures
        ({
            let end = fix.after_all(looks, direction, period, cfg);
            &&& end.wf(cfg)
            &&& end.last_pos == Some(fix.coasted(looks.len() as int, direction, period) as i64)
            &&& end.lock_count == (if fix.lock_count + looks.len() < 2 * cfg.lock_threshold {
                fix.lock_count + looks.len()
            } else {
                2 * cfg.lock_threshold as int
            })
            &&& looks.len() >= cfg.lock_threshold ==> end.lock_count >= cfg.lock_threshold
        }),
    decreases looks.len(),
{
    if looks.len() == 0 {
        lemma_mul_basics(direction.delta());
        lemma_small_mod(fix.last_pos->0 as nat, period as nat);
    } else {
        let n = looks.len() as int;
        let rest = looks.drop_last();
        assert forall|i: int| 0 <= i < rest.len() implies #[trigger] rest[i] == Some(
            fix.coasted(i + 1, direction, period) as i64,
        ) by {
            assert(rest[i] == looks[i]);
        }
        lemma_even_motion_locks(fix, rest, direction, period, cfg);
        let at = fix.after_all(rest, direction, period, cfg);
        lemma_coasted(fix, at, n - 1, direction, period);
        assert(looks.last() == looks[n - 1]);
    }
}

/// The lookups of a run of windows.
pub open spec fn lookups(
    map: PositionMap,
    windows: Seq<Seq<u8>>,
    direction: Direction,
) -> Seq<Option<i64>> {
    Seq::new(
        windows.len(),
        |i: int|
            tracker::newest_position(map, windows[i], direction, map.lfsr.period() as int),
    )
}

/// Forward play locks: from the fix at the newest bit of the window at index `k`,
/// the windows at the `n` following indices lead to the exact absolute position
/// `n` bits on, and `n` of the lock threshold or more make a lock.
pub proof fn lemma_forward_play_locks(
    map: PositionMap,
    fix: Fix,
    k: nat,
    windows: Seq<Seq<u8>>,
    cfg: LockConfig,
)
    requires
        map.wf(),
        map.lfsr.maximal(),
        map.seed != 0,
        cfg.valid(),
        fix.wf(cfg),
        fix.last_pos == Some(((k + map.lfsr.bits - 1) % (map.lfsr.period() as int)) as i64),
        forall|i: int|
            0 <= i < windows.len() ==> map.lfsr.reads(
                map.seed,
                (k + 1 + i) as nat,
                #[trigger] windows[i],
            ),
    ensures
        ({
            let period = map.lfsr.period() as int;
            let end = fix.after_all(
                lookups(map, windows, Direction::Forward),
                Direction::Forward,
                period,
                cfg,
            );
            &&& end.last_pos == Some(
                ((k + map.lfsr.bits - 1 + windows.len()) % period) as i64,
            )
            &&& windows.len() >= cfg.lock_threshold ==> end.lock_count >= cfg.lock_threshold
        }),
{
    let l = map.lfsr;
    let p = l.period() as int;
    let from = k + l.bits - 1;
    let looks = lookups(map, windows, Direction::Forward);
    l.lemma_maximal_position_wraps(map.seed, k);
    l.lemma_period_fits();
    lemma_mod_bound(from, p);
    assert forall|i: int| #[trigger] fix.coasted(i, Direction::Forward, p) == (from + i) % p by {
        lemma_add_mod_noop(from, i, p);
        lemma_add_mod_noop(from % p, i, p);
        lemma_mod_twice(from, p);
        lemma_mul_basics(i);
    }
    assert forall|i: int| 0 <= i < looks.len() implies #[trigger] looks[i] == Some(
        fix.coasted(i + 1, Direction::Forward, p) as i64,
    ) by {
        lemma_forward_window(map, (k + 1 + i) as nat, windows[i], Direction::Forward);
        assert((k + 1 + i) as nat + l.bits - 1 == from + (i + 1));
    }
    lemma_even_motion_locks(fix, looks, Direction::Forward, p, cfg);
    assert(fix.coasted(looks.len() as int, Direction::Forward, p) == (from + looks.len()) % p);
}

/// Reverse play locks: from the fix at index `k`, the windows whose newest bits
/// are at the `n` preceding indices lead to the exact absolute position `n` bits
/// back, and `n` of the lock threshold or more make a lock.
pub proof fn lemma_reverse_play_locks(
    map: PositionMap,
    fix: Fix,
    k: nat,
    windows: Seq<Seq<u8>>,
    cfg: LockConfig,
)
    requires
        map.wf(),
        map.lfsr.maximal(),
        map.seed != 0,
        cfg.valid(),
        fix.wf(cfg),
        fix.last_pos == Some((k % map.lfsr.period()) as i64),
        windows.len() <= k,
        forall|i: int|
            0 <= i < windows.len() ==> map.lfsr.reads(
                map.seed,
                (k - 1 - i) as nat,
                (#[trigger] windows[i]).reverse(),
            ),
    ensures
        ({
            let period = map.lfsr.period() as int;
            let end = fix.after_all(
                lookups(map, windows, Direction::Reverse),
                Direction::Reverse,
                period,
                cfg,
            );
            &&& end.last_pos == Some(((k - windows.len()) % period) as i64)
            &&& windows.len() >= cfg.lock_threshold ==> end.lock_count >= cfg.lock_threshold
        }),
{
    let l = map.lfsr;
    let p = l.period() as int;
    let looks = lookups(map, windows, Direction::Reverse);
    l.lemma_maximal_position_wraps(map.seed, k);
    l.lemma_period_fits();
    lemma_mod_bound(k as int, p);
    assert forall|i: int| #[trigger] fix.coasted(i, Direction::Reverse, p) == (k - i) % p by {
        lemma_sub_mod_noop(k as int, i, p);
        lemma_sub_mod_noop((k as int) % p, i, p);
        lemma_mod_twice(k as int, p);
        assert(i * -1 == -i) by (nonlinear_arith);
    }
    assert forall|i: int| 0 <= i < looks.len() implies #[trigger] looks[i] == Some(
        fix.coasted(i + 1, Direction::Reverse, p) as i64,
    ) by {
        lemma_reverse_window(map, (k - 1 - i) as nat, windows[i]);
        assert(fix.coasted(i + 1, Direction::Reverse, p) == (k - (i + 1)) % p);
    }
    lemma_even_motion_locks(fix, looks, Direction::Reverse, p, cfg);
    assert(fix.coasted(looks.len() as int, Direction::Reverse, p) == (k - looks.len()) % p);
}

/// Isolated errors are ridden out: with misses still tolerated, a wrong lookup,
/// or none, leaves the position where even motion puts it, so that the next right
/// lookup agrees again.
pub proof fn lemma_isolated_error_is_held(
    fix: Fix,
    wrong: Option<i64>,
    direction: Direction,
    period: int,
    cfg: LockConfig,
)
    requires
        0 < period <= u32::MAX,
        fix.last_pos is Some,
        fix.below(period),
        fix.disagree_count + 1 < cfg.resync_after,
    ensures
        ({
            let held = fix.after(wrong, direction, period, cfg);
            let right = Some(fix.coasted(2, direction, period) as i64);
            &&& held.last_pos == Some(fix.coasted(1, direction, period) as i64)
            &&& held.agreement(right, direction, period) == Some(true)
            &&& held.after(right, direction, period, cfg).last_pos == right
        }),
{
    lemma_mul_basics(direction.delta());
    lemma_small_mod(fix.last_pos->0 as nat, period as nat);
    lemma_coasted(fix, fix, 0, direction, period);
    let held = fix.after(wrong, direction, period, cfg);
    lemma_coasted(fix, held, 1, direction, period);
}

/// A real jump is followed: when as many lookups in a row as are tolerated miss
/// the coasting position, the last of them is taken over.
pub proof fn lemma_misses_resync(
    fix: Fix,
    looks: Seq<Option<i64>>,
    direction: Direction,
    period: int,
    cfg: LockConfig,
)
    requires
        0 < period <= u32::MAX,
        fix.last_pos is Some,
        fix.below(period),
        fix.disagree_count == 0,
        1 <= looks.len() <= cfg.resync_after,
        forall|i: int|
            0 <= i < looks.len() ==> #[trigger] looks[i] is Some && looks[i] != Some(
                fix.coasted(i + 1, direction, period) as i64,
            ),
    ensures
        ({
            let end = fix.after_all(looks, direction, period, cfg);
            &&& end.lock_count == 0
            &&& if looks.len() == cfg.resync_after {
                end.last_pos == looks.last() && end.disagree_count == 0
            } else {
                &&& end.last_pos == Some(
                    fix.coasted(looks.len() as int, direction, period) as i64,
                )
                &&& end.disagree_count == looks.len()
            }
        }),
    decreases looks.len(),
{
    let n = looks.len() as int;
    let rest = looks.drop_last();
    lemma_mul_basics(direction.delta());
    lemma_small_mod(fix.last_pos->0 as nat, period as nat);
    assert(looks.last() == looks[n - 1]);
    if n == 1 {
        assert(fix.after_all(rest, direction, period, cfg) == fix);
        lemma_coasted(fix, fix, 0, direction, period);
    } else {
        assert forall|i: int| 0 <= i < rest.len() implies #[trigger] rest[i] is Some && rest[i]
            != Some(fix.coasted(i + 1, direction, period) as i64) by {
            assert(rest[i] == looks[i]);
        }
        lemma_misses_resync(fix, rest, direction, period, cfg);
        lemma_coasted(
            fix,
            fix.after_all(rest, direction, period, cfg),
            n - 1,
            direction,
            period,
        );
    }
}

/// Positions stay in the cycle: lookups in `[0, period)` keep the fix there.
pub proof fn lemma_position_stays_in_cycle(
    fix: Fix,
    looked: Option<i64>,
    direction: Direction,
    period: int,
    cfg: LockConfig,
)
    requires
        0 < period <= u32::MAX,
        fix.below(period),
        looked matches Some(k) ==> 0 <= k < period,
    ensures
        fix.after(looked, direction, period, cfg).below(period),
{
    if let Some(p) = fix.last_pos {
        lemma_mod_bound(p + direction.delta(), period);
    }
}

/// Lookups are in `[0, period)` for a period no shorter than the register's own.
pub proof fn lemma_lookup_in_cycle(
    map: PositionMap,
    window: Seq<u8>,
    direction: Direction,
    period: int,
)
    requires
        map.wf(),
        map.lfsr.valid(),
        window.len() >= 1,
        map.lfsr.period() <= period <= u32::MAX,
    ensures
        tracker::newest_position(map, window, direction, period) matches Some(k) ==> 0 <= k
            < period,
{
    let l = map.lfsr;
    let v = lfsr::packed(tracker::in_position_order(window, direction));
    let at = v & bits::low_mask(l.bits);
    l.lemma_position_bounded(map.seed, at);
    l.lemma_period_fits();
    bits::lemma_low_mask_is_pow2(l.bits);
    orbit::lemma_one_in_register(l);
    if let Some(k) = l.position_of(map.seed, at) {
        lemma_mod_bound(k + window.len() - 1, period);
    }
}

/// Both sides of a tracker meet what these laws ask of a map: a maximal-length
/// register started from a nonzero seed.
pub proof fn lemma_tracks_are_maximal(track: SideTrack, cfg: LockConfig)
    requires
        track.wf(cfg),
    ensures
        track.map.wf(),
        track.map.lfsr.maximal(),
        track.map.seed != 0,
{
    primitive::lemma_sides_are_maximal(track.side);
}

/// The side latches: once resolved it is never lost, and it changes only after
/// the warm-up, on a confident rate that clearly beats the resolved side's.
pub proof fn lemma_side_latches(t: Tracker, best: Side, confident: bool, clear: bool)
    requires
        t.wf(),
        t.selected is Some,
    ensures
        t.selection(best, confident, clear) is Some,
        t.selection(best, confident, clear) != t.selected ==> t.warmed && confident && clear
            && t.selection(best, confident, clear) == Some(best),
{
}

/// Noise resolves nothing: without a complete warm-up no side is selected and no
/// lock is reported.
pub proof fn lemma_no_lock_without_signal(t: Tracker, best: Side, confident: bool, clear: bool)
    requires
        t.wf(),
        !t.warmed,
    ensures
        t.selection(best, confident, clear) == t.selected,
        !t.reported().locked,
{
}

/// A lock means what it says: the signal is strong and warmed up, a side is
/// resolved, its last lookups agreed as often as the threshold asks, and, for a
/// threshold that asks for any, there is a position.
pub proof fn lemma_lock_is_earned(t: Tracker)
    requires
        t.wf(),
        t.reported().locked,
    ensures
        t.warmed,
        t.warmup == t.cfg.warmup_bits,
        t.selected is Some,
        t.reported().side == t.selected,
        t.track(t.selected->0).fix.lock_count >= t.cfg.lock_threshold,
        t.cfg.lock_threshold > 0 ==> t.reported().position is Some && t.on_record() is Some,
{
}

/// The reported side is the polled one, which taking in a bit leaves as it is;
/// comparing the sides alone changes it.
pub proof fn lemma_reported_side_is_polled(
    t: Tracker,
    seen: Tracker,
    next: Tracker,
    cycle: Cycle,
    best: Side,
    confident: bool,
    clear: bool,
)
    requires
        t.wf(),
        t.observes(seen, cycle.bit, cycle.strong, cycle.direction),
        seen.chooses(next, best, confident, clear),
    ensures
        t.reported().side == t.selected,
        seen.reported().side == t.reported().side,
        next.reported().side == next.selected,
        next.selected == seen.selection(best, confident, clear),
{
}

/// What one carrier cycle brings: the sliced bit, whether the carrier was strong
/// enough for it to count, and the play direction.
pub struct Cycle {
    pub bit: u8,
    pub strong: bool,
    pub direction: Direction,
}

/// `next` is the tracker one cycle on: the bit is taken in, and the sides are
/// compared or, before the window is full, not.
pub open spec fn follows(t: Tracker, next: Tracker, cycle: Cycle) -> bool {
    exists|seen: Tracker|
        {
            &&& #[trigger] t.observes(seen, cycle.bit, cycle.strong, cycle.direction)
            &&& seen.wf()
            &&& next == seen || exists|best: Side, confident: bool, clear: bool| #[trigger]
                seen.chooses(next, best, confident, clear)
        }
}

/// The states of a tracker over some cycles, from any that it may be in.
pub open spec fn is_trace(states: Seq<Tracker>, cycles: Seq<Cycle>) -> bool {
    &&& states.len() == cycles.len() + 1
    &&& states[0].wf()
    &&& forall|i: int|
        0 <= i < cycles.len() ==> follows(states[i], states[i + 1], #[trigger] cycles[i])
}

/// The states of a tracker over a run of cycles, from one that has seen no strong
/// bits yet.
pub open spec fn is_run(states: Seq<Tracker>, cycles: Seq<Cycle>) -> bool {
    &&& is_trace(states, cycles)
    &&& states[0].warmup == 0
    &&& !states[0].warmed
}

/// Number of strong cycles since the last weak one.
pub open spec fn strong_run(cycles: Seq<Cycle>) -> nat
    decreases cycles.len(),
{
    if cycles.len() == 0 || !cycles.last().strong {
        0
    } else {
        strong_run(cycles.drop_last()) + 1
    }
}

/// What one cycle leaves: a well-formed tracker of the same setup, and a side if
/// there was one.
proof fn lemma_follows(t: Tracker, next: Tracker, cycle: Cycle)
    requires
        t.wf(),
        follows(t, next, cycle),
    ensures
        next.wf(),
        next.same_setup(t),
        t.selected is Some ==> next.selected is Some,
        next.bits@ == tracker::rolled(t.bits@, cycle.bit, t.window_bits as int),
        next.warmup == (if !cycle.strong {
            0
        } else if t.warmup < t.cfg.warmup_bits {
            (t.warmup + 1) as u32
        } else {
            t.warmup
        }),
        next.warmed == (cycle.strong && next.warmup >= t.cfg.warmup_bits),
        next.bits@.len() < next.window_bits || {
            &&& next.a.fix == t.fix_after(Side::A, next.bits@, cycle.strong, cycle.direction)
            &&& next.b.fix == t.fix_after(Side::B, next.bits@, cycle.strong, cycle.direction)
        },
{
    let seen = choose|seen: Tracker|
        {
            &&& #[trigger] t.observes(seen, cycle.bit, cycle.strong, cycle.direction)
            &&& seen.wf()
            &&& next == seen || exists|best: Side, confident: bool, clear: bool| #[trigger]
                seen.chooses(next, best, confident, clear)
        };
    assert(t.observes(seen, cycle.bit, cycle.strong, cycle.direction));
}

/// A cycle is one observation, after which only the selection may change.
pub proof fn lemma_cycle_is_observed(t: Tracker, next: Tracker, cycle: Cycle) -> (seen: Tracker)
    requires
        follows(t, next, cycle),
    ensures
        t.observes(seen, cycle.bit, cycle.strong, cycle.direction),
        seen.wf(),
        next == (Tracker { selected: next.selected, ..seen }),
{
    let seen = choose|seen: Tracker|
        {
            &&& #[trigger] t.observes(seen, cycle.bit, cycle.strong, cycle.direction)
            &&& seen.wf()
            &&& next == seen || exists|best: Side, confident: bool, clear: bool| #[trigger]
                seen.chooses(next, best, confident, clear)
        };
    assert(t.observes(seen, cycle.bit, cycle.strong, cycle.direction));
    seen
}

/// A cycle keeps the tracker well-formed, and its setup.
pub proof fn lemma_cycle_keeps_tracker(t: Tracker, next: Tracker, cycle: Cycle)
    requires
        t.wf(),
        follows(t, next, cycle),
    ensures
        next.wf(),
        next.same_setup(t),
{
    lemma_follows(t, next, cycle);
}

/// Dropping the last cycle of a run leaves a run.
proof fn lemma_run_before(states: Seq<Tracker>, cycles: Seq<Cycle>)
    requires
        is_run(states, cycles),
        cycles.len() > 0,
    ensures
        is_run(states.drop_last(), cycles.drop_last()),
        follows(states.drop_last().last(), states.last(), cycles.last()),
{
    let n = cycles.len() as int;
    assert forall|i: int| 0 <= i < n - 1 implies follows(
        states.drop_last()[i],
        states.drop_last()[i + 1],
        #[trigger] cycles.drop_last()[i],
    ) by {
        assert(cycles[i] == cycles.drop_last()[i]);
    }
    assert(cycles[n - 1] == cycles.last());
}

/// The warm-up counts strong cycles in a row, up to its length.
pub proof fn lemma_warmup_counts_strong_cycles(states: Seq<Tracker>, cycles: Seq<Cycle>)
    requires
        is_run(states, cycles),
    ensures
        states.last().wf(),
        states.last().same_setup(states[0]),
        states.last().warmup == (if strong_run(cycles) < states[0].cfg.warmup_bits {
            strong_run(cycles) as int
        } else {
            states[0].cfg.warmup_bits as int
        }),
        states.last().warmed <==> cycles.len() > 0 && cycles.last().strong && strong_run(cycles)
            >= states[0].cfg.warmup_bits,
    decreases cycles.len(),
{
    if cycles.len() > 0 {
        lemma_run_before(states, cycles);
        let before = states.drop_last();
        lemma_warmup_counts_strong_cycles(before, cycles.drop_last());
        lemma_follows(before.last(), states.last(), cycles.last());
    }
}

/// A lock follows a run of strong cycles: the last cycle was strong, and with it
/// as many in a row as the warm-up asks.
pub proof fn lemma_lock_follows_strong_run(states: Seq<Tracker>, cycles: Seq<Cycle>)
    requires
        is_run(states, cycles),
        states.last().reported().locked,
    ensures
        cycles.len() > 0,
        cycles.last().strong,
        cycles.len() >= strong_run(cycles) >= states[0].cfg.warmup_bits,
        forall|i: int|
            cycles.len() - strong_run(cycles) <= i < cycles.len() ==> (
            #[trigger] cycles[i]).strong,
{
    lemma_warmup_counts_strong_cycles(states, cycles);
    lemma_strong_run(cycles);
}

/// The counted cycles are the last ones, and strong.
proof fn lemma_strong_run(cycles: Seq<Cycle>)
    ensures
        strong_run(cycles) <= cycles.len(),
        forall|i: int|
            cycles.len() - strong_run(cycles) <= i < cycles.len() ==> (
            #[trigger] cycles[i]).strong,
    decreases cycles.len(),
{
    if cycles.len() > 0 && cycles.last().strong {
        let rest = cycles.drop_last();
        lemma_strong_run(rest);
        assert forall|i: int|
            cycles.len() - strong_run(cycles) <= i < cycles.len() implies (
        #[trigger] cycles[i]).strong by {
            if i < rest.len() {
                assert(cycles[i] == rest[i]);
            }
        }
    }
}

/// A resolved side is never lost again.
pub proof fn lemma_side_persists(states: Seq<Tracker>, cycles: Seq<Cycle>, i: int, j: int)
    requires
        is_trace(states, cycles),
        0 <= i <= j < states.len(),
        states[i].selected is Some,
    ensures
        states[j].selected is Some,
        states[j].reported().side is Some,
    decreases j - i,
{
    if i < j {
        lemma_side_persists(states, cycles, i, j - 1);
        lemma_trace_state(states, cycles, j - 1);
        assert(follows(states[j - 1], states[j - 1 + 1], cycles[j - 1]));
        lemma_follows(states[j - 1], states[j], cycles[j - 1]);
    }
}

/// Every state of a trace is well-formed and of the same setup.
proof fn lemma_trace_state(states: Seq<Tracker>, cycles: Seq<Cycle>, i: int)
    requires
        is_trace(states, cycles),
        0 <= i < states.len(),
    ensures
        states[i].wf(),
        states[i].same_setup(states[0]),
    decreases i,
{
    if i > 0 {
        lemma_trace_state(states, cycles, i - 1);
        assert(follows(states[i - 1], states[i - 1 + 1], cycles[i - 1]));
        lemma_follows(states[i - 1], states[i], cycles[i - 1]);
    }
}

/// Locked positions are continuous: of two successive reports that are locked on
/// the same side, the second position is one step of the play direction from the
/// first, modulo the period, whatever the bits were.
pub proof fn lemma_locked_positions_step(t: Tracker, next: Tracker, cycle: Cycle)
    requires
        t.wf(),
        follows(t, next, cycle),
        t.cfg.lock_threshold > 0,
        t.reported().locked,
        next.reported().locked,
        next.selected == t.selected,
    ensures
        t.reported().position is Some,
        t.period > 0,
        next.reported().position == Some(
            ((t.reported().position->0 + cycle.direction.delta()) % (t.period as int)) as i64,
        ),
{
    lemma_follows(t, next, cycle);
    let side = t.selected->0;
    let fix = t.track(side).fix.gated(cycle.strong);
    assert(next.track(side).fix.lock_count > 0);
    assert(next.track(side).fix.last_pos is Some);
    assert(next.track(side).fix == t.fix_after(
        side,
        next.bits@,
        cycle.strong,
        cycle.direction,
    ));
    lemma2_to64();
    lemma_pow2_strictly_increases(0, t.window_bits as nat);
}

/// Reported positions lie in the cycle: over any cycles, whatever their bits and
/// directions, a tracker for a format at least as wide as the registers of the
/// sides reports positions in `[0, period)`.
pub proof fn lemma_reported_positions_in_cycle(
    states: Seq<Tracker>,
    cycles: Seq<Cycle>,
    i: int,
)
    requires
        is_trace(states, cycles),
        states[0].window_bits >= 20,
        states[0].in_cycle(),
        0 <= i < states.len(),
    ensures
        states[i].period == states[0].period,
        states[i].in_cycle(),
        states[i].reported().position matches Some(p) ==> 0 <= p < states[0].period,
    decreases i,
{
    lemma_trace_state(states, cycles, i);
    if i > 0 {
        let t = states[i - 1];
        let next = states[i];
        let cycle = cycles[i - 1];
        lemma_reported_positions_in_cycle(states, cycles, i - 1);
        lemma_trace_state(states, cycles, i - 1);
        assert(follows(states[i - 1], states[i - 1 + 1], cycles[i - 1]));
        lemma_follows(t, next, cycle);
        if next.bits@.len() == next.window_bits {
            lemma_track_stays_in_cycle(t, Side::A, next.bits@, cycle);
            lemma_track_stays_in_cycle(t, Side::B, next.bits@, cycle);
        }
    }
}

/// One lookup keeps a side in the cycle.
proof fn lemma_track_stays_in_cycle(t: Tracker, side: Side, window: Seq<u8>, cycle: Cycle)
    requires
        t.wf(),
        t.window_bits >= 20,
        t.in_cycle(),
        window.len() == t.window_bits,
    ensures
        t.fix_after(side, window, cycle.strong, cycle.direction).below(t.period as int),
{
    let map = t.track(side).map;
    let period = t.period as int;
    lemma_tracks_are_maximal(t.track(side), t.cfg);
    bits::lemma_low_mask_is_pow2(20);
    bits::lemma_low_mask_is_pow2(t.window_bits as u32);
    lemma2_to64();
    if t.window_bits > 20 {
        lemma_pow2_strictly_increases(20, t.window_bits as nat);
    }
    lemma_lookup_in_cycle(map, window, cycle.direction, period);
    lemma_position_stays_in_cycle(
        t.track(side).fix.gated(cycle.strong),
        tracker::newest_position(map, window, cycle.direction, period),
        cycle.direction,
        period,
        t.cfg,
    );
}

/// How many of the last `i` bits the window holds.
pub open spec fn held(i: int) -> int {
    if i < 20 {
        i
    } else {
        20
    }
}

/// The cycles of steady play on a side from index `k` on: strong, in one
/// direction, with the bits of the side.
pub open spec fn steady_play(
    cycles: Seq<Cycle>,
    side: Side,
    direction: Direction,
    k: nat,
) -> bool {
    forall|i: int|
        0 <= i < cycles.len() ==> {
            &&& (#[trigger] cycles[i]).strong
            &&& cycles[i].direction == direction
            &&& cycles[i].bit == side.register().output_at(
                side.origin(),
                (k + i * direction.delta()) as nat,
            )
        }
}

/// A tracker that has seen nothing yet, for registers of the sides' width.
pub open spec fn untouched(t: Tracker) -> bool {
    t.window_bits == 20 && t.bits@.len() == 0
}

/// Index, modulo the period, of the newest of `i` bits played from index `k` on.
pub open spec fn played(side: Side, direction: Direction, k: nat, i: int) -> int {
    (k + (i - 1) * direction.delta()) % (side.register().period() as int)
}

/// The newest bits of a window are the last ones of `i` played from index `k` on,
/// as many of them as it can hold.
pub open spec fn holds_play(
    window: Seq<u8>,
    side: Side,
    direction: Direction,
    k: nat,
    i: int,
) -> bool {
    &&& held(i) <= window.len() <= 20
    &&& forall|m: int|
        window.len() - held(i) <= m < window.len() ==> #[trigger] window[m]
            == side.register().output_at(
            side.origin(),
            (k + (i - window.len() + m) * direction.delta()) as nat,
        )
}

/// One bit more in the window of steady play.
proof fn lemma_play_rolls(
    window: Seq<u8>,
    next: Seq<u8>,
    bit: u8,
    side: Side,
    direction: Direction,
    k: nat,
    i: int,
)
    requires
        0 <= i,
        holds_play(window, side, direction, k, i),
        bit == side.register().output_at(side.origin(), (k + i * direction.delta()) as nat),
        next == tracker::rolled(window, bit, 20),
    ensures
        next.len() == (if window.len() < 20 {
            window.len() + 1
        } else {
            20
        }),
        holds_play(next, side, direction, k, i + 1),
{
    assert forall|m: int| next.len() - held(i + 1) <= m < next.len() implies #[trigger] next[m]
        == side.register().output_at(
        side.origin(),
        (k + (i + 1 - next.len() + m) * direction.delta()) as nat,
    ) by {
        if m + 1 == next.len() {
            assert(next[m] == bit);
            assert(i + 1 - next.len() + m == i);
        } else if window.len() < 20 {
            assert(next[m] == window[m]);
            assert(i - window.len() + m == i + 1 - next.len() + m);
        } else {
            assert(next[m] == window[m + 1]);
            assert(i - window.len() + (m + 1) == i + 1 - next.len() + m);
        }
    }
}

/// Steady play fills the window, whatever it held before.
proof fn lemma_play_fills(
    states: Seq<Tracker>,
    cycles: Seq<Cycle>,
    side: Side,
    direction: Direction,
    k: nat,
    i: int,
)
    requires
        is_trace(states, cycles),
        states[0].window_bits == 20,
        steady_play(cycles, side, direction, k),
        0 <= i <= cycles.len(),
    ensures
        states[i].wf(),
        states[i].same_setup(states[0]),
        states[i].bits@.len() == (if states[0].bits@.len() + i < 20 {
            states[0].bits@.len() + i
        } else {
            20
        }),
        holds_play(states[i].bits@, side, direction, k, i),
    decreases i,
{
    if i > 0 {
        let t = states[i - 1];
        let next = states[i];
        let cycle = cycles[i - 1];
        lemma_play_fills(states, cycles, side, direction, k, i - 1);
        assert(follows(states[i - 1], states[i - 1 + 1], cycles[i - 1]));
        lemma_follows(t, next, cycle);
        lemma_play_rolls(t.bits@, next.bits@, cycle.bit, side, direction, k, i - 1);
    }
}

/// A window full of played bits resolves to the newest of them.
proof fn lemma_play_resolves(
    map: PositionMap,
    window: Seq<u8>,
    side: Side,
    direction: Direction,
    k: nat,
    i: int,
)
    requires
        map.wf(),
        map.lfsr.maximal(),
        map.seed != 0,
        map.lfsr == side.register(),
        map.seed == side.origin(),
        direction != Direction::Stopped,
        20 <= i,
        k + i * direction.delta() >= -1,
        window.len() == 20,
        holds_play(window, side, direction, k, i),
    ensures
        0 <= played(side, direction, k, i) < side.register().period() <= u32::MAX,
        tracker::newest_position(map, window, direction, side.register().period() as int)
            == Some(played(side, direction, k, i) as i64),
{
    let l = side.register();
    if direction == Direction::Forward {
        let from = (k + i - 20) as nat;
        assert forall|j: int| 0 <= j < window.len() implies #[trigger] window[j] == l.output_at(
            side.origin(),
            from + j as nat,
        ) by {
            assert((k + (i - window.len() + j) * 1) as nat == from + j as nat);
        }
        lemma_forward_window(map, from, window, Direction::Forward);
        assert(from + l.bits - 1 == k + (i - 1) * 1);
    } else {
        assert(i * -1 == -i && (i - 1) * -1 == -(i - 1)) by (nonlinear_arith);
        let newest = (k - (i - 1)) as nat;
        let turned = window.reverse();
        assert forall|j: int| 0 <= j < turned.len() implies #[trigger] turned[j] == l.output_at(
            side.origin(),
            newest + j as nat,
        ) by {
            assert(turned[j] == window[19 - j]);
            let back = i - window.len() + (19 - j);
            assert(back * -1 == -back) by (nonlinear_arith);
            assert((k + back * -1) as nat == newest + j as nat);
        }
        lemma_reverse_window(map, newest, window);
        assert(k + (i - 1) * -1 == newest);
    }
}

/// One step of steady play: the position after the newest of `i - 1` bits is that
/// of the newest of `i`.
proof fn lemma_play_steps(fix: Fix, side: Side, direction: Direction, k: nat, i: int)
    requires
        0 < side.register().period() <= u32::MAX,
        fix.last_pos == Some(played(side, direction, k, i - 1) as i64),
    ensures
        fix.predicted(direction, side.register().period() as int) == Some(
            played(side, direction, k, i) as i64,
        ),
{
    let p = side.register().period() as int;
    let d = direction.delta();
    let x = k + (i - 2) * d;
    assert(i - 1 - 1 == i - 2);
    lemma_mod_bound(x, p);
    lemma_add_mod_noop(x, d, p);
    lemma_add_mod_noop(x % p, d, p);
    lemma_mod_twice(x, p);
    assert((i - 2) * d + d == (i - 1) * d) by (nonlinear_arith);
}

/// From a full window on, each cycle of steady play looks the newest bit up
/// exactly, and agrees with a fix that was at the one before.
proof fn lemma_play_looks_up(
    states: Seq<Tracker>,
    cycles: Seq<Cycle>,
    side: Side,
    direction: Direction,
    k: nat,
    i: int,
)
    requires
        is_trace(states, cycles),
        states[0].window_bits == 20,
        direction != Direction::Stopped,
        steady_play(cycles, side, direction, k),
        k + cycles.len() * direction.delta() >= -1,
        20 <= i <= cycles.len(),
    ensures
        states[i - 1].wf(),
        states[i].wf(),
        states[i].cfg == states[0].cfg,
        0 <= played(side, direction, k, i) < side.register().period() <= u32::MAX,
        ({
            let before = states[i - 1].track(side).fix;
            let at = Some(played(side, direction, k, i) as i64);
            let period = side.register().period() as int;
            &&& before.wf(states[0].cfg)
            &&& states[i].track(side).fix == before.after(at, direction, period, states[0].cfg)
            &&& before.last_pos == Some(played(side, direction, k, i - 1) as i64)
                ==> before.predicted(direction, period) == at
        }),
{
    let t = states[i - 1];
    let next = states[i];
    let cycle = cycles[i - 1];
    let before = t.track(side).fix;
    lemma_play_fills(states, cycles, side, direction, k, i - 1);
    lemma_play_fills(states, cycles, side, direction, k, i);
    assert(follows(states[i - 1], states[i - 1 + 1], cycles[i - 1]));
    lemma_follows(t, next, cycle);
    lemma_tracks_are_maximal(t.track(side), t.cfg);
    bits::lemma_low_mask_is_pow2(20);
    let n = cycles.len() as int;
    assert(n * -1 == -n && i * -1 == -i && n * 1 == n && i * 1 == i) by (nonlinear_arith);
    lemma_play_resolves(t.track(side).map, next.bits@, side, direction, k, i);
    assert(t.period == side.register().period());
    if before.last_pos == Some(played(side, direction, k, i - 1) as i64) {
        lemma_play_steps(before, side, direction, k, i);
    }
}

/// From nothing seen, the first full window brings the side's fix to the newest
/// bit, and every later one agrees.
proof fn lemma_play_after(
    states: Seq<Tracker>,
    cycles: Seq<Cycle>,
    side: Side,
    direction: Direction,
    k: nat,
    i: int,
)
    requires
        is_trace(states, cycles),
        untouched(states[0]),
        direction != Direction::Stopped,
        steady_play(cycles, side, direction, k),
        k + cycles.len() * direction.delta() >= -1,
        20 <= i <= cycles.len(),
    ensures
        ({
            let fix = states[i].track(side).fix;
            let full = 2 * states[0].cfg.lock_threshold;
            &&& fix.last_pos == Some(played(side, direction, k, i) as i64)
            &&& fix.lock_count == (if i - 20 < full {
                i - 20
            } else {
                full
            })
        }),
    decreases i,
{
    lemma_play_looks_up(states, cycles, side, direction, k, i);
    if i == 20 {
        lemma_play_fills(states, cycles, side, direction, k, 19);
    } else {
        lemma_play_after(states, cycles, side, direction, k, i - 1);
    }
}

/// From any state, `i - 19` exact lookups after the window has filled: either the
/// side's fix has caught up with the newest bit and its lock count has grown since
/// the misses that this can take, or each of the lookups so far was a miss, and
/// they are still too few to re-sync.
proof fn lemma_play_catches_up(
    states: Seq<Tracker>,
    cycles: Seq<Cycle>,
    side: Side,
    direction: Direction,
    k: nat,
    i: int,
)
    requires
        is_trace(states, cycles),
        states[0].window_bits == 20,
        direction != Direction::Stopped,
        steady_play(cycles, side, direction, k),
        k + cycles.len() * direction.delta() >= -1,
        20 <= i <= cycles.len(),
    ensures
        ({
            let fix = states[i].track(side).fix;
            let cfg = states[0].cfg;
            let looks = i - 19;
            let missed = vstd::math::max(1, cfg.resync_after as int);
            ||| {
                &&& fix.last_pos == Some(played(side, direction, k, i) as i64)
                &&& fix.lock_count >= looks - missed || fix.lock_count == 2
                    * cfg.lock_threshold
            }
            ||| looks <= fix.disagree_count < cfg.resync_after
        }),
    decreases i,
{
    lemma_play_looks_up(states, cycles, side, direction, k, i);
    if i > 20 {
        lemma_play_catches_up(states, cycles, side, direction, k, i - 1);
    }
}

/// Strong cycles warm a tracker up, wherever its warm-up was.
proof fn lemma_strong_cycles_warm_up(states: Seq<Tracker>, cycles: Seq<Cycle>, i: int)
    requires
        is_trace(states, cycles),
        forall|j: int| 0 <= j < cycles.len() ==> (#[trigger] cycles[j]).strong,
        0 <= i <= cycles.len(),
    ensures
        states[i].warmup >= i || states[i].warmup == states[0].cfg.warmup_bits,
        0 < i && states[0].cfg.warmup_bits <= i ==> states[i].warmed,
    decreases i,
{
    lemma_trace_state(states, cycles, i);
    if i > 0 {
        lemma_strong_cycles_warm_up(states, cycles, i - 1);
        lemma_trace_state(states, cycles, i - 1);
        assert(follows(states[i - 1], states[i - 1 + 1], cycles[i - 1]));
        lemma_follows(states[i - 1], states[i], cycles[i - 1]);
    }
}

/// Steady play on a resolved side ends in a lock at the newest bit.
proof fn lemma_play_locks(
    states: Seq<Tracker>,
    cycles: Seq<Cycle>,
    side: Side,
    direction: Direction,
    k: nat,
)
    requires
        is_trace(states, cycles),
        states[0].window_bits == 20,
        direction != Direction::Stopped,
        steady_play(cycles, side, direction, k),
        k + cycles.len() * direction.delta() >= -1,
        cycles.len() >= states[0].cfg.warmup_bits,
        ({
            let cfg = states[0].cfg;
            ||| untouched(states[0]) && cycles.len() >= 20 + cfg.lock_threshold
            ||| cycles.len() >= 19 + vstd::math::max(1, cfg.resync_after as int)
                + cfg.lock_threshold
        }),
        states.last().selected == Some(side),
    ensures
        states.last().reported() == (tracker::Report {
            position: Some(played(side, direction, k, cycles.len() as int) as i64),
            side: Some(side),
            locked: true,
        }),
{
    let n = cycles.len() as int;
    assert forall|i: int| 0 <= i < cycles.len() implies (#[trigger] cycles[i]).strong by {}
    lemma_strong_cycles_warm_up(states, cycles, n);
    lemma_play_looks_up(states, cycles, side, direction, k, n);
    if untouched(states[0]) {
        lemma_play_after(states, cycles, side, direction, k, n);
    } else {
        lemma_play_catches_up(states, cycles, side, direction, k, n);
    }
}

/// The tracker locks on forward play: fed the bits of a side from index `k` on,
/// with a strong carrier and for the warm-up, a window and the lock threshold or
/// longer, a tracker that has resolved the side reports a lock on it at the exact
/// index of the newest bit, modulo the period.
pub proof fn lemma_tracker_locks(
    states: Seq<Tracker>,
    cycles: Seq<Cycle>,
    side: Side,
    k: nat,
)
    requires
        is_trace(states, cycles),
        untouched(states[0]),
        steady_play(cycles, side, Direction::Forward, k),
        cycles.len() >= states[0].cfg.warmup_bits,
        cycles.len() >= 20 + states[0].cfg.lock_threshold,
        states.last().selected == Some(side),
    ensures
        states.last().reported() == (tracker::Report {
            position: Some(
                ((k + cycles.len() - 1) % (side.register().period() as int)) as i64,
            ),
            side: Some(side),
            locked: true,
        }),
{
    lemma_mul_basics(cycles.len() as int);
    lemma_mul_basics(cycles.len() - 1);
    lemma_play_locks(states, cycles, side, Direction::Forward, k);
}

/// The tracker locks on reverse play, from index `k` down.
pub proof fn lemma_tracker_locks_in_reverse(
    states: Seq<Tracker>,
    cycles: Seq<Cycle>,
    side: Side,
    k: nat,
)
    requires
        is_trace(states, cycles),
        untouched(states[0]),
        steady_play(cycles, side, Direction::Reverse, k),
        cycles.len() <= k + 1,
        cycles.len() >= states[0].cfg.warmup_bits,
        cycles.len() >= 20 + states[0].cfg.lock_threshold,
        states.last().selected == Some(side),
    ensures
        states.last().reported() == (tracker::Report {
            position: Some(
                ((k - (cycles.len() - 1)) % (side.register().period() as int)) as i64,
            ),
            side: Some(side),
            locked: true,
        }),
{
    let n = cycles.len() as int;
    assert(n * -1 == -n && (n - 1) * -1 == -(n - 1)) by (nonlinear_arith);
    lemma_play_locks(states, cycles, side, Direction::Reverse, k);
}

/// The tracker locks again: from any state it may be in (after a dropout, noise, a
/// skip or a reversal, with any window, fixes and counts), steady forward play that
/// lasts for the warm-up, and for a window up to its last bit, the misses that a
/// re-sync takes and the lock threshold together, leads to a lock at the exact
/// index of the newest bit, modulo the period, if the side is the resolved one.
pub proof fn lemma_tracker_locks_again(
    states: Seq<Tracker>,
    cycles: Seq<Cycle>,
    side: Side,
    k: nat,
)
    requires
        is_trace(states, cycles),
        states[0].window_bits == 20,
        steady_play(cycles, side, Direction::Forward, k),
        cycles.len() >= states[0].cfg.warmup_bits,
        cycles.len() >= 19 + vstd::math::max(1, states[0].cfg.resync_after as int)
            + states[0].cfg.lock_threshold,
        states.last().selected == Some(side),
    ensures
        states.last().reported() == (tracker::Report {
            position: Some(
                ((k + cycles.len() - 1) % (side.register().period() as int)) as i64,
            ),
            side: Some(side),
            locked: true,
        }),
{
    lemma_mul_basics(cycles.len() as int);
    lemma_mul_basics(cycles.len() - 1);
    lemma_play_locks(states, cycles, side, Direction::Forward, k);
}

/// The tracker locks again in reverse, from index `k` down.
pub proof fn lemma_tracker_locks_again_in_reverse(
    states: Seq<Tracker>,
    cycles: Seq<Cycle>,
    side: Side,
    k: nat,
)
    requires
        is_trace(states, cycles),
        states[0].window_bits == 20,
        steady_play(cycles, side, Direction::Reverse, k),
        cycles.len() <= k + 1,
        cycles.len() >= states[0].cfg.warmup_bits,
        cycles.len() >= 19 + vstd::math::max(1, states[0].cfg.resync_after as int)
            + states[0].cfg.lock_threshold,
        states.last().selected == Some(side),
    ensures
        states.last().reported() == (tracker::Report {
            position: Some(
                ((k - (cycles.len() - 1)) % (side.register().period() as int)) as i64,
            ),
            side: Some(side),
            locked: true,
        }),
{
    let n = cycles.len() as int;
    assert(n * -1 == -n && (n - 1) * -1 == -(n - 1)) by (nonlinear_arith);
    lemma_play_locks(states, cycles, side, Direction::Reverse, k);
}

} // verus!
