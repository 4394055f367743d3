//! What one carrier cycle, one comparison of the sides and one reading do to a
//! tracker, in terms of the fields that callers see.

use crate::bits;
use crate::format::Side;
use crate::lfsr;
use crate::lock_laws;
use crate::lock_laws::Cycle;
use crate::orbit;
use crate::position::PositionMap;
use crate::tracker;
use crate::tracker::{Direction, Fix, LockConfig, Tracker};
use vstd::arithmetic::div_mod::*;
use vstd::arithmetic::power2::*;
use vstd::prelude::*;

verus! {

/// The playing side is followed: after the warm-up a confident best side is
/// selected if none was or if it is clearly better, whichever side that is; in
/// every other case the selection stays, and nothing but the selection changes.
pub proof fn lemma_best_side_is_followed(
    t: Tracker,
    next: Tracker,
    best: Side,
    confident: bool,
    clear: bool,
)
    requires
        t.chooses(next, best, confident, clear),
    ensures
        t.warmed && confident && (t.selected is None || clear) ==> next.selected == Some(best),
        !t.warmed || !confident ==> next.selected == t.selected,
        t.selected is Some && !clear ==> next.selected == t.selected,
        next.a == t.a,
        next.b == t.b,
        next.bits == t.bits,
        next.warmup == t.warmup,
        next.warmed == t.warmed,
        next.window_bits == t.window_bits,
        next.period == t.period,
        next.cfg == t.cfg,
{
}

/// A record that is turned over is told: however the sides are named, a clearly
/// better other side takes over, and the position reported is its own.
pub proof fn lemma_turned_record_is_followed(t: Tracker, next: Tracker, best: Side)
    requires
        t.warmed,
        t.chooses(next, best, true, true),
    ensures
        next.reported().side == Some(best),
        best == Side::A ==> next.reported().position == t.a.fix.last_pos,
        best == Side::B ==> next.reported().position == t.b.fix.last_pos,
{
}

/// A report reads the selected side: its position, and a lock if the signal is
/// warmed up and the side's lookups agreed as often as the threshold asks.
pub proof fn lemma_report_reads_selected_side(t: Tracker)
    ensures
        t.reported().side == t.selected,
        t.selected is None ==> t.reported().position is None && !t.reported().locked,
        t.selected == Some(Side::A) ==> {
            &&& t.reported().position == t.a.fix.last_pos
            &&& t.reported().locked <==> t.warmed && t.a.fix.lock_count >= t.cfg.lock_threshold
        },
        t.selected == Some(Side::B) ==> {
            &&& t.reported().position == t.b.fix.last_pos
            &&& t.reported().locked <==> t.warmed && t.b.fix.lock_count >= t.cfg.lock_threshold
        },
{
}

/// What a cycle does to the tracker as a whole: the bit enters the window as its
/// newest and the others move up, the oldest leaving a full window; a strong bit
/// counts towards the warm-up, and a weak one starts it over.
pub proof fn lemma_cycle_enters_window(
    t: Tracker,
    next: Tracker,
    bit: u8,
    strong: bool,
    direction: Direction,
)
    requires
        t.wf(),
        t.observes(next, bit, strong, direction),
    ensures
        next.window_bits == t.window_bits,
        next.period == t.period,
        next.cfg == t.cfg,
        next.a.side == t.a.side && next.a.map == t.a.map,
        next.b.side == t.b.side && next.b.map == t.b.map,
        next.selected == t.selected,
        next.bits@.len() == (if t.bits@.len() < t.window_bits {
            t.bits@.len() + 1
        } else {
            t.window_bits as nat
        }),
        t.window_bits > 0 ==> next.bits@[next.bits@.len() - 1] == bit,
        forall|j: int|
            1 <= j < next.bits@.len() ==> #[trigger] next.bits@[next.bits@.len() - 1 - j]
                == t.bits@[t.bits@.len() - j],
        !strong ==> next.warmup == 0 && !next.warmed,
        strong && t.warmup < t.cfg.warmup_bits ==> next.warmup == t.warmup + 1,
        strong && t.warmup == t.cfg.warmup_bits ==> next.warmup == t.warmup,
        strong ==> (next.warmed <==> next.warmup == t.cfg.warmup_bits),
{
}

/// What a lookup does to a fix, for any period. Without a position it takes the
/// lookup, if there is one. With one at `p` it expects `p` and one step of the
/// play direction, modulo the period. A lookup that agrees builds the lock and ends
/// the misses; none at all ends the lock; one that misses ends the lock, and is
/// followed once the misses in a row reach the tolerance.
pub proof fn lemma_lookup_moves_fix(
    fix: Fix,
    looked: Option<i64>,
    direction: Direction,
    period: int,
    cfg: LockConfig,
)
    requires
        cfg.valid(),
        fix.wf(cfg),
        period <= u32::MAX,
        fix.last_pos is None || period > 0,
    ensures
        ({
            let after = fix.after(looked, direction, period, cfg);
            if fix.last_pos is None {
                &&& after.last_pos == looked
                &&& after.lock_count == 0
                &&& after.disagree_count == fix.disagree_count
            } else {
                let expected = ((fix.last_pos->0 + direction.delta()) % period) as i64;
                &&& 0 <= expected < period
                &&& looked == Some(expected) ==> {
                    &&& after.last_pos == Some(expected)
                    &&& after.lock_count == (if fix.lock_count < 2 * cfg.lock_threshold {
                        fix.lock_count + 1
                    } else {
                        2 * cfg.lock_threshold as int
                    })
                    &&& after.disagree_count == 0
                }
                &&& looked is None ==> {
                    &&& after.last_pos == Some(expected)
                    &&& after.lock_count == 0
                    &&& after.disagree_count == fix.disagree_count
                }
                &&& looked is Some && looked != Some(expected) ==> {
                    &&& after.lock_count == 0
                    &&& if fix.disagree_count + 1 < cfg.resync_after {
                        &&& after.last_pos == Some(expected)
                        &&& after.disagree_count == fix.disagree_count + 1
                    } else {
                        &&& after.last_pos == looked
                        &&& after.disagree_count == 0
                    }
                }
            }
        }),
{
    if let Some(p) = fix.last_pos {
        lemma_mod_bound(p + direction.delta(), period);
    }
}

/// What a cycle does to a side. Until the window is full it has no position. Then,
/// without a position, it takes the lookup. With one at `p` it moves on by one
/// step of the play direction, modulo the period, whatever the bit was and however
/// strong the signal; only a lookup that misses, after as many misses in a row as
/// are tolerated, moves it elsewhere. Lookups that agree build the lock, from
/// nothing on a weak cycle; anything else ends it.
pub proof fn lemma_cycle_of_side(
    t: Tracker,
    next: Tracker,
    bit: u8,
    strong: bool,
    direction: Direction,
    side: Side,
)
    requires
        t.wf(),
        t.observes(next, bit, strong, direction),
    ensures
        ({
            let before = t.track(side).fix;
            let after = next.track(side).fix;
            let period = t.period as int;
            let window = next.bits@;
            let looked = tracker::newest_position(t.track(side).map, window, direction, period);
            let built = if strong {
                before.lock_count as int
            } else {
                0
            };
            if window.len() < t.window_bits {
                &&& before.last_pos is None
                &&& after.last_pos is None
                &&& after.lock_count == 0
                &&& after.disagree_count == before.disagree_count
            } else if before.last_pos is None {
                &&& after.last_pos == looked
                &&& after.lock_count == 0
                &&& after.disagree_count == before.disagree_count
            } else {
                let expected = ((before.last_pos->0 + direction.delta()) % period) as i64;
                &&& period > 0
                &&& 0 <= expected < period
                &&& looked == Some(expected) ==> {
                    &&& after.last_pos == Some(expected)
                    &&& after.lock_count == (if built < 2 * t.cfg.lock_threshold {
                        built + 1
                    } else {
                        2 * t.cfg.lock_threshold as int
                    })
                    &&& after.disagree_count == 0
                }
                &&& looked is None ==> {
                    &&& after.last_pos == Some(expected)
                    &&& after.lock_count == 0
                    &&& after.disagree_count == before.disagree_count
                }
                &&& looked is Some && looked != Some(expected) ==> {
                    &&& after.lock_count == 0
                    &&& if before.disagree_count + 1 < t.cfg.resync_after {
                        &&& after.last_pos == Some(expected)
                        &&& after.disagree_count == before.disagree_count + 1
                    } else {
                        &&& after.last_pos == looked
                        &&& after.disagree_count == 0
                    }
                }
            }
        }),
{
    let before = t.track(side).fix;
    lemma_period_is_positive(t);
    if let Some(p) = before.last_pos {
        lemma_mod_bound(p + direction.delta(), t.period as int);
    }
}

/// A tracker with a position has a period.
proof fn lemma_period_is_positive(t: Tracker)
    requires
        t.wf(),
    ensures
        t.a.fix.last_pos is Some || t.b.fix.last_pos is Some ==> 0 < t.period <= u32::MAX,
{
    lemma2_to64();
    if t.window_bits > 0 {
        lemma_pow2_strictly_increases(0, t.window_bits as nat);
    }
    if t.window_bits < 32 {
        lemma_pow2_strictly_increases(t.window_bits as nat, 32);
    }
}

/// A dropout is coasted through: with one more miss still tolerated, a side at `p`
/// is one step of the play direction on after a cycle, strong or weak, whatever
/// its bit.
pub proof fn lemma_dropout_is_coasted(
    t: Tracker,
    next: Tracker,
    bit: u8,
    strong: bool,
    direction: Direction,
    side: Side,
)
    requires
        t.wf(),
        t.observes(next, bit, strong, direction),
        t.track(side).fix.last_pos is Some,
        t.track(side).fix.disagree_count + 1 < t.cfg.resync_after,
    ensures
        next.track(side).fix.last_pos == Some(
            ((t.track(side).fix.last_pos->0 + direction.delta()) % (t.period as int)) as i64,
        ),
        next.track(side).fix.disagree_count <= t.track(side).fix.disagree_count + 1,
        0 < t.period,
{
    lemma_cycle_of_side(t, next, bit, strong, direction, side);
}

/// A longer dropout is coasted through as well, as long as the cycles are fewer
/// than the misses that are tolerated: after all of them the side is where even
/// motion from `p` puts it.
pub proof fn lemma_long_dropout_is_coasted(
    states: Seq<Tracker>,
    cycles: Seq<Cycle>,
    direction: Direction,
    side: Side,
    i: int,
)
    requires
        lock_laws::is_trace(states, cycles),
        forall|j: int| 0 <= j < cycles.len() ==> (#[trigger] cycles[j]).direction == direction,
        states[0].track(side).fix.last_pos is Some,
        states[0].track(side).fix.last_pos->0 < states[0].period,
        states[0].track(side).fix.disagree_count + cycles.len() < states[0].cfg.resync_after,
        0 <= i <= cycles.len(),
    ensures
        states[i].wf(),
        states[i].same_setup(states[0]),
        states[i].track(side).fix.disagree_count <= states[0].track(side).fix.disagree_count + i,
        states[i].track(side).fix.last_pos == Some(
            ((states[0].track(side).fix.last_pos->0 + i * direction.delta())
                % (states[0].period as int)) as i64,
        ),
    decreases i,
{
    let p = states[0].track(side).fix.last_pos->0 as int;
    let period = states[0].period as int;
    let d = direction.delta();
    lemma_period_is_positive(states[0]);
    if i == 0 {
        assert(0 * d == 0) by (nonlinear_arith);
        lemma_small_mod(p as nat, period as nat);
    } else {
        let t = states[i - 1];
        let next = states[i];
        lemma_long_dropout_is_coasted(states, cycles, direction, side, i - 1);
        assert(lock_laws::follows(states[i - 1], states[i - 1 + 1], cycles[i - 1]));
        let seen = lock_laws::lemma_cycle_is_observed(t, next, cycles[i - 1]);
        lemma_dropout_is_coasted(
            t,
            seen,
            cycles[i - 1].bit,
            cycles[i - 1].strong,
            direction,
            side,
        );
        let x = p + (i - 1) * d;
        lemma_mod_bound(x, period);
        lemma_mod_bound(x + d, period);
        lemma_add_mod_noop(x, d, period);
        lemma_add_mod_noop(x % period, d, period);
        lemma_mod_twice(x, period);
        assert((i - 1) * d + d == i * d) by (nonlinear_arith);
    }
}

/// What agreement means: there is none to tell without a position; with one at
/// `p`, a lookup agrees exactly if it is the step of the play direction from `p`,
/// modulo the period.
pub proof fn lemma_agreement_is_even_motion(
    fix: Fix,
    looked: Option<i64>,
    direction: Direction,
    period: int,
)
    requires
        0 < period <= u32::MAX,
    ensures
        fix.agreement(looked, direction, period) is None <==> fix.last_pos is None,
        fix.last_pos matches Some(p) ==> (fix.agreement(looked, direction, period) == Some(true)
            <==> looked is Some && looked->0 == (p + direction.delta()) % period),
{
    if let Some(p) = fix.last_pos {
        lemma_mod_bound(p + direction.delta(), period);
    }
}

/// Where a lookup of any width puts the newest bit: played in reverse at the index
/// of the register value that the window reads, and else as many bits on as the
/// window has after its first, modulo the period.
pub proof fn lemma_lookup_places_newest_bit(
    map: PositionMap,
    window: Seq<u8>,
    direction: Direction,
    period: int,
    v: u32,
)
    requires
        window.len() <= 32,
        direction == Direction::Reverse ==> lfsr::packs(window.reverse(), v),
        direction != Direction::Reverse ==> lfsr::packs(window, v),
    ensures
        ({
            let found = map.lfsr.position_of(map.seed, v & bits::low_mask(map.lfsr.bits));
            let newest = tracker::newest_position(map, window, direction, period);
            &&& newest is Some <==> found is Some
            &&& found is Some && direction == Direction::Reverse ==> newest == Some(found->0 as i64)
            &&& found is Some && direction != Direction::Reverse ==> newest == Some(
                ((found->0 + window.len() - 1) % period) as i64,
            )
        }),
{
    let order = tracker::in_position_order(window, direction);
    orbit::lemma_packed(order);
    bits::lemma_bits_determine(v, lfsr::packed(order));
}

/// Silence has no position: a window of zeros resolves to nothing, in either
/// direction and on either side.
pub proof fn lemma_silence_has_no_position(
    map: PositionMap,
    window: Seq<u8>,
    direction: Direction,
    period: int,
)
    requires
        window.len() <= 32,
        map.lfsr.bits <= 32,
        forall|j: int| 0 <= j < window.len() ==> #[trigger] window[j] & 1 == 0,
    ensures
        tracker::newest_position(map, window, direction, period) is None,
{
    let order = tracker::in_position_order(window, direction);
    let v = lfsr::packed(order);
    orbit::lemma_packed(order);
    assert forall|i: u32| i < 32 implies bits::bit(v, i) == bits::bit(0, i) by {
        bits::lemma_word_bits(0, 0, i, i);
        if i < order.len() {
            assert(order[i as int] & 1 == 0);
        }
    }
    bits::lemma_bits_determine(v, 0);
    bits::lemma_mask_bound(0, map.lfsr.bits);
}

/// The reading on the record: with a side resolved and a position `p`, it is `p` in
/// the program and `p` less the period in the side's lead-in, which is the last
/// 4783 positions of the cycle on side A and the last 6051 on side B. Without a
/// side or a position there is no reading.
pub proof fn lemma_record_reads_position(t: Tracker)
    requires
        t.wf(),
    ensures
        t.on_record() is Some <==> (t.selected == Some(Side::A) && t.a.fix.last_pos is Some) || (
        t.selected == Some(Side::B) && t.b.fix.last_pos is Some),
        t.selected == Some(Side::A) ==> (t.a.fix.last_pos matches Some(p) ==> t.on_record() == Some(
            if p < 1_048_575 - 4783 {
                p
            } else {
                (p - 1_048_575) as i64
            },
        )),
        t.selected == Some(Side::B) ==> (t.b.fix.last_pos matches Some(p) ==> t.on_record() == Some(
            if p < 1_048_575 - 6051 {
                p
            } else {
                (p - 1_048_575) as i64
            },
        )),
{
    lemma2_to64();
}

/// The record climbs: from one locked forward cycle to the next on the same side
/// the reading goes up by one, through 0 too, but for the start of the lead-in,
/// which follows the end of the cycle's program.
pub proof fn lemma_record_climbs(t: Tracker, next: Tracker, cycle: Cycle, side: Side)
    requires
        t.wf(),
        lock_laws::follows(t, next, cycle),
        t.window_bits == 20,
        t.in_cycle(),
        t.cfg.lock_threshold > 0,
        cycle.direction == Direction::Forward,
        t.reported().locked,
        next.reported().locked,
        t.selected == Some(side),
        next.selected == Some(side),
    ensures
        t.on_record() is Some,
        next.on_record() is Some,
        next.on_record()->0 == t.on_record()->0 + 1 || next.on_record()->0 == -(
        side.lead_in() as int),
        next.on_record()->0 == -(side.lead_in() as int) ==> t.on_record()->0 == 1_048_575
            - side.lead_in() - 1,
        t.on_record()->0 == -1 ==> next.on_record()->0 == 0,
{
    lock_laws::lemma_locked_positions_step(t, next, cycle);
    lock_laws::lemma_cycle_keeps_tracker(t, next, cycle);
    lemma2_to64();
    let p = t.reported().position->0 as int;
    if p + 1 == 1_048_575 {
        lemma_mod_self_0(1_048_575);
    } else {
        lemma_small_mod((p + 1) as nat, 1_048_575);
    }
    lemma_record_reads_position(t);
    lemma_record_reads_position(next);
}

} // verus!
