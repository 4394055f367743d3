//! Lock and side tracking: from sliced bits to an absolute position.
//!
//! A rolling window of the most recent bits is looked up in the map of each
//! side. The lookup is checked against the position predicted from the side's
//! last one: agreement builds a lock; disagreement (a bit error) is held, and
//! after a few misses the lookup is trusted. Only the playing side's register
//! keeps agreeing with its own predictions, which tells the sides apart.

use crate::bits;
use crate::format::{Side, TimecodeFormat};
use crate::lfsr;
use crate::lfsr::pack_state;
use crate::orbit;
use crate::position::PositionMap;
use std::collections::VecDeque;
use vstd::arithmetic::div_mod::*;
use vstd::arithmetic::power2::*;
use vstd::prelude::*;
use vstd::std_specs::vecdeque::*;

verus! {

/// Play direction.
#[derive(Clone, Copy, Debug, PartialEq, Eq, Structural)]
pub enum Direction {
    Forward,
    Reverse,
    Stopped,
}

impl Direction {
    /// Bits of position per carrier cycle.
    pub open spec fn delta(self) -> int {
        match self {
            Direction::Forward => 1,
            Direction::Reverse => -1,
            Direction::Stopped => 0,
        }
    }

    /// The direction of a pitch: stopped if it is too slow to tell, and else by
    /// its sign.
    pub fn classify(slow: bool, positive: bool) -> (r: Self)
        ensures
            slow ==> r == Direction::Stopped,
            !slow && positive ==> r == Direction::Forward,
            !slow && !positive ==> r == Direction::Reverse,
    {
        if slow {
            Direction::Stopped
        } else if positive {
            Direction::Forward
        } else {
            Direction::Reverse
        }
    }

    /// Change of position per carrier cycle.
    pub fn step(self) -> (r: i64)
        ensures
            r == self.delta(),
    {
        match self {
            Direction::Forward => 1,
            Direction::Reverse => -1,
            Direction::Stopped => 0,
        }
    }
}

/// Reduce `v` into `[0, period)`.
pub fn wrap_i(v: i64, period: i64) -> (r: i64)
    requires
        period > 0,
    ensures
        r == (v as int) % (period as int),
        0 <= r < period,
{
    if v >= 0 {
        v % period
    } else {
        let below: i64 = (-(v + 1)) % period;
        proof {
            let p = period as int;
            let n = -(v + 1) as int;
            lemma_fundamental_div_mod(n, p);
            let q = n / p;
            assert(v == p * (-q - 1) + (p - 1 - below)) by (nonlinear_arith)
                requires
                    n == p * q + below,
                    v == -n - 1,
            ;
            lemma_fundamental_div_mod_converse(v as int, p, -q - 1, p - 1 - below);
        }
        period - 1 - below
    }
}

/// Lock and re-sync parameters.
#[derive(Clone, Copy, Debug, PartialEq, Eq, Structural)]
pub struct LockConfig {
    /// Consecutive strong-signal bits required after onset or dropout before
    /// locking.
    pub warmup_bits: u32,
    /// Consecutive agreeing lookups needed to declare lock.
    pub lock_threshold: u32,
    /// Consecutive disagreeing lookups tolerated before re-syncing to the lookup.
    pub resync_after: u32,
}

impl LockConfig {
    /// Twice the threshold, at which the lock count stops, fits its type.
    pub open spec fn valid(self) -> bool {
        2 * self.lock_threshold <= u32::MAX
    }
}

impl Default for LockConfig {
    fn default() -> (r: Self)
        ensures
            r == (LockConfig { warmup_bits: 48, lock_threshold: 6, resync_after: 3 }),
            r.valid(),
    {
        LockConfig { warmup_bits: 48, lock_threshold: 6, resync_after: 3 }
    }
}

/// The position fix of one side.
#[derive(Clone, Copy, Debug, PartialEq, Eq, Structural)]
pub struct Fix {
    /// Last resolved position of the newest bit.
    pub last_pos: Option<i64>,
    /// Consecutive agreeing lookups, up to twice the lock threshold.
    pub lock_count: u32,
    /// Consecutive disagreeing lookups.
    pub disagree_count: u32,
}

impl Fix {
    /// No position yet.
    pub open spec fn none() -> Fix {
        Fix { last_pos: None, lock_count: 0, disagree_count: 0 }
    }

    /// The position, if there is one, lies in `[0, bound)`.
    pub open spec fn below(self, bound: int) -> bool {
        self.last_pos matches Some(p) ==> 0 <= p < bound
    }

    /// The position and the counts are in range.
    pub open spec fn wf(self, cfg: LockConfig) -> bool {
        &&& self.below(u32::MAX as int)
        &&& self.lock_count <= 2 * cfg.lock_threshold
        &&& self.lock_count > 0 ==> self.last_pos is Some
        &&& self.disagree_count == 0 || self.disagree_count < cfg.resync_after
    }

    /// Where the newest bit is expected, one cycle after the last.
    pub open spec fn predicted(self, direction: Direction, period: int) -> Option<i64> {
        match self.last_pos {
            Some(p) => Some(((p + direction.delta()) % period) as i64),
            None => None,
        }
    }

    /// Whether a lookup agrees with the prediction, if there is one.
    pub open spec fn agreement(
        self,
        looked: Option<i64>,
        direction: Direction,
        period: int,
    ) -> Option<bool> {
        match self.predicted(direction, period) {
            Some(p) => Some(looked == Some(p)),
            None => None,
        }
    }

    /// A lookup and a prediction disagree.
    pub open spec fn misses(self, looked: Option<i64>, direction: Direction, period: int) -> bool {
        looked is Some && self.agreement(looked, direction, period) == Some(false)
    }

    /// One more miss reaches the tolerance.
    pub open spec fn resyncs(self, cfg: LockConfig) -> bool {
        self.disagree_count + 1 >= cfg.resync_after
    }

    /// The fix after a lookup. The position is the lookup, but on a tolerated
    /// miss or without a lookup the prediction. The lock count counts agreeing
    /// lookups in a row, and the miss count missing ones.
    pub open spec fn after(
        self,
        looked: Option<i64>,
        direction: Direction,
        period: int,
        cfg: LockConfig,
    ) -> Fix {
        let missed = self.misses(looked, direction, period);
        let agreed = self.agreement(looked, direction, period) == Some(true);
        Fix {
            last_pos: if looked is None || (missed && !self.resyncs(cfg)) {
                self.predicted(direction, period)
            } else {
                looked
            },
            lock_count: if agreed {
                if self.lock_count < 2 * cfg.lock_threshold {
                    (self.lock_count + 1) as u32
                } else {
                    self.lock_count
                }
            } else if looked is None && self.last_pos is None {
                self.lock_count
            } else {
                0
            },
            disagree_count: if missed {
                if self.resyncs(cfg) {
                    0
                } else {
                    (self.disagree_count + 1) as u32
                }
            } else if agreed {
                0
            } else {
                self.disagree_count
            },
        }
    }

    /// The fix while the signal is too weak to count towards a lock.
    pub open spec fn gated(self, strong: bool) -> Fix {
        if strong {
            self
        } else {
            Fix { lock_count: 0, ..self }
        }
    }

    /// Advance by one cycle from a lookup. Returns whether the lookup agreed with
    /// the prediction, if there was one.
    pub fn advance(
        &mut self,
        looked: Option<i64>,
        direction: Direction,
        period: i64,
        cfg: &LockConfig,
    ) -> (agreed: Option<bool>)
        requires
            0 <= period <= u32::MAX,
            period > 0 || old(self).last_pos is None,
            cfg.valid(),
            old(self).wf(*cfg),
            looked matches Some(l) ==> 0 <= l < u32::MAX,
        ensures
            *final(self) == old(self).after(looked, direction, period as int, *cfg),
            final(self).wf(*cfg),
            agreed == old(self).agreement(looked, direction, period as int),
    {
        let predicted: Option<i64> = match self.last_pos {
            Some(p) => Some(wrap_i(p + direction.step(), period)),
            None => None,
        };
        match (looked, predicted) {
            (Some(l), Some(p)) => {
                if l == p {
                    if self.lock_count < cfg.lock_threshold * 2 {
                        self.lock_count = self.lock_count + 1;
                    }
                    self.disagree_count = 0;
                    self.last_pos = Some(l);
                    Some(true)
                } else {
                    // Bit error, or a real jump. Hold the prediction for a few
                    // cycles, then trust the lookup.
                    self.lock_count = 0;
                    self.disagree_count = self.disagree_count + 1;
                    if self.disagree_count >= cfg.resync_after {
                        self.disagree_count = 0;
                        self.last_pos = Some(l);
                    } else {
                        self.last_pos = Some(p);
                    }
                    Some(false)
                }
            },
            (Some(l), None) => {
                // First fix.
                self.lock_count = 0;
                self.last_pos = Some(l);
                None
            },
            (None, Some(p)) => {
                // Unresolvable window (all zero from silence); coast.
                self.lock_count = 0;
                self.last_pos = Some(p);
                Some(false)
            },
            (None, None) => None,
        }
    }
}

/// Most recent bits first in, the oldest out once there are more than `n`.
pub open spec fn rolled(window: Seq<u8>, bit: u8, n: int) -> Seq<u8> {
    if window.len() < n {
        window.push(bit)
    } else {
        window.push(bit).drop_first()
    }
}

/// A window, kept in time order, in the order of positions.
pub open spec fn in_position_order(window: Seq<u8>, direction: Direction) -> Seq<u8> {
    if direction == Direction::Reverse {
        window.reverse()
    } else {
        window
    }
}

/// Position of the newest bit of a window according to `map`. Played forward, the
/// window starts at the position that is looked up and the newest bit is its
/// last; played in reverse the newest bit is the one looked up.
pub open spec fn newest_position(
    map: PositionMap,
    window: Seq<u8>,
    direction: Direction,
    period: int,
) -> Option<i64> {
    let v = lfsr::packed(in_position_order(window, direction));
    match map.lfsr.position_of(map.seed, v & bits::low_mask(map.lfsr.bits)) {
        Some(k) => Some(
            if direction == Direction::Reverse {
                k as i64
            } else {
                ((k + window.len() - 1) % period) as i64
            },
        ),
        None => None,
    }
}

/// Tracker of one side.
pub struct SideTrack {
    pub side: Side,
    pub map: PositionMap,
    pub fix: Fix,
}

impl SideTrack {
    /// The map is the side's.
    pub open spec fn wf(self, cfg: LockConfig) -> bool {
        &&& self.map.wf()
        &&& self.map.lfsr == self.side.register()
        &&& self.map.seed == self.side.origin()
        &&& self.fix.wf(cfg)
    }

    /// Only the fix may differ.
    pub open spec fn same_side(self, other: SideTrack) -> bool {
        self.side == other.side && self.map == other.map
    }

    pub fn new(side: Side) -> (r: Self)
        ensures
            r.side == side,
            r.fix == Fix::none(),
            forall|cfg: LockConfig| #[trigger] r.wf(cfg),
    {
        let fmt: TimecodeFormat = side.format();
        let map: PositionMap = PositionMap::build(fmt.lfsr, fmt.seed);
        proof {
            lemma_origin_fits(side.origin());
            bits::lemma_mask_bound(side.origin(), 20);
        }
        SideTrack {
            side,
            map,
            fix: Fix { last_pos: None, lock_count: 0, disagree_count: 0 },
        }
    }

    /// Look a packed window up and advance the fix.
    fn advance(
        &mut self,
        state: u32,
        window_bits: usize,
        direction: Direction,
        period: i64,
        cfg: &LockConfig,
    ) -> (agreed: Option<bool>)
        requires
            old(self).wf(*cfg),
            cfg.valid(),
            0 <= period <= u32::MAX,
            window_bits <= 32,
            period > 0 || (old(self).fix.last_pos is None && state == 0),
        ensures
            final(self).wf(*cfg),
            final(self).same_side(*old(self)),
            forall|window: Seq<u8>|
                window.len() == window_bits && state == lfsr::packed(
                    #[trigger] in_position_order(window, direction),
                ) ==> {
                    let looked = newest_position(
                        old(self).map,
                        window,
                        direction,
                        period as int,
                    );
                    &&& final(self).fix == old(self).fix.after(
                        looked,
                        direction,
                        period as int,
                        *cfg,
                    )
                    &&& agreed == old(self).fix.agreement(looked, direction, period as int)
                },
    {
        proof {
            self.map.lfsr.lemma_position_bounded(
                self.map.seed,
                state & bits::low_mask(self.map.lfsr.bits),
            );
            self.map.lfsr.lemma_period_fits();
            bits::lemma_mask_bound(0, self.map.lfsr.bits);
        }
        let looked: Option<i64> = match self.map.position_of_state(state) {
            Some(k) => Some(
                match direction {
                    Direction::Reverse => k as i64,
                    _ => wrap_i(k as i64 + window_bits as i64 - 1, period),
                },
            ),
            None => None,
        };
        self.fix.advance(looked, direction, period, cfg)
    }
}

/// An empty window packs to zero.
proof fn lemma_nothing_packs_to_zero(window: Seq<u8>)
    requires
        window.len() == 0,
    ensures
        lfsr::packed(window) == 0,
{
    orbit::lemma_packed(window);
    assert forall|i: u32| i < 32 implies bits::bit(lfsr::packed(window), i) == bits::bit(0, i) by {
        bits::lemma_word_bits(0, 0, i, i);
    }
    bits::lemma_bits_determine(lfsr::packed(window), 0);
}

/// The seeds of the sides fit their registers.
proof fn lemma_origin_fits(origin: u32)
    by (bit_vector)
    ensures
        origin == 0xafd8e || origin == 0x9a9a2 ==> origin <= bits::low_mask(20),
{
}

/// What a resolved cycle reports.
#[derive(Clone, Copy, Debug, PartialEq, Eq, Structural)]
pub struct Report {
    /// Position of the newest bit, if a side has been resolved. It lies in
    /// `[0, period)` for formats at least as wide as the registers of the sides;
    /// for a narrower one, reverse play reports the lookup as it is.
    pub position: Option<i64>,
    /// The side that is playing, once resolved.
    pub side: Option<Side>,
    /// Whether there is a confident position lock.
    pub locked: bool,
}

/// Lock and side state of a decoder.
pub struct Tracker {
    pub a: SideTrack,
    pub b: SideTrack,
    /// Latched once a side is resolved.
    pub selected: Option<Side>,
    pub window_bits: usize,
    pub period: i64,
    pub cfg: LockConfig,
    /// The most recent bits in time order.
    pub bits: VecDeque<u8>,
    /// Consecutive strong bits, up to the warm-up length.
    pub warmup: u32,
    /// The last bit was strong and the warm-up is complete.
    pub warmed: bool,
}

impl Tracker {
    pub open spec fn wf(self) -> bool {
        &&& self.cfg.valid()
        &&& self.a.side == Side::A
        &&& self.b.side == Side::B
        &&& self.a.wf(self.cfg)
        &&& self.b.wf(self.cfg)
        &&& self.window_bits <= 32
        &&& self.period == pow2(self.window_bits as nat) - 1
        &&& self.bits@.len() <= self.window_bits
        &&& self.bits@.len() < self.window_bits || self.window_bits == 0 ==> self.a.fix.last_pos
            is None && self.b.fix.last_pos is None
        &&& self.warmup <= self.cfg.warmup_bits
        &&& self.warmed ==> self.warmup == self.cfg.warmup_bits
    }

    /// The positions of both sides lie in the cycle.
    pub open spec fn in_cycle(self) -> bool {
        self.a.fix.below(self.period as int) && self.b.fix.below(self.period as int)
    }

    /// The track of a side.
    pub open spec fn track(self, side: Side) -> SideTrack {
        match side {
            Side::A => self.a,
            Side::B => self.b,
        }
    }

    /// Nothing that stays fixed over a decoder's life differs.
    pub open spec fn same_setup(self, other: Tracker) -> bool {
        &&& self.a.same_side(other.a)
        &&& self.b.same_side(other.b)
        &&& self.window_bits == other.window_bits
        &&& self.period == other.period
        &&& self.cfg == other.cfg
    }

    /// The fix of a side after taking in a bit: held until the window is full, and
    /// then advanced by the lookup of the window `bits`.
    pub open spec fn fix_after(
        self,
        side: Side,
        bits: Seq<u8>,
        strong: bool,
        direction: Direction,
    ) -> Fix {
        let fix = self.track(side).fix.gated(strong);
        let period = self.period as int;
        if bits.len() < self.window_bits {
            fix
        } else {
            fix.after(
                newest_position(self.track(side).map, bits, direction, period),
                direction,
                period,
                self.cfg,
            )
        }
    }

    /// `next` is the tracker after taking in one sliced bit.
    pub open spec fn observes(
        self,
        next: Tracker,
        bit: u8,
        strong: bool,
        direction: Direction,
    ) -> bool {
        &&& next.same_setup(self)
        &&& next.selected == self.selected
        &&& next.bits@ == rolled(self.bits@, bit, self.window_bits as int)
        &&& next.warmup == (if !strong {
            0
        } else if self.warmup < self.cfg.warmup_bits {
            (self.warmup + 1) as u32
        } else {
            self.warmup
        })
        &&& next.warmed == (strong && next.warmup >= self.cfg.warmup_bits)
        &&& next.a.fix == self.fix_after(Side::A, next.bits@, strong, direction)
        &&& next.b.fix == self.fix_after(Side::B, next.bits@, strong, direction)
    }

    /// `next` is the tracker after the sides have been compared.
    pub open spec fn chooses(self, next: Tracker, best: Side, confident: bool, clear: bool) -> bool {
        next == (Tracker { selected: self.selection(best, confident, clear), ..self })
    }

    /// The selection after the sides have been compared. Nothing is selected
    /// before the warm-up, nor on a doubtful rate; a resolved side gives way only
    /// to a clearly better one.
    pub open spec fn selection(self, best: Side, confident: bool, clear: bool) -> Option<Side> {
        if self.warmed && confident && (self.selected is None || (self.selected != Some(best)
            && clear)) {
            Some(best)
        } else {
            self.selected
        }
    }

    /// What is reported of the present state.
    pub open spec fn reported(self) -> Report {
        match self.selected {
            Some(side) => Report {
                position: self.track(side).fix.last_pos,
                side: Some(side),
                locked: self.warmed && self.track(side).fix.lock_count >= self.cfg.lock_threshold,
            },
            None => Report { position: None, side: None, locked: false },
        }
    }

    /// The reported position as read on the record of the resolved side: negative
    /// in its lead-in groove.
    pub open spec fn on_record(self) -> Option<i64> {
        match (self.selected, self.reported().position) {
            (Some(side), Some(p)) => Some(side.on_record(p as int) as i64),
            _ => None,
        }
    }

    /// A tracker for bits of the given format, with no position yet.
    pub fn new(fmt: &TimecodeFormat, cfg: LockConfig) -> (r: Self)
        requires
            fmt.lfsr.bits <= 32,
            cfg.valid(),
        ensures
            r.wf(),
            r.window_bits == fmt.lfsr.bits,
            r.period == fmt.lfsr.period(),
            r.cfg == cfg,
            r.selected is None,
            r.bits@.len() == 0,
            r.warmup == 0,
            !r.warmed,
            r.a.fix == Fix::none(),
            r.b.fix == Fix::none(),
            r.in_cycle(),
    {
        proof {
            bits::lemma_low_mask_is_pow2(fmt.lfsr.bits);
        }
        Tracker {
            a: SideTrack::new(Side::A),
            b: SideTrack::new(Side::B),
            selected: None,
            window_bits: fmt.window_bits(),
            period: fmt.lfsr.mask() as i64,
            cfg,
            bits: VecDeque::new(),
            warmup: 0,
            warmed: false,
        }
    }

    /// The resolved side, or `None` until one is resolved.
    pub fn side(&self) -> (r: Option<Side>)
        ensures
            r == self.selected,
    {
        self.selected
    }

    /// The window, in the order of positions, packed.
    fn packed_window(&self, direction: Direction) -> (state: u32)
        requires
            self.bits@.len() <= 32,
        ensures
            state == lfsr::packed(in_position_order(self.bits@, direction)),
    {
        let n: usize = self.bits.len();
        let mut window: Vec<u8> = Vec::with_capacity(n);
        let mut i: usize = 0;
        while i < n
            invariant
                n == self.bits@.len(),
                i <= n,
                window@.len() == i,
                forall|j: int|
                    0 <= j < i ==> #[trigger] window@[j] == in_position_order(
                        self.bits@,
                        direction,
                    )[j],
            decreases n - i,
        {
            let at: usize = match direction {
                Direction::Reverse => n - 1 - i,
                _ => i,
            };
            window.push(self.bits[at]);
            i = i + 1;
        }
        assert(window@ =~= in_position_order(self.bits@, direction));
        pack_state(window.as_slice())
    }

    /// Take in one sliced bit, with whether the carrier was strong enough for it
    /// to count and the play direction. Returns `None` until the window is full,
    /// and then of each side whether its lookup agreed with its prediction.
    pub fn observe(&mut self, bit: u8, strong: bool, direction: Direction) -> (r: Option<
        (Option<bool>, Option<bool>),
    >)
        requires
            old(self).wf(),
        ensures
            final(self).wf(),
            old(self).observes(*final(self), bit, strong, direction),
            r is Some <==> final(self).bits@.len() == old(self).window_bits,
            r matches Some((agreed_a, agreed_b)) ==> {
                let window = final(self).bits@;
                let period = old(self).period as int;
                let looked_a = newest_position(old(self).a.map, window, direction, period);
                let looked_b = newest_position(old(self).b.map, window, direction, period);
                &&& agreed_a == old(self).a.fix.gated(strong).agreement(
                    looked_a,
                    direction,
                    period,
                )
                &&& agreed_b == old(self).b.fix.gated(strong).agreement(
                    looked_b,
                    direction,
                    period,
                )
            },
    {
        proof {
            bits::lemma_low_mask_is_pow2(self.window_bits as u32);
            lemma2_to64();
            if self.window_bits > 0 {
                lemma_pow2_strictly_increases(0, self.window_bits as nat);
            }
        }
        // Below the presence threshold bits are noise: do not let them count
        // towards a lock, on either side.
        if strong {
            if self.warmup < self.cfg.warmup_bits {
                self.warmup = self.warmup + 1;
            }
        } else {
            self.warmup = 0;
            self.a.fix.lock_count = 0;
            self.b.fix.lock_count = 0;
        }
        self.warmed = strong && self.warmup >= self.cfg.warmup_bits;
        // Maintain the rolling window in time order.
        self.bits.push_back(bit);
        if self.bits.len() > self.window_bits {
            self.bits.pop_front();
        }
        assert(self.bits@ =~= rolled(old(self).bits@, bit, old(self).window_bits as int));
        if self.bits.len() < self.window_bits {
            return None;
        }
        let state: u32 = self.packed_window(direction);
        proof {
            if self.window_bits == 0 {
                lemma_nothing_packs_to_zero(in_position_order(self.bits@, direction));
                bits::lemma_mask_bound(0, 20);
            }
        }
        let window_bits: usize = self.window_bits;
        let period: i64 = self.period;
        let cfg: LockConfig = self.cfg;
        let agreed_a: Option<bool> = self.a.advance(state, window_bits, direction, period, &cfg);
        let agreed_b: Option<bool> = self.b.advance(state, window_bits, direction, period, &cfg);
        proof {
            let window = self.bits@;
            assert(state == lfsr::packed(in_position_order(window, direction)));
        }
        Some((agreed_a, agreed_b))
    }

    /// Choose the side from how the sides' agreement rates compare (`best` has the
    /// higher one; `confident` if it is high enough to accept; `clear` if it beats
    /// the other by the margin for a switch), and report.
    pub fn resolve(&mut self, best: Side, confident: bool, clear: bool) -> (r: Report)
        requires
            old(self).wf(),
        ensures
            final(self).wf(),
            old(self).chooses(*final(self), best, confident, clear),
            r == final(self).reported(),
    {
        if self.warmed && confident {
            match self.selected {
                None => {
                    self.selected = Some(best);
                },
                Some(current) => {
                    if best != current && clear {
                        self.selected = Some(best);
                    }
                },
            }
        }
        self.report()
    }

    /// Report the position from the latched side, if any.
    pub fn report(&self) -> (r: Report)
        requires
            self.wf(),
        ensures
            r == self.reported(),
    {
        match self.selected {
            Some(side) => {
                let fix: Fix = match side {
                    Side::A => self.a.fix,
                    Side::B => self.b.fix,
                };
                Report {
                    position: fix.last_pos,
                    side: Some(side),
                    locked: self.warmed && fix.lock_count >= self.cfg.lock_threshold,
                }
            },
            None => Report { position: None, side: None, locked: false },
        }
    }

    /// Read the reported position on the record: negative in the lead-in groove of
    /// the resolved side, from 0 on in its program.
    pub fn record_position(&self) -> (r: Option<i64>)
        requires
            self.wf(),
        ensures
            r == self.on_record(),
    {
        match self.selected {
            Some(side) => {
                let fix: Fix = match side {
                    Side::A => self.a.fix,
                    Side::B => self.b.fix,
                };
                match fix.last_pos {
                    Some(p) => Some(side.format().signed_position(p as u32)),
                    None => None,
                }
            },
            None => None,
        }
    }
}

} // verus!
