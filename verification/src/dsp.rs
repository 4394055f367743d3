//! The discrete part of the signal front-end: channel order, cycle boundaries and
//! the history that peaks are measured over.
//!
//! One bit is sliced per carrier cycle, at a zero crossing of the lag channel,
//! where the lead channel is at a peak.

use crate::format::LeadChannel;
use vstd::prelude::*;

verus! {

/// Map a raw `(l, r)` frame to `(lead, lag)`.
pub fn to_xy<T>(lead: LeadChannel, l: T, r: T) -> (xy: (T, T))
    ensures
        xy == (match lead {
            LeadChannel::Left => (l, r),
            LeadChannel::Right => (r, l),
        }),
{
    match lead {
        LeadChannel::Left => (l, r),
        LeadChannel::Right => (r, l),
    }
}

/// Finds the sample of each carrier cycle at which its bit is sliced.
///
/// A Schmitt trigger tracks the sign of the lag channel, so that noise near zero
/// makes no crossings. Forward play slices on the fall from high to low, reverse
/// on the rise, which keeps the slice off the cycle boundary. A refractory period
/// after an accepted crossing enforces one bit per cycle.
#[derive(Clone, Copy, Debug, PartialEq, Eq, Structural)]
pub struct CrossingDetector {
    /// The lag channel was last in the high region.
    pub high: bool,
    /// Sample of the last accepted crossing.
    pub last_cross: u64,
    /// There has been an accepted crossing.
    pub have_cross: bool,
}

impl CrossingDetector {
    /// The trigger switches on this sample.
    pub open spec fn switches(self, below: bool, above: bool) -> bool {
        if self.high {
            below
        } else {
            above
        }
    }

    /// A crossing at `idx` comes too soon after the last.
    pub open spec fn refractory(self, idx: u64, min_gap: u64) -> bool {
        self.have_cross && min_gap > 0 && idx < self.last_cross + min_gap
    }

    pub fn new() -> (r: Self)
        ensures
            r == (CrossingDetector { high: false, last_cross: 0, have_cross: false }),
    {
        CrossingDetector { high: false, last_cross: 0, have_cross: false }
    }

    /// Take in a sample of the lag channel, given whether it is below or above
    /// the hysteresis band. Returns whether the trigger switched in the sense
    /// that slices for the play direction.
    pub fn trigger(&mut self, below: bool, above: bool, forward: bool) -> (fired: bool)
        ensures
            fired == old(self).fires(below, above, forward),
            *final(self) == old(self).triggered(below, above),
            fired ==> final(self).high == !forward,
            fired <==> (forward && old(self).high && below) || (!forward && !old(self).high
                && above),
            final(self).high == (if old(self).high {
                !below
            } else {
                above
            }),
            final(self).last_cross == old(self).last_cross,
            final(self).have_cross == old(self).have_cross,
    {
        if self.high {
            if below {
                self.high = false;
                return forward;
            }
        } else if above {
            self.high = true;
            return !forward;
        }
        false
    }

    /// Accept a crossing at sample `idx`, unless the last accepted one is less
    /// than `min_gap` samples back.
    pub fn accept(&mut self, idx: u64, min_gap: u64) -> (accepted: bool)
        ensures
            accepted == !old(self).refractory(idx, min_gap),
            *final(self) == (if accepted {
                CrossingDetector { last_cross: idx, have_cross: true, ..*old(self) }
            } else {
                *old(self)
            }),
            accepted && old(self).have_cross && idx >= old(self).last_cross ==> idx
                - old(self).last_cross >= min_gap,
            idx >= old(self).last_cross + min_gap ==> accepted,
            !old(self).have_cross || min_gap == 0 ==> accepted,
            old(self).have_cross && old(self).last_cross <= idx < old(self).last_cross + min_gap
                ==> !accepted,
            old(self).have_cross && idx < old(self).last_cross && min_gap > 0 ==> !accepted,
    {
        let gap: u64 = if idx >= self.last_cross {
            idx - self.last_cross
        } else {
            0
        };
        if self.have_cross && gap < min_gap {
            return false;
        }
        self.last_cross = idx;
        self.have_cross = true;
        true
    }
}

/// What a sample brings to the detector: whether the lag channel is below or above
/// the hysteresis band, the play direction, and the least gap to the last bit.
pub struct Sample {
    pub below: bool,
    pub above: bool,
    pub forward: bool,
    pub min_gap: u64,
}

impl CrossingDetector {
    /// The detector after a trigger.
    pub open spec fn triggered(self, below: bool, above: bool) -> CrossingDetector {
        CrossingDetector { high: self.high != self.switches(below, above), ..self }
    }

    /// The trigger switches in the sense that slices for the play direction.
    pub open spec fn fires(self, below: bool, above: bool, forward: bool) -> bool {
        self.switches(below, above) && self.high == forward
    }

    /// A bit is sliced at sample `idx`: the trigger fires, and the crossing is
    /// accepted.
    pub open spec fn slices(self, idx: u64, s: Sample) -> bool {
        self.fires(s.below, s.above, s.forward) && !self.triggered(s.below, s.above).refractory(
            idx,
            s.min_gap,
        )
    }

    /// The detector after sample `idx`.
    pub open spec fn after_sample(self, idx: u64, s: Sample) -> CrossingDetector {
        let triggered = self.triggered(s.below, s.above);
        if self.slices(idx, s) {
            CrossingDetector { last_cross: idx, have_cross: true, ..triggered }
        } else {
            triggered
        }
    }
}

/// The detector after the first `n` of a run of samples.
pub open spec fn detector_at(samples: Seq<Sample>, n: nat) -> CrossingDetector
    decreases n,
{
    if n == 0 {
        CrossingDetector { high: false, last_cross: 0, have_cross: false }
    } else {
        detector_at(samples, (n - 1) as nat).after_sample((n - 1) as u64, samples[n - 1])
    }
}

/// Sample `i` of a run yields a bit.
pub open spec fn bit_at(samples: Seq<Sample>, i: nat) -> bool {
    detector_at(samples, i).slices(i as u64, samples[i as int])
}

/// The detector remembers the last sample that yielded a bit.
proof fn lemma_last_bit(samples: Seq<Sample>, n: nat, i: nat)
    requires
        n <= samples.len() <= u64::MAX,
        i < n,
        bit_at(samples, i),
    ensures
        detector_at(samples, n).have_cross,
        i <= detector_at(samples, n).last_cross < n,
    decreases n,
{
    if i + 1 < n {
        lemma_last_bit(samples, (n - 1) as nat, i);
    }
}

/// Bits are spaced: of two samples of a run that yield a bit, the later comes at
/// least its own least gap after the earlier.
pub proof fn lemma_bits_are_spaced(samples: Seq<Sample>, i: nat, j: nat)
    requires
        samples.len() <= u64::MAX,
        i < j < samples.len(),
        bit_at(samples, i),
        bit_at(samples, j),
    ensures
        j - i >= samples[j as int].min_gap,
{
    lemma_last_bit(samples, j, i);
}

/// A crossing is not lost: with the last accepted one at least its least gap back,
/// or none yet, it is not refractory; and one that comes sooner is.
pub proof fn lemma_refractory_is_least_gap(d: CrossingDetector, idx: u64, min_gap: u64)
    ensures
        idx >= d.last_cross + min_gap ==> !d.refractory(idx, min_gap),
        !d.have_cross ==> !d.refractory(idx, min_gap),
        d.have_cross && d.last_cross <= idx < d.last_cross + min_gap ==> d.refractory(
            idx,
            min_gap,
        ),
{
}

/// The samples lie on one side of the hysteresis band or inside it, never on both
/// sides.
pub open spec fn one_sided(samples: Seq<Sample>) -> bool {
    forall|m: int| 0 <= m < samples.len() ==> !((#[trigger] samples[m]).below && samples[m].above)
}

/// Sample `i` is above the band, sample `j` below it, and none between them is
/// below.
pub open spec fn falls_between(samples: Seq<Sample>, i: int, j: int) -> bool {
    &&& 0 <= i < j < samples.len()
    &&& samples[i].above
    &&& samples[j].below
    &&& forall|m: int| i < m < j ==> !(#[trigger] samples[m]).below
}

/// Sample `j` is above the band, and it is the first to be since sample `i`, which
/// is below it, or since the start, for which `i` is -1.
pub open spec fn rises_between(samples: Seq<Sample>, i: int, j: int) -> bool {
    &&& -1 <= i < j < samples.len()
    &&& i >= 0 ==> samples[i].below
    &&& samples[j].above
    &&& forall|m: int| i < m < j ==> !(#[trigger] samples[m]).above
}

/// The lag channel crosses at sample `j` in the sense that slices for its play
/// direction: forward it falls through the band, in reverse it rises.
pub open spec fn crosses(samples: Seq<Sample>, j: int) -> bool {
    if samples[j].forward {
        exists|i: int| falls_between(samples, i, j)
    } else {
        exists|i: int| rises_between(samples, i, j)
    }
}

/// After a sample above the band the trigger is high as long as none is below.
proof fn lemma_stays_high(samples: Seq<Sample>, i: int, n: int)
    requires
        one_sided(samples),
        0 <= i < n <= samples.len(),
        samples[i].above,
        forall|m: int| i < m < n ==> !(#[trigger] samples[m]).below,
    ensures
        detector_at(samples, n as nat).high,
    decreases n,
{
    if i + 1 < n {
        lemma_stays_high(samples, i, n - 1);
        assert(!samples[n - 1].below);
    }
}

/// From a sample below the band, or the start, the trigger is low as long as none
/// is above.
proof fn lemma_stays_low(samples: Seq<Sample>, i: int, n: int)
    requires
        one_sided(samples),
        -1 <= i < n <= samples.len(),
        0 <= n,
        i >= 0 ==> samples[i].below,
        forall|m: int| i < m < n ==> !(#[trigger] samples[m]).above,
    ensures
        !detector_at(samples, n as nat).high,
    decreases n,
{
    if i + 1 < n {
        lemma_stays_low(samples, i, n - 1);
        assert(!samples[n - 1].above);
    }
}

/// The sample that the trigger last went high at, or low.
proof fn lemma_last_switch(samples: Seq<Sample>, n: int) -> (i: int)
    requires
        0 <= n <= samples.len(),
    ensures
        -1 <= i < n,
        detector_at(samples, n as nat).high ==> {
            &&& i >= 0
            &&& samples[i].above
            &&& forall|m: int| i < m < n ==> !(#[trigger] samples[m]).below
        },
        !detector_at(samples, n as nat).high ==> {
            &&& i >= 0 ==> samples[i].below
            &&& forall|m: int| i < m < n ==> !(#[trigger] samples[m]).above
        },
    decreases n,
{
    if n == 0 {
        -1
    } else {
        let i = lemma_last_switch(samples, n - 1);
        if detector_at(samples, (n - 1) as nat).high != detector_at(samples, n as nat).high {
            n - 1
        } else {
            i
        }
    }
}

/// Bits come from crossings: a sample that yields a bit is one at which the lag
/// channel crosses in the sense of the play direction.
pub proof fn lemma_bits_come_from_crossings(samples: Seq<Sample>, j: nat)
    requires
        j < samples.len(),
        bit_at(samples, j),
    ensures
        crosses(samples, j as int),
{
    let i = lemma_last_switch(samples, j as int);
    if samples[j as int].forward {
        assert(falls_between(samples, i, j as int));
    } else {
        assert(rises_between(samples, i, j as int));
    }
}

/// No bit is lost: a crossing in the sense of the play direction that comes at
/// least its least gap after every sample that yielded a bit yields one.
pub proof fn lemma_no_bit_is_lost(samples: Seq<Sample>, j: nat)
    requires
        samples.len() <= u64::MAX,
        one_sided(samples),
        j < samples.len(),
        crosses(samples, j as int),
        forall|b: nat|
            b < j && #[trigger] bit_at(samples, b) ==> j - b >= samples[j as int].min_gap,
    ensures
        bit_at(samples, j),
{
    let at = j as int;
    if samples[at].forward {
        let i = choose|i: int| falls_between(samples, i, at);
        lemma_stays_high(samples, i, at);
    } else {
        let i = choose|i: int| rises_between(samples, i, at);
        lemma_stays_low(samples, i, at);
    }
    lemma_last_cross_is_bit(samples, j);
}

/// An accepted crossing is a sample that yielded a bit.
proof fn lemma_last_cross_is_bit(samples: Seq<Sample>, n: nat)
    requires
        n <= samples.len() <= u64::MAX,
    ensures
        detector_at(samples, n).have_cross ==> {
            &&& detector_at(samples, n).last_cross < n
            &&& bit_at(samples, detector_at(samples, n).last_cross as nat)
        },
    decreases n,
{
    if n > 0 {
        lemma_last_cross_is_bit(samples, (n - 1) as nat);
    }
}

/// Every cycle is sliced: on a run whose crossings each come at least their least
/// gap after all earlier ones, the samples that yield a bit are exactly the
/// crossings.
pub proof fn lemma_every_cycle_is_sliced(samples: Seq<Sample>, j: nat)
    requires
        samples.len() <= u64::MAX,
        one_sided(samples),
        j < samples.len(),
        forall|b: int|
            0 <= b < j && #[trigger] crosses(samples, b) ==> j - b >= samples[j as int].min_gap,
    ensures
        bit_at(samples, j) <==> crosses(samples, j as int),
{
    if bit_at(samples, j) {
        lemma_bits_come_from_crossings(samples, j);
    }
    if crosses(samples, j as int) {
        assert forall|b: nat| b < j && #[trigger] bit_at(samples, b) implies j - b
            >= samples[j as int].min_gap by {
            lemma_bits_come_from_crossings(samples, b);
        }
        lemma_no_bit_is_lost(samples, j);
    }
}

/// The first sample of a run yields no bit: played forward the channel has to
/// rise before it can fall.
pub proof fn lemma_first_sample_yields_no_bit(samples: Seq<Sample>)
    requires
        samples.len() > 0,
        samples[0].forward,
    ensures
        !bit_at(samples, 0),
{
}

/// Number of samples kept for a peak measurement.
pub const HISTORY: usize = 8;

/// Ring of the most recent samples.
pub struct PeakHistory<T> {
    pub slots: Vec<T>,
    /// The slot that the next sample goes to.
    pub next: usize,
}

impl<T: Copy> PeakHistory<T> {
    pub open spec fn wf(self) -> bool {
        self.slots@.len() == HISTORY && self.next < HISTORY
    }

    /// The sample `j` places before the newest.
    pub open spec fn recent(self, j: int) -> T {
        self.slots@[(self.next + HISTORY - 1 - j) % (HISTORY as int)]
    }

    /// The ring holds the last samples of `samples`.
    pub open spec fn holds(self, samples: Seq<T>) -> bool {
        forall|j: int|
            0 <= j < HISTORY && j < samples.len() ==> #[trigger] self.recent(j)
                == samples[samples.len() - 1 - j]
    }

    pub fn new(zero: T) -> (r: Self)
        ensures
            r.wf(),
            r.slots@.len() == 8,
            forall|j: int| 0 <= j < HISTORY ==> #[trigger] r.recent(j) == zero,
            r.holds(Seq::empty()),
    {
        let mut slots: Vec<T> = Vec::with_capacity(HISTORY);
        let mut i: usize = 0;
        while i < HISTORY
            invariant
                i <= HISTORY,
                slots@.len() == i,
                forall|j: int| 0 <= j < i ==> #[trigger] slots@[j] == zero,
            decreases HISTORY - i,
        {
            slots.push(zero);
            i = i + 1;
        }
        PeakHistory { slots, next: 0 }
    }

    /// Take in a sample.
    pub fn push(&mut self, v: T)
        requires
            old(self).wf(),
        ensures
            final(self).wf(),
            final(self).recent(0) == v,
            forall|j: int|
                1 <= j < HISTORY ==> #[trigger] final(self).recent(j) == old(self).recent(j - 1),
            forall|samples: Seq<T>| #[trigger]
                old(self).holds(samples) ==> final(self).holds(samples.push(v)),
    {
        let at: usize = self.next;
        self.slots[at] = v;
        self.next = (at + 1) % HISTORY;
        proof {
            assert forall|j: int| 1 <= j < HISTORY implies #[trigger] self.recent(j) == old(
                self,
            ).recent(j - 1) by {}
            assert forall|samples: Seq<T>| #[trigger] old(self).holds(samples) implies self.holds(
                samples.push(v),
            ) by {
                assert forall|j: int|
                    0 <= j < HISTORY && j < samples.push(v).len() implies #[trigger] self.recent(j)
                    == samples.push(v)[samples.push(v).len() - 1 - j] by {
                    if j > 0 {
                        assert(old(self).recent(j - 1) == samples[samples.len() - 1 - (j - 1)]);
                    }
                }
            }
        }
    }

    /// The most recent samples, newest first: `k` of them, at least one and at
    /// most all.
    pub fn window(&self, k: usize) -> (out: Vec<T>)
        requires
            self.wf(),
        ensures
            out@.len() == (if k < 1 {
                1
            } else if k > HISTORY {
                HISTORY
            } else {
                k
            }),
            forall|j: int| 0 <= j < out@.len() ==> #[trigger] out@[j] == self.recent(j),
    {
        let count: usize = if k < 1 {
            1
        } else if k > HISTORY {
            HISTORY
        } else {
            k
        };
        let mut out: Vec<T> = Vec::with_capacity(count);
        let mut j: usize = 0;
        while j < count
            invariant
                self.wf(),
                j <= count <= HISTORY,
                out@.len() == j,
                forall|i: int| 0 <= i < j ==> #[trigger] out@[i] == self.recent(i),
            decreases count - j,
        {
            out.push(self.slots[(self.next + HISTORY - 1 - j) % HISTORY]);
            j = j + 1;
        }
        out
    }
}

} // verus!
