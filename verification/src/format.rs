//! Pluggable timecode format descriptor.
//!
//! A [`TimecodeFormat`] holds what position decoding needs to know of a control
//! tone: the register behind its bits, where it starts and which channel leads.
//! The Serato CV02 sides are provided; other formats can be added as further
//! constructors.

use crate::bits;
use crate::lfsr::Lfsr;
use vstd::arithmetic::div_mod::*;
use vstd::prelude::*;

verus! {

/// Which stereo channel leads (by 90 degrees) during forward playback.
#[derive(Clone, Copy, Debug, PartialEq, Eq, Structural)]
pub enum LeadChannel {
    /// Left leads right during forward playback.
    Left,
    /// Right leads left during forward playback.
    Right,
}

/// The position code of a control-tone format.
#[derive(Clone, Copy, Debug)]
pub struct TimecodeFormat {
    /// Human-readable name.
    pub name: &'static str,
    /// Register geometry of the position code.
    pub lfsr: Lfsr,
    /// The register at absolute position 0.
    pub seed: u32,
    /// Which channel leads during forward playback.
    pub lead: LeadChannel,
    /// Length of the coded lead-in groove before position 0, in bits: the top of
    /// the register's cycle.
    pub lead_in_bits: u32,
    /// Whether the parameters are confirmed against a real recording.
    pub confirmed: bool,
}

/// A position as read on a record: the lead-in, at the top of the cycle, counts
/// up to 0 from below.
pub open spec fn record_reading(position: int, period: int, lead_in: int) -> int {
    if position >= period - lead_in {
        position - period
    } else {
        position
    }
}

impl TimecodeFormat {
    /// Number of consecutive bits needed to resolve an absolute position: for a
    /// maximal-length register exactly its width.
    pub fn window_bits(&self) -> (r: usize)
        ensures
            r == self.lfsr.bits,
    {
        self.lfsr.bits as usize
    }

    /// A position as read on a record of this format.
    pub open spec fn on_record(self, position: int) -> int {
        record_reading(position, self.lfsr.period() as int, self.lead_in_bits as int)
    }

    /// Read an absolute position on the record: negative in the lead-in groove,
    /// from 0 on in the program.
    pub fn signed_position(&self, position: u32) -> (r: i64)
        requires
            self.lfsr.bits <= 32,
        ensures
            r == self.on_record(position as int),
            position + self.lead_in_bits < self.lfsr.period() ==> r == position,
            position + self.lead_in_bits >= self.lfsr.period() ==> r == position
                - self.lfsr.period(),
    {
        proof {
            bits::lemma_low_mask_is_pow2(self.lfsr.bits);
            self.lfsr.lemma_period_fits();
        }
        let period: i64 = self.lfsr.mask() as i64;
        if position as i64 >= period - self.lead_in_bits as i64 {
            position as i64 - period
        } else {
            position as i64
        }
    }
}

/// The lead-in joins the program: playing on by one bit raises the reading by
/// one, through 0, everywhere but at the end of the program, where the reading
/// falls back to the start of the lead-in; and the reading keeps the position
/// modulo the period.
pub proof fn lemma_lead_in_is_continuous(f: TimecodeFormat, position: int)
    requires
        1 <= f.lfsr.bits <= 32,
        f.lead_in_bits < f.lfsr.period(),
        0 <= position < f.lfsr.period(),
    ensures
        ({
            let period = f.lfsr.period() as int;
            let next = (position + 1) % period;
            &&& f.on_record(position) % period == position
            &&& if next == period - f.lead_in_bits || (f.lead_in_bits == 0 && next == 0) {
                f.on_record(next) == -(f.lead_in_bits as int)
            } else {
                f.on_record(next) == f.on_record(position) + 1
            }
        }),
{
    let period = f.lfsr.period() as int;
    if position + 1 == period {
        lemma_mod_self_0(period);
    } else {
        lemma_small_mod((position + 1) as nat, period as nat);
    }
    lemma_small_mod(position as nat, period as nat);
    lemma_mod_add_multiples_vanish(position - period, period);
}

/// Serato Scratch Live CV02, side A: parameters measured from a recording.
///
/// Right channel leads on forward play; 20-bit maximal-length register. Position
/// 0 is the start of the program, right after the lead-in groove.
pub fn serato_cv02_side_a() -> (r: TimecodeFormat)
    ensures
        r.name@ == "Serato CV02 side A (measured)"@,
        r.lfsr == (Lfsr { bits: 20, taps: 0x361e5 }),
        r.seed == 0xafd8e,
        r.lead == LeadChannel::Right,
        r.lead_in_bits == 4783,
        r.confirmed,
{
    TimecodeFormat {
        name: "Serato CV02 side A (measured)",
        lfsr: Lfsr::new(20, 0x361e5),
        seed: 0xafd8e,
        lead: LeadChannel::Right,
        lead_in_bits: 4783,
        confirmed: true,
    }
}

/// Serato Scratch Live CV02, side B: parameters measured from a recording.
///
/// Same layout as [`serato_cv02_side_a`] but another register polynomial, so that
/// the sides can be told apart.
pub fn serato_cv02_side_b() -> (r: TimecodeFormat)
    ensures
        r.name@ == "Serato CV02 side B (measured)"@,
        r.lfsr == (Lfsr { bits: 20, taps: 0x4f0d9 }),
        r.seed == 0x9a9a2,
        r.lead == LeadChannel::Right,
        r.lead_in_bits == 6051,
        r.confirmed,
{
    TimecodeFormat {
        name: "Serato CV02 side B (measured)",
        lfsr: Lfsr::new(20, 0x4f0d9),
        seed: 0x9a9a2,
        lead: LeadChannel::Right,
        lead_in_bits: 6051,
        confirmed: true,
    }
}

/// Default Serato CV02 format ([`serato_cv02_side_a`]).
pub fn serato_cv02() -> (r: TimecodeFormat)
    ensures
        r.name@ == "Serato CV02 side A (measured)"@,
        r.lfsr == (Lfsr { bits: 20, taps: 0x361e5 }),
        r.seed == 0xafd8e,
        r.lead == LeadChannel::Right,
        r.lead_in_bits == 4783,
        r.confirmed,
{
    serato_cv02_side_a()
}

/// Which pressed side of a Serato CV02 record is playing.
#[derive(Clone, Copy, Debug, PartialEq, Eq, Structural)]
pub enum Side {
    A,
    B,
}

impl Side {
    /// The register of this side.
    pub open spec fn register(self) -> Lfsr {
        match self {
            Side::A => Lfsr { bits: 20, taps: 0x361e5 },
            Side::B => Lfsr { bits: 20, taps: 0x4f0d9 },
        }
    }

    /// The register of this side at position 0.
    pub open spec fn origin(self) -> u32 {
        match self {
            Side::A => 0xafd8e,
            Side::B => 0x9a9a2,
        }
    }

    /// Length of the coded lead-in of this side, in bits.
    pub open spec fn lead_in(self) -> u32 {
        match self {
            Side::A => 4783,
            Side::B => 6051,
        }
    }

    /// A position as read on the record of this side.
    pub open spec fn on_record(self, position: int) -> int {
        record_reading(position, self.register().period() as int, self.lead_in() as int)
    }

    /// The measured [`TimecodeFormat`] for this side.
    pub fn format(self) -> (r: TimecodeFormat)
        ensures
            r.name@ == (match self {
                Side::A => "Serato CV02 side A (measured)"@,
                Side::B => "Serato CV02 side B (measured)"@,
            }),
            r.lfsr == self.register(),
            r.seed == self.origin(),
            r.lead == LeadChannel::Right,
            r.lead_in_bits == self.lead_in(),
            r.confirmed,
    {
        match self {
            Side::A => serato_cv02_side_a(),
            Side::B => serato_cv02_side_b(),
        }
    }

    /// Short human-readable label.
    pub fn label(self) -> (r: &'static str)
        ensures
            r@ == (match self {
                Side::A => "A"@,
                Side::B => "B"@,
            }),
    {
        match self {
            Side::A => "A",
            Side::B => "B",
        }
    }
}

} // verus!
