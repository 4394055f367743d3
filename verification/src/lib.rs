//! Position decoding for DVS control-tone timecode (Serato Scratch Live style).
//!
//! Digital vinyl systems press a control tone onto vinyl: a stereo carrier in
//! quadrature whose cycles each carry one amplitude-modulated bit. The bits are
//! the output of a maximal-length shift register, so a window of as many bits as
//! the register is wide maps to one absolute position on the record.
//!
//! This crate holds everything of such a decoder that works on bits and whole
//! numbers, with its behaviour stated in contracts:
//!
//! * [`lfsr`]: the register; [`orbit`], [`span`], [`visit`] and [`primitive`]: its
//!   cycle.
//! * [`position`]: from a window of bits to a position, over the stores
//!   [`packed`], [`bsgs`], [`dlog`] and [`sorted`]. The two discrete-log stores
//!   rest on [`gf`], [`field`], [`logarithm`] and [`number`].
//! * [`tracker`]: lock, re-sync and side detection; [`cycle_laws`] and
//!   [`lock_laws`]: what they promise, of one cycle and of many.
//! * [`format`]: the measured formats.
//! * [`analysis`]: recovering a register from its bits; [`recurrence`] and
//!   [`recovery`]: why that works; [`text_laws`]: what the printed polynomial says.
//! * [`dsp`], [`synth`], [`wav`]: the discrete parts of the signal front-end, of
//!   the tone generator and of sample I/O.

pub mod analysis;
pub mod bits;
pub mod bsgs;
pub mod counting;
pub mod cycle_laws;
pub mod dlog;
pub mod dsp;
pub mod field;
pub mod format;
pub mod gf;
pub mod lfsr;
pub mod lock_laws;
pub mod logarithm;
pub mod number;
pub mod orbit;
pub mod packed;
pub mod position;
pub mod primitive;
pub mod recovery;
pub mod recurrence;
pub mod sorted;
pub mod span;
pub mod synth;
pub mod text_laws;
pub mod tracker;
pub mod visit;
pub mod wav;

pub use crate::format::{Side, TimecodeFormat};
pub use crate::tracker::Direction;
