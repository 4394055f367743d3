# sl-timecode-decoder

Position decoding for DVS (Serato Scratch Live style) control-tone timecode, with
its behaviour stated in contracts and proved with Verus.

A control record carries a 1 kHz stereo carrier in quadrature. Each cycle holds one
amplitude-modulated bit, and the bits are the output of a 20-bit maximal-length
shift register. Twenty bits in a row therefore name one place on the record.

## Layout

| where | what |
|---|---|
| `src/lfsr.rs`, `orbit.rs`, `span.rs`, `visit.rs`, `primitive.rs` | the register, and the facts about its cycle |
| `src/position.rs` | from a window of bits to an absolute position |
| `src/packed.rs`, `bsgs.rs`, `dlog.rs`, `sorted.rs` | the stores behind it: bit-packed table, baby-step giant-step, Pohlig-Hellman, sorted pairs |
| `src/gf.rs`, `field.rs`, `logarithm.rs`, `number.rs` | the finite field and the number theory of the discrete-log stores |
| `src/tracker.rs`, `lock_laws.rs` | lock, re-sync and side detection, and what they promise |
| `src/format.rs` | the measured formats of the two pressed sides |
| `src/analysis.rs`, `recurrence.rs`, `recovery.rs` | Berlekamp-Massey, and why it recovers a register |
| `src/dsp.rs`, `synth.rs`, `wav.rs` | the discrete parts of the front-end, the generator and sample I/O |
| `app/` | floating-point signal processing, the streaming decoder, FFT analysis and WAV files |
| `tests/` | tests of the library on concrete values |

## What is proved

The registers of both sides are maximal-length
(`primitive::lemma_sides_are_maximal`). Of any maximal-length register started from
a nonzero seed:

* A window of `bits` output bits that starts at index `k` resolves to `k`, with
  every store (`position::lemma_window_round_trip`, `lemma_stores_agree`).
* Steady play in either direction builds a lock on the exact position, through the
  wrap of the cycle (`lock_laws::lemma_forward_play_locks`,
  `lemma_reverse_play_locks`; of a whole tracker `lemma_tracker_locks`,
  `lemma_tracker_locks_in_reverse`).
* A tracker locks again from whatever state a dropout, noise, a skip or a reversal
  left it in, once steady play has lasted for the warm-up and for a window, the
  misses a re-sync takes and the lock threshold together
  (`lemma_tracker_locks_again`, `lemma_tracker_locks_again_in_reverse`).
* From twice `bits` output bits the shortest recurrence is the register itself
  (`recovery::lemma_recovers_register`).

Of every register:

* All stores resolve a window alike, and the discrete-log stores are built exactly
  for the maximal-length registers they cover.
* Berlekamp-Massey returns a shortest recurrence.
* Isolated errors are held and jumps are followed. A lock follows a full warm-up of
  strong bits in a row, carries a position, and moves by one step of the play
  direction from one cycle to the next. A resolved side is never lost.
* Reported positions lie in the cycle, for formats at least as wide as the registers
  of the sides (`lemma_reported_positions_in_cycle`).

One standard-library call is trusted rather than proved: `sort_unstable` on pairs of
integers (`sorted::sort_pairs`).

## Measured parameters (Serato CV02)

| parameter | side A | side B |
|---|---|---|
| register | 20 bits, taps `0x361e5` | 20 bits, taps `0x4f0d9` |
| register at position 0 | `0xafd8e` | `0x9a9a2` |
| lead-in | 4783 bits | 6051 bits |

Positions run over one period, `2^20 - 1` bits. The lead-in groove is the top of the
cycle; `Tracker::record_position` reads it as negative positions, by the lead-in of
the side that is playing.
