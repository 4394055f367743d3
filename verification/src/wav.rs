//! Interleaved samples to stereo frames.

use vstd::arithmetic::div_mod::*;
use vstd::arithmetic::power2::*;
use vstd::bits::*;
use vstd::prelude::*;

verus! {

/// Number of frames that `len` interleaved samples of `ch` channels make, the
/// last one perhaps short.
pub open spec fn frame_count(len: nat, ch: nat) -> nat {
    if ch == 0 {
        0
    } else {
        ((len + ch - 1) / (ch as int)) as nat
    }
}

/// Frame `i`: the first two channels, or the first twice where there is no
/// second.
pub open spec fn frame<T>(samples: Seq<T>, ch: nat, i: int) -> (T, T) {
    let at = i * ch;
    (
        samples[at],
        if ch >= 2 && at + 1 < samples.len() {
            samples[at + 1]
        } else {
            samples[at]
        },
    )
}

/// The frames of interleaved samples.
pub open spec fn frames_of<T>(samples: Seq<T>, ch: nat) -> Seq<(T, T)> {
    Seq::new(frame_count(samples.len(), ch), |i: int| frame(samples, ch, i))
}

proof fn lemma_frame_place(len: nat, ch: nat, i: int)
    requires
        ch > 0,
        0 <= i,
    ensures
        i * ch < len <==> i < frame_count(len, ch),
        0 <= i * ch,
        (i + 1) * ch == i * ch + ch,
{
    let total = len + ch - 1;
    let n = total / (ch as int);
    lemma_fundamental_div_mod(total, ch as int);
    lemma_mod_bound(total, ch as int);
    let r = total % (ch as int);
    assert((i + 1) * ch == i * ch + ch && 0 <= i * ch) by (nonlinear_arith)
        requires
            0 <= i,
            ch > 0,
    ;
    if i < n {
        assert(i * ch + ch <= n * ch) by (nonlinear_arith)
            requires
                i + 1 <= n,
                ch > 0,
        ;
    } else {
        assert(n * ch <= i * ch) by (nonlinear_arith)
            requires
                n <= i,
                ch > 0,
        ;
    }
    assert(ch * n == n * ch) by (nonlinear_arith);
}

/// Stereo frames from interleaved samples: mono is duplicated to both channels,
/// and of more than two channels the first two count.
pub fn stereo_frames<T: Copy>(samples: &[T], ch: usize) -> (frames: Vec<(T, T)>)
    requires
        samples@.len() + ch <= usize::MAX,
    ensures
        frames@ == frames_of(samples@, ch as nat),
        ch == 0 ==> frames@.len() == 0,
        ch > 0 ==> {
            &&& frames@.len() * ch >= samples@.len()
            &&& frames@.len() > 0 ==> (frames@.len() - 1) * ch < samples@.len()
        },
        forall|i: int|
            0 <= i < frames@.len() ==> {
                &&& (#[trigger] frames@[i]).0 == samples@[i * ch]
                &&& frames@[i].1 == (if ch >= 2 && i * ch + 1 < samples@.len() {
                    samples@[i * ch + 1]
                } else {
                    samples@[i * ch]
                })
            },
{
    let mut frames: Vec<(T, T)> = Vec::new();
    if ch == 0 {
        assert(frames@ =~= frames_of(samples@, 0));
        return frames;
    }
    let mut at: usize = 0;
    proof {
        lemma_frame_place(samples@.len(), ch as nat, 0);
    }
    while at < samples.len()
        invariant
            ch > 0,
            samples@.len() + ch <= usize::MAX,
            at == frames@.len() * ch,
            frames@.len() <= frame_count(samples@.len(), ch as nat),
            at < samples@.len() <==> frames@.len() < frame_count(samples@.len(), ch as nat),
            forall|i: int|
                0 <= i < frames@.len() ==> #[trigger] frames@[i] == frame(samples@, ch as nat, i),
        decreases frame_count(samples@.len(), ch as nat) - frames@.len(),
    {
        proof {
            lemma_frame_place(samples@.len(), ch as nat, frames@.len() as int);
            lemma_frame_place(samples@.len(), ch as nat, frames@.len() as int + 1);
        }
        let first: T = samples[at];
        let second: T = if ch >= 2 && at + 1 < samples.len() {
            samples[at + 1]
        } else {
            first
        };
        frames.push((first, second));
        at = at + ch;
    }
    assert(frames@ =~= frames_of(samples@, ch as nat));
    proof {
        if frames@.len() > 0 {
            lemma_frame_place(samples@.len(), ch as nat, frames@.len() - 1);
        }
    }
    frames
}

/// Frames keep the first two channels: every sample of the first channel is the
/// left of its frame and every one of the second the right, frames end where the
/// samples do, and without a second the left is heard on both.
pub proof fn lemma_frames_keep_channels<T>(samples: Seq<T>, ch: nat, i: int)
    requires
        ch > 0,
        0 <= i,
    ensures
        i < frames_of(samples, ch).len() <==> i * ch < samples.len(),
        i * ch < samples.len() ==> frames_of(samples, ch)[i].0 == samples[i * ch],
        ch >= 2 && i * ch + 1 < samples.len() ==> frames_of(samples, ch)[i].1 == samples[i * ch
            + 1],
        i * ch < samples.len() && (ch == 1 || i * ch + 1 == samples.len()) ==> frames_of(
            samples,
            ch,
        )[i].1 == samples[i * ch],
{
    lemma_frame_place(samples.len(), ch, i);
}

/// The smaller of two numbers.
pub open spec fn at_most(a: int, b: int) -> int {
    if a < b {
        a
    } else {
        b
    }
}

/// A segment of a recording is the same cut of the whole: the frames of the
/// samples from frame `skip` on, at most `max` frames' worth of them, are the
/// frames of the whole recording from `skip` on, at most `max` of them.
pub proof fn lemma_segment_is_cut<T>(samples: Seq<T>, ch: nat, skip: nat, max: nat)
    requires
        ch > 0,
        skip < frame_count(samples.len(), ch),
    ensures
        ({
            let whole = frames_of(samples, ch);
            let from = skip * ch;
            let segment = samples.subrange(
                from as int,
                at_most((from + max * ch) as int, samples.len() as int),
            );
            &&& from < samples.len()
            &&& frames_of(segment, ch) == whole.subrange(
                skip as int,
                at_most((skip + max) as int, whole.len() as int),
            )
        }),
{
    let whole = frames_of(samples, ch);
    let count = frame_count(samples.len(), ch) as int;
    let from = skip * ch;
    let to = at_most((from + max * ch) as int, samples.len() as int);
    lemma_frame_place(samples.len(), ch, skip as int);
    lemma_frame_place(samples.len(), ch, (skip + max) as int);
    assert((skip + max) * ch == from + max * ch) by (nonlinear_arith)
        requires
            from == skip * ch,
    ;
    assert(0 <= max * ch) by (nonlinear_arith);
    let segment = samples.subrange(from as int, to);
    let end = at_most((skip + max) as int, count);
    // The segment has as many frames as the cut.
    assert forall|i: int| 0 <= i implies (i < frame_count(segment.len(), ch) <==> #[trigger] (skip
        + i) < end) by {
        lemma_frame_place(segment.len(), ch, i);
        lemma_frame_place(samples.len(), ch, skip + i);
        assert((skip + i) * ch == from + i * ch) by (nonlinear_arith)
            requires
                from == skip * ch,
        ;
        if i < max {
            assert(i * ch + ch <= max * ch) by (nonlinear_arith)
                requires
                    i + 1 <= max,
            ;
        } else {
            assert(max * ch <= i * ch) by (nonlinear_arith)
                requires
                    max <= i,
            ;
        }
    }
    let cut = whole.subrange(skip as int, end);
    let n = frame_count(segment.len(), ch) as int;
    assert(n == end - skip) by {
        assert((skip + n) >= end);
        if n > 0 {
            assert((skip + (n - 1)) < end);
        }
    }
    assert forall|i: int| 0 <= i < n implies frames_of(segment, ch)[i] == #[trigger] cut[i] by {
        lemma_frame_place(segment.len(), ch, i);
        lemma_frame_place(samples.len(), ch, skip + i);
        assert((skip + i) * ch == from + i * ch) by (nonlinear_arith)
            requires
                from == skip * ch,
        ;
        assert((skip + i) < end);
        assert(i * ch + ch <= max * ch) by (nonlinear_arith)
            requires
                i + 1 <= max,
        ;
    }
    assert(frames_of(segment, ch) =~= cut);
}

/// The frame to seek to, within what the file format can address.
pub fn seek_frame(skip_frames: u64) -> (r: u32)
    ensures
        r == (if skip_frames <= u32::MAX {
            skip_frames as int
        } else {
            u32::MAX as int
        }),
{
    if skip_frames <= u32::MAX as u64 {
        skip_frames as u32
    } else {
        u32::MAX
    }
}

/// Number of interleaved samples to read for `max_frames` frames, as far as the
/// type goes.
pub fn wanted_samples(max_frames: usize, ch: usize) -> (r: usize)
    ensures
        r == (if max_frames * ch <= usize::MAX {
            max_frames * ch
        } else {
            usize::MAX as int
        }),
{
    match max_frames.checked_mul(ch) {
        Some(n) => n,
        None => usize::MAX,
    }
}

/// Full scale of signed integer samples of a width.
pub fn full_scale(bits_per_sample: u16) -> (r: u64)
    requires
        1 <= bits_per_sample <= 64,
    ensures
        r == pow2((bits_per_sample - 1) as nat),
{
    let shift: u64 = (bits_per_sample - 1) as u64;
    proof {
        lemma_u64_pow2_no_overflow(shift as nat);
        lemma_u64_shl_is_mul(1, shift);
    }
    1u64 << shift
}

} // verus!
