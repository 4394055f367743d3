use sl_timecode_decoder::dsp::{to_xy, CrossingDetector, PeakHistory};
use sl_timecode_decoder::format::LeadChannel;
use sl_timecode_decoder::synth::{bit_at_cycle, next_noise, noise_seed};
use sl_timecode_decoder::wav::{full_scale, seek_frame, stereo_frames, wanted_samples};

#[test]
fn the_lead_channel_comes_first() {
    assert_eq!(to_xy(LeadChannel::Left, 1.5f32, -2.0), (1.5, -2.0));
    assert_eq!(to_xy(LeadChannel::Right, 1.5f32, -2.0), (-2.0, 1.5));
}

#[test]
fn forward_slices_on_the_fall_and_reverse_on_the_rise() {
    let mut d = CrossingDetector::new();
    assert!(!d.trigger(true, false, true));
    assert!(!d.trigger(false, true, true));
    assert!(d.high);
    // Inside the hysteresis band nothing happens.
    assert!(!d.trigger(false, false, true));
    assert!(d.trigger(true, false, true));
    assert!(!d.high);
    assert!(d.trigger(false, true, false));
    assert!(!d.trigger(true, false, false));
}

#[test]
fn crossings_in_the_refractory_period_are_dropped() {
    let mut d = CrossingDetector::new();
    // The first crossing is always taken.
    assert!(d.accept(2, 100));
    assert!(!d.accept(2, 10));
    assert!(!d.accept(11, 10));
    assert!(d.accept(12, 10));
    assert_eq!(d.last_cross, 12);
    assert!(d.accept(12, 0));
    assert!(!d.accept(5, 1));
}

#[test]
fn bits_of_a_run_are_spaced() {
    let mut d = CrossingDetector::new();
    let mut noise = 7u64;
    let mut last: Option<u64> = None;
    let mut bits = 0;
    for idx in 0..5000u64 {
        let level = next_noise(&mut noise) % 3;
        let fired = d.trigger(level == 0, level == 2, true);
        if fired && d.accept(idx, 9) {
            assert_ne!(idx, 0);
            if let Some(before) = last {
                assert!(idx - before >= 9);
            }
            last = Some(idx);
            bits += 1;
        }
    }
    assert!(bits > 100);
}

#[test]
fn history_keeps_the_last_eight_samples() {
    let mut h = PeakHistory::new(0.0f32);
    assert_eq!(h.window(3), vec![0.0, 0.0, 0.0]);
    for i in 1..=20 {
        h.push(i as f32);
    }
    assert_eq!(h.window(0), vec![20.0]);
    assert_eq!(h.window(3), vec![20.0, 19.0, 18.0]);
    let all = vec![20.0, 19.0, 18.0, 17.0, 16.0, 15.0, 14.0, 13.0];
    assert_eq!(h.window(8), all);
    assert_eq!(h.window(50), all);
}

#[test]
fn cycles_repeat_the_sequence_both_ways() {
    let seq = [1u8, 0, 0];
    assert_eq!(bit_at_cycle(&seq, 0), 1);
    assert_eq!(bit_at_cycle(&seq, 2), 0);
    assert_eq!(bit_at_cycle(&seq, 3), 1);
    assert_eq!(bit_at_cycle(&seq, -1), 0);
    assert_eq!(bit_at_cycle(&seq, -3), 1);
    assert_eq!(bit_at_cycle(&[7], i64::MIN), 7);
}

#[test]
fn noise_is_reproducible_and_never_dies() {
    assert_eq!(noise_seed(0), 1);
    assert_eq!(noise_seed(6), 7);
    let mut s = 1u64;
    assert_eq!(next_noise(&mut s), 1082269761 >> 11);
    assert_eq!(s, 1082269761);
    for _ in 0..10_000 {
        assert!(next_noise(&mut s) < 1 << 53);
        assert_ne!(s, 0);
    }
    let mut dead = 0u64;
    assert_eq!(next_noise(&mut dead), 0);
    assert_eq!(dead, 0);
}

#[test]
fn samples_pair_into_frames() {
    let none: Vec<(i32, i32)> = Vec::new();
    assert_eq!(stereo_frames(&[1, 2, 3], 0), none);
    assert_eq!(stereo_frames(&[1, 2, 3], 1), vec![(1, 1), (2, 2), (3, 3)]);
    assert_eq!(stereo_frames(&[1, 2, 3, 4], 2), vec![(1, 2), (3, 4)]);
    assert_eq!(stereo_frames(&[1, 2, 3], 2), vec![(1, 2), (3, 3)]);
    assert_eq!(stereo_frames(&[1, 2, 3, 4, 5, 6], 3), vec![(1, 2), (4, 5)]);
    assert_eq!(stereo_frames(&[1, 2, 3, 4], 3), vec![(1, 2), (4, 4)]);
    let empty: [i32; 0] = [];
    assert_eq!(stereo_frames(&empty, 2), none);
}

#[test]
fn a_segment_is_a_cut_of_the_whole() {
    let samples: Vec<i32> = (0..23).collect();
    for ch in 1..5usize {
        let whole = stereo_frames(&samples, ch);
        for skip in 0..whole.len() {
            for max in 0..30usize {
                let from = skip * ch;
                let to = (from + wanted_samples(max, ch)).min(samples.len());
                let end = (skip + max).min(whole.len());
                assert_eq!(stereo_frames(&samples[from..to], ch), whole[skip..end].to_vec());
            }
        }
    }
}

#[test]
fn seeks_and_reads_are_clamped() {
    assert_eq!(seek_frame(0), 0);
    assert_eq!(seek_frame(4_294_967_295), u32::MAX);
    assert_eq!(seek_frame(u64::MAX), u32::MAX);
    assert_eq!(wanted_samples(10, 2), 20);
    assert_eq!(wanted_samples(usize::MAX, 1), usize::MAX);
    assert_eq!(wanted_samples(usize::MAX, 2), usize::MAX);
    assert_eq!(wanted_samples(0, 2), 0);
}

#[test]
fn full_scale_of_sample_widths() {
    assert_eq!(full_scale(1), 1);
    assert_eq!(full_scale(16), 32_768);
    assert_eq!(full_scale(24), 8_388_608);
    assert_eq!(full_scale(64), 1 << 63);
}
