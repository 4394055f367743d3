use sl_timecode_decoder::format::{serato_cv02, Side};
use sl_timecode_decoder::lfsr::{pack_state, parity, Lfsr};
use sl_timecode_decoder::position::PositionMap;
use sl_timecode_decoder::tracker::{wrap_i, Direction, Fix, LockConfig, Report, Tracker};

const PERIOD: i64 = 1_048_575;

fn fresh() -> Tracker {
    Tracker::new(&serato_cv02(), LockConfig::default())
}

fn bits_of(side: Side) -> Vec<u8> {
    let f = side.format();
    f.lfsr.sequence(f.seed)
}

/// Play one bit and report as if `best` had been told apart with confidence.
fn play(t: &mut Tracker, seq: &[u8], at: i64, direction: Direction, best: Side) -> Report {
    let bit = seq[wrap_i(at, PERIOD) as usize];
    match t.observe(bit, true, direction) {
        Some(_) => t.resolve(best, true, false),
        None => t.report(),
    }
}

#[test]
fn wrapping_reduces_into_the_period() {
    assert_eq!(wrap_i(0, 7), 0);
    assert_eq!(wrap_i(7, 7), 0);
    assert_eq!(wrap_i(13, 7), 6);
    assert_eq!(wrap_i(-1, 7), 6);
    assert_eq!(wrap_i(-7, 7), 0);
    assert_eq!(wrap_i(-8, 7), 6);
    assert_eq!(wrap_i(i64::MIN, i64::MAX), i64::MAX - 1);
}

#[test]
fn directions_step_by_one() {
    assert_eq!(Direction::classify(true, true), Direction::Stopped);
    assert_eq!(Direction::classify(true, false), Direction::Stopped);
    assert_eq!(Direction::classify(false, true), Direction::Forward);
    assert_eq!(Direction::classify(false, false), Direction::Reverse);
    assert_eq!(Direction::Forward.step(), 1);
    assert_eq!(Direction::Reverse.step(), -1);
    assert_eq!(Direction::Stopped.step(), 0);
}

#[test]
fn default_lock_parameters() {
    let cfg = LockConfig::default();
    assert_eq!(cfg, LockConfig { warmup_bits: 48, lock_threshold: 6, resync_after: 3 });
}

#[test]
fn forward_play_locks_on_the_absolute_position() {
    let seq = bits_of(Side::A);
    let mut t = fresh();
    for i in 0..200i64 {
        let r = play(&mut t, &seq, 12_345 + i, Direction::Forward, Side::A);
        if i < 47 {
            assert_eq!(r, Report { position: None, side: None, locked: false });
            assert_eq!(t.side(), None);
        } else {
            let want = Report { position: Some(12_345 + i), side: Some(Side::A), locked: true };
            assert_eq!(r, want);
        }
    }
}

#[test]
fn the_window_fills_before_lookups_begin() {
    let seq = bits_of(Side::B);
    let mut t = fresh();
    for i in 0..19usize {
        assert_eq!(t.observe(seq[i], true, Direction::Forward), None);
    }
    // The first lookup has no prediction to agree with; the next one has.
    let (_, first) = t.observe(seq[19], true, Direction::Forward).unwrap();
    assert_eq!(first, None);
    assert_eq!(t.b.fix.last_pos, Some(19));
    let (_, second) = t.observe(seq[20], true, Direction::Forward).unwrap();
    assert_eq!(second, Some(true));
    assert_eq!(t.b.fix.last_pos, Some(20));
    assert_eq!(t.b.fix.lock_count, 1);
}

#[test]
fn reverse_play_counts_down_through_the_wrap() {
    let seq = bits_of(Side::B);
    let mut t = fresh();
    for i in 0..300i64 {
        let r = play(&mut t, &seq, 100 - i, Direction::Reverse, Side::B);
        if i >= 47 {
            let want = wrap_i(100 - i, PERIOD);
            assert_eq!(r, Report { position: Some(want), side: Some(Side::B), locked: true });
        }
    }
}

#[test]
fn forward_play_crosses_the_wrap_continuously() {
    let seq = bits_of(Side::A);
    let mut t = fresh();
    let start = PERIOD - 100;
    let mut wraps = 0;
    let mut last: Option<i64> = None;
    for i in 0..250i64 {
        let r = play(&mut t, &seq, start + i, Direction::Forward, Side::A);
        if r.locked {
            let p = r.position.unwrap();
            assert!(0 <= p && p < PERIOD);
            if let Some(q) = last {
                assert_eq!(wrap_i(p - q, PERIOD), 1);
                if p < q {
                    wraps += 1;
                }
            }
            last = Some(p);
        }
    }
    assert_eq!(wraps, 1);
}

#[test]
fn a_bit_error_is_ridden_out() {
    let seq = bits_of(Side::A);
    let mut t = fresh();
    for i in 0..60i64 {
        play(&mut t, &seq, 5000 + i, Direction::Forward, Side::A);
    }
    // A single miss holds the prediction and drops the lock.
    let mut fix = t.a.fix;
    let cfg = LockConfig::default();
    let at = fix.last_pos.unwrap();
    assert_eq!(fix.advance(Some(77), Direction::Forward, PERIOD, &cfg), Some(false));
    assert_eq!(fix.last_pos, Some(at + 1));
    assert_eq!(fix.lock_count, 0);
    assert_eq!(fix.disagree_count, 1);
    // The right lookup agrees again.
    assert_eq!(fix.advance(Some(at + 2), Direction::Forward, PERIOD, &cfg), Some(true));
    assert_eq!(fix.lock_count, 1);
    assert_eq!(fix.disagree_count, 0);
    // No lookup at all coasts and counts no miss.
    assert_eq!(fix.advance(None, Direction::Forward, PERIOD, &cfg), Some(false));
    assert_eq!(fix.last_pos, Some(at + 3));
    assert_eq!(fix.lock_count, 0);
    assert_eq!(fix.disagree_count, 0);
}

#[test]
fn a_jump_is_followed_after_a_few_misses() {
    let cfg = LockConfig::default();
    let mut fix = Fix { last_pos: Some(100), lock_count: 12, disagree_count: 0 };
    fix.advance(Some(9001), Direction::Forward, PERIOD, &cfg);
    assert_eq!(fix.last_pos, Some(101));
    fix.advance(Some(9002), Direction::Forward, PERIOD, &cfg);
    assert_eq!(fix.last_pos, Some(102));
    fix.advance(Some(9003), Direction::Forward, PERIOD, &cfg);
    assert_eq!(fix, Fix { last_pos: Some(9003), lock_count: 0, disagree_count: 0 });
    for i in 0..20 {
        assert_eq!(fix.advance(Some(9004 + i), Direction::Forward, PERIOD, &cfg), Some(true));
    }
    // The count stops at twice the threshold.
    assert_eq!(fix.lock_count, 12);
}

#[test]
fn first_fixes_have_nothing_to_agree_with() {
    let cfg = LockConfig::default();
    let mut fix = Fix { last_pos: None, lock_count: 0, disagree_count: 0 };
    assert_eq!(fix.advance(None, Direction::Forward, PERIOD, &cfg), None);
    assert_eq!(fix.last_pos, None);
    assert_eq!(fix.advance(Some(3), Direction::Reverse, PERIOD, &cfg), None);
    assert_eq!(fix.last_pos, Some(3));
    // A stopped record stays where it is.
    assert_eq!(fix.advance(Some(3), Direction::Stopped, PERIOD, &cfg), Some(true));
    // With no tolerance the lookup is trusted at once.
    let eager = LockConfig { resync_after: 0, ..cfg };
    assert_eq!(fix.advance(Some(50), Direction::Forward, PERIOD, &eager), Some(false));
    assert_eq!(fix.last_pos, Some(50));
    assert_eq!(fix.disagree_count, 0);
}

#[test]
fn a_needle_skip_relocks_at_the_new_position() {
    let seq = bits_of(Side::A);
    let mut t = fresh();
    for i in 0..80i64 {
        play(&mut t, &seq, 1000 + i, Direction::Forward, Side::A);
    }
    let mut last = None;
    for i in 0..80i64 {
        last = Some(play(&mut t, &seq, 400_000 + i, Direction::Forward, Side::A));
    }
    let want = Report { position: Some(400_079), side: Some(Side::A), locked: true };
    assert_eq!(last, Some(want));
}

#[test]
fn weak_signal_never_locks() {
    let seq = bits_of(Side::A);
    let mut t = fresh();
    for i in 0..300usize {
        t.observe(seq[i], false, Direction::Forward);
        assert_eq!(t.resolve(Side::A, true, true), Report { position: None, side: None, locked: false });
        assert_eq!(t.warmup, 0);
    }
    // Strong bits must come in a row.
    for i in 300..347usize {
        t.observe(seq[i], true, Direction::Forward);
        assert!(!t.resolve(Side::A, true, true).locked);
    }
    t.observe(seq[347], false, Direction::Forward);
    assert!(!t.resolve(Side::A, true, true).locked);
    for i in 348..400usize {
        t.observe(seq[i], true, Direction::Forward);
        let r = t.resolve(Side::A, true, true);
        assert_eq!(r.locked, i >= 395);
    }
}

#[test]
fn the_side_persists_through_a_dropout() {
    let seq = bits_of(Side::B);
    let mut t = fresh();
    for i in 0..100i64 {
        play(&mut t, &seq, 200_000 + i, Direction::Forward, Side::B);
    }
    assert_eq!(t.side(), Some(Side::B));
    for _ in 0..500 {
        t.observe(0, false, Direction::Stopped);
        let r = t.resolve(Side::A, false, false);
        assert_eq!(r.side, Some(Side::B));
        assert!(!r.locked);
    }
    assert_eq!(t.side(), Some(Side::B));
}

#[test]
fn a_resolved_side_gives_way_to_a_clearly_better_one_only() {
    let seq = bits_of(Side::A);
    let mut t = fresh();
    for i in 0..60i64 {
        play(&mut t, &seq, 7 + i, Direction::Forward, Side::A);
    }
    assert_eq!(t.side(), Some(Side::A));
    assert_eq!(t.resolve(Side::B, true, false).side, Some(Side::A));
    assert_eq!(t.resolve(Side::B, false, true).side, Some(Side::A));
    assert_eq!(t.resolve(Side::A, true, true).side, Some(Side::A));
    let r = t.resolve(Side::B, true, true);
    assert_eq!(r.side, Some(Side::B));
    assert_eq!(r.position, t.b.fix.last_pos);
}

#[test]
fn only_the_playing_side_keeps_agreeing() {
    for side in [Side::A, Side::B] {
        let seq = bits_of(side);
        let mut t = fresh();
        let mut agreed = [0u32; 2];
        for i in 0..500usize {
            if let Some((a, b)) = t.observe(seq[90_000 + i], true, Direction::Forward) {
                agreed[0] += (a == Some(true)) as u32;
                agreed[1] += (b == Some(true)) as u32;
            }
        }
        let (right, wrong) = match side {
            Side::A => (agreed[0], agreed[1]),
            Side::B => (agreed[1], agreed[0]),
        };
        assert_eq!(right, 480);
        assert!(wrong < 400, "wrong side agreed {wrong} times");
    }
}

#[test]
fn the_other_side_agrees_by_its_own_feedback() {
    // Bits of side A, looked up on side B.
    let seq = bits_of(Side::A);
    let f = Side::B.format();
    let map = PositionMap::build(f.lfsr, f.seed);
    let cfg = LockConfig::default();
    for i in 0..2000usize {
        let newest = |at: usize| {
            let k = map.position_of_window(&seq[at..at + 20]).unwrap() as i64;
            Some(wrap_i(k + 19, PERIOD))
        };
        let mut fix = Fix { last_pos: newest(i), lock_count: 0, disagree_count: 0 };
        let fed_back = parity(pack_state(&seq[i..i + 20]) & f.lfsr.taps);
        let agreed = fix.advance(newest(i + 1), Direction::Forward, PERIOD, &cfg);
        assert_eq!(agreed, Some(seq[i + 20] as u32 == fed_back));
    }
}

#[test]
fn the_other_side_agrees_by_its_own_feedback_in_reverse() {
    // Bits of side A played backwards, looked up on side B.
    let seq = bits_of(Side::A);
    let f = Side::B.format();
    let map = PositionMap::build(f.lfsr, f.seed);
    let cfg = LockConfig::default();
    let mut agreements = 0;
    for i in 1..2000usize {
        let newest = |at: usize| map.position_of_window(&seq[at..at + 20]).map(|k| k as i64);
        let mut fix = Fix { last_pos: newest(i), lock_count: 0, disagree_count: 0 };
        let mut stepped = pack_state(&seq[i - 1..i + 19]);
        f.lfsr.step(&mut stepped);
        let agreed = fix.advance(newest(i - 1), Direction::Reverse, PERIOD, &cfg);
        assert_eq!(agreed, Some(stepped == pack_state(&seq[i..i + 20])));
        agreements += (agreed == Some(true)) as u32;
    }
    assert!(agreements > 500 && agreements < 1500, "agreements {agreements}");
}

#[test]
fn a_tracker_locks_after_a_window_and_the_threshold() {
    // With no warm-up to wait for, in both directions, through the wrap.
    let cfg = LockConfig { warmup_bits: 0, ..LockConfig::default() };
    for side in [Side::A, Side::B] {
        let seq = bits_of(side);
        for (start, direction) in [(PERIOD - 10, Direction::Forward), (10, Direction::Reverse)] {
            let mut t = Tracker::new(&serato_cv02(), cfg);
            for i in 0..60i64 {
                let at = start + i * direction.step();
                let r = play(&mut t, &seq, at, direction, side);
                assert_eq!(r.locked, i >= 25);
                if i >= 19 {
                    assert_eq!(r.position, Some(wrap_i(at, PERIOD)));
                }
            }
        }
    }
}

/// Cycles of steady play after which a tracker in any state has locked again.
fn cycles_to_lock(cfg: LockConfig) -> i64 {
    let lookups = 19 + cfg.resync_after.max(1) + cfg.lock_threshold;
    lookups.max(cfg.warmup_bits) as i64
}

#[test]
fn a_tracker_locks_again_from_any_state() {
    let mut noise = 99u64;
    for (warmup_bits, lock_threshold, resync_after) in
        [(48, 6, 3), (0, 6, 3), (0, 6, 0), (0, 6, 1), (0, 1, 40), (5, 0, 7)]
    {
        let cfg = LockConfig { warmup_bits, lock_threshold, resync_after };
        for side in [Side::A, Side::B] {
            let seq = bits_of(side);
            let mut t = Tracker::new(&serato_cv02(), cfg);
            for round in 0..60i64 {
                // A stretch of noise, strong or weak, in any direction and of any length.
                for _ in 0..(round * 7) % 53 {
                    noise = noise.wrapping_mul(6364136223846793005).wrapping_add(1442695040888963407);
                    let direction = match (noise >> 50) % 3 {
                        0 => Direction::Forward,
                        1 => Direction::Reverse,
                        _ => Direction::Stopped,
                    };
                    let bit = ((noise >> 40) & 1) as u8;
                    if t.observe(bit, (noise >> 30) % 3 != 0, direction).is_some() {
                        t.resolve(side, false, false);
                    }
                }
                // Then a drop elsewhere, through the wrap at times.
                let direction = if round % 2 == 0 { Direction::Forward } else { Direction::Reverse };
                let start = wrap_i(round * 262_144 - 15, PERIOD);
                let n = cycles_to_lock(cfg);
                let mut last = t.report();
                for i in 0..n {
                    last = play(&mut t, &seq, start + i * direction.step(), direction, side);
                }
                let at = wrap_i(start + (n - 1) * direction.step(), PERIOD);
                let want = Report { position: Some(at), side: Some(side), locked: true };
                assert_eq!(last, want, "round {round} of {cfg:?}");
            }
        }
    }
}

#[test]
fn locking_again_can_take_as_long_as_is_promised() {
    // A skip from a lock: every lookup of the new place misses until the re-sync.
    let cfg = LockConfig { warmup_bits: 0, lock_threshold: 6, resync_after: 30 };
    let seq = bits_of(Side::A);
    let mut t = Tracker::new(&serato_cv02(), cfg);
    for i in 0..100i64 {
        play(&mut t, &seq, 1000 + i, Direction::Forward, Side::A);
    }
    // Silence in between, with the misses of the windows that straddle it forgotten.
    for _ in 0..20 {
        t.observe(0, true, Direction::Stopped);
    }
    t.a.fix.disagree_count = 0;
    let mut first_lock = None;
    for i in 0..100i64 {
        let r = play(&mut t, &seq, 400_000 + i, Direction::Forward, Side::A);
        if r.locked && first_lock.is_none() {
            first_lock = Some(i);
            assert_eq!(r.position, Some(400_000 + i));
        }
    }
    assert!(first_lock.unwrap() < cycles_to_lock(cfg));
    assert!(first_lock.unwrap() >= 30 + 6 - 1);
}

#[test]
fn reported_positions_lie_in_the_cycle() {
    for bits in [20u32, 22] {
        let mut fmt = serato_cv02();
        fmt.lfsr = Lfsr::new(bits, fmt.lfsr.taps);
        let period = (1i64 << bits) - 1;
        let cfg = LockConfig { warmup_bits: 0, ..LockConfig::default() };
        let mut t = Tracker::new(&fmt, cfg);
        let mut noise = 7u64;
        let mut seen = 0;
        for i in 0..20_000u32 {
            noise = noise.wrapping_mul(6364136223846793005).wrapping_add(1442695040888963407);
            let direction = match (i / 40) % 3 {
                0 => Direction::Forward,
                1 => Direction::Reverse,
                _ => Direction::Stopped,
            };
            if t.observe(((noise >> 40) & 1) as u8, true, direction).is_some() {
                if let Some(p) = t.resolve(Side::B, true, true).position {
                    assert!(0 <= p && p < period);
                    seen += 1;
                }
            }
        }
        assert!(seen > 19_000);
    }
}

#[test]
fn narrow_formats_report_reverse_lookups_as_they_are() {
    let mut fmt = serato_cv02();
    fmt.lfsr = Lfsr::new(8, 0b11101);
    let mut t = Tracker::new(&fmt, LockConfig { warmup_bits: 0, ..LockConfig::default() });
    for _ in 0..7 {
        assert_eq!(t.observe(1, true, Direction::Reverse), None);
    }
    t.observe(1, true, Direction::Reverse);
    let map = PositionMap::build(Side::A.format().lfsr, Side::A.format().seed);
    let looked = map.position_of_state(0xff).unwrap() as i64;
    assert_eq!(t.resolve(Side::A, true, false).position, Some(looked));
    assert!(looked >= t.period);
}

#[test]
fn the_record_reads_negative_in_the_lead_in() {
    for (side, lead_in) in [(Side::A, 4783i64), (Side::B, 6051)] {
        let seq = bits_of(side);
        let mut t = fresh();
        assert_eq!(t.record_position(), None);
        let start = PERIOD - lead_in - 200;
        for i in 0..lead_in + 400 {
            let at = start + i;
            let r = play(&mut t, &seq, at, Direction::Forward, side);
            if i < 47 {
                assert_eq!(t.record_position(), None);
                continue;
            }
            assert_eq!(r.position, Some(wrap_i(at, PERIOD)));
            // Program up to the lead-in, the lead-in below zero, and up again.
            let want = if at < PERIOD - lead_in { at } else { at - PERIOD };
            assert_eq!(t.record_position(), Some(want));
        }
    }
}

#[test]
fn a_lock_carries_a_position_and_steps_with_the_record() {
    // Whatever the bits: play with errors, stops and turns.
    let seq = bits_of(Side::A);
    let mut t = fresh();
    let mut noise = 12345u64;
    let mut at = 70_000i64;
    let mut last: Option<Report> = None;
    let mut strong_run = 0u32;
    let mut locks = 0;
    for i in 0..20_000u32 {
        noise = noise.wrapping_mul(6364136223846793005).wrapping_add(1442695040888963407);
        let direction = if (i / 500) % 3 == 2 { Direction::Reverse } else { Direction::Forward };
        at += direction.step();
        let strong = (noise >> 40) % 400 != 0;
        strong_run = if strong { strong_run + 1 } else { 0 };
        let flip = ((noise >> 20) % 50 == 0) as u8;
        let bit = seq[wrap_i(at, PERIOD) as usize] ^ flip;
        let side = t.side();
        let r = match t.observe(bit, strong, direction) {
            Some(_) => {
                assert_eq!(t.side(), side);
                t.resolve(Side::A, true, false)
            }
            None => t.report(),
        };
        assert_eq!(r.side, t.side());
        if r.locked {
            locks += 1;
            assert!(strong_run >= 48);
            let p = r.position.unwrap();
            if let Some(Report { position: Some(q), locked: true, .. }) = last {
                assert_eq!(p, wrap_i(q + direction.step(), PERIOD));
            }
        }
        last = Some(r);
    }
    assert!(locks > 1000, "locks {locks}");
}

#[test]
fn a_register_of_no_bits_carries_no_position() {
    let mut fmt = serato_cv02();
    fmt.lfsr = Lfsr::new(0, 0);
    let mut t = Tracker::new(&fmt, LockConfig::default());
    for i in 0..100u8 {
        assert_eq!(t.observe(i & 1, true, Direction::Forward), Some((None, None)));
        assert_eq!(t.resolve(Side::A, false, false).position, None);
    }
}

#[test]
fn trackers_take_the_window_from_the_format() {
    let mut fmt = serato_cv02();
    fmt.lfsr = Lfsr::new(24, 0x361e5);
    let t = Tracker::new(&fmt, LockConfig::default());
    assert_eq!(t.window_bits, 24);
    assert_eq!(t.period, 16_777_215);
}
