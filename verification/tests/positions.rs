use sl_timecode_decoder::bsgs::Bsgs;
use sl_timecode_decoder::dlog::Dlog;
use sl_timecode_decoder::field::Field;
use sl_timecode_decoder::lfsr::Lfsr;
use sl_timecode_decoder::packed::Packed;
use sl_timecode_decoder::position::{PositionMap, PositionMapKind, Store};
use sl_timecode_decoder::sorted::find_last;

fn lfsr20() -> Lfsr {
    Lfsr::new(20, (1 << 3) | (1 << 0))
}

const KINDS: [PositionMapKind; 3] =
    [PositionMapKind::Fast, PositionMapKind::Balanced, PositionMapKind::Compact];

#[test]
fn position_map_roundtrip() {
    let l = lfsr20();
    let seed = 1u32;
    let seq = l.sequence(seed);
    let bits = l.bits as usize;
    // Every store must round-trip every sampled window to its position.
    for kind in [
        PositionMapKind::Fast,
        PositionMapKind::Balanced,
        PositionMapKind::Compact,
    ] {
        let pm = PositionMap::build_with_kind(l, seed, kind);
        for &k in &[0usize, 1, 42, 1000, 500_000, (seq.len() - bits)] {
            let window = &seq[k..k + bits];
            assert_eq!(
                pm.position_of_window(window),
                Some(k as u32),
                "kind {kind:?} k={k}"
            );
        }
    }
}

#[test]
fn all_stores_agree() {
    // All four backing stores must give identical lookups. Use a small
    // register so the forced-sorted build is cheap.
    let l = Lfsr::new(15, (1 << 14) | (1 << 0)); // x^15 + x + 1, maximal
    assert!(l.is_maximal_length(1));
    let seed = 1u32;
    let fast = PositionMap::build_with_kind(l, seed, PositionMapKind::Fast);
    let balanced = PositionMap::build_with_kind(l, seed, PositionMapKind::Balanced);
    let compact = PositionMap::build_with_kind(l, seed, PositionMapKind::Compact);
    let sorted = PositionMap::build_sorted(l, seed);
    let seq = l.sequence(seed);
    let bits = l.bits as usize;
    for k in (0..=seq.len() - bits).step_by(97) {
        let w = &seq[k..k + bits];
        let f = fast.position_of_window(w);
        assert_eq!(f, Some(k as u32));
        assert_eq!(f, sorted.position_of_window(w));
        assert_eq!(f, balanced.position_of_window(w));
        assert_eq!(f, compact.position_of_window(w));
    }
    // The all-zero state is never visited by any store.
    assert_eq!(fast.position_of_state(0), None);
    assert_eq!(sorted.position_of_state(0), None);
    assert_eq!(balanced.position_of_state(0), None);
    assert_eq!(compact.position_of_state(0), None);
}

#[test]
fn dlog_stores_match_fast_on_measured_serato() {
    // The discrete-log stores must be bit-exact against the fast table on the
    // real 20-bit side-A and side-B polynomials (the confirmed params).
    for (taps, seed) in [(0x361e5u32, 0xafd8eu32), (0x4f0d9, 0x9a9a2)] {
        let l = Lfsr::new(20, taps);
        assert!(l.is_maximal_length(seed));
        let fast = PositionMap::build_with_kind(l, seed, PositionMapKind::Fast);
        let balanced = PositionMap::build_with_kind(l, seed, PositionMapKind::Balanced);
        let compact = PositionMap::build_with_kind(l, seed, PositionMapKind::Compact);
        // Confirm each really built its intended store, not a fallback.
        assert!(matches!(balanced.store, Store::Bsgs(_)));
        assert!(matches!(compact.store, Store::Dlog(_)));
        let seq = l.sequence(seed);
        let bits = l.bits as usize;
        for k in (0..=seq.len() - bits).step_by(2011) {
            let w = &seq[k..k + bits];
            let f = fast.position_of_window(w);
            assert_eq!(f, Some(k as u32), "taps={taps:#x} k={k}");
            assert_eq!(
                balanced.position_of_window(w),
                f,
                "balanced taps={taps:#x} k={k}"
            );
            assert_eq!(
                compact.position_of_window(w),
                f,
                "compact taps={taps:#x} k={k}"
            );
        }
        assert_eq!(balanced.position_of_state(0), None);
        assert_eq!(compact.position_of_state(0), None);
    }
}

#[test]
fn the_default_store_is_the_fast_one() {
    assert_eq!(PositionMapKind::target_default(), PositionMapKind::Fast);
    let pm = PositionMap::build(Lfsr::new(3, 0b101), 0b1011);
    assert!(matches!(pm.store, Store::Packed(_)));
    assert_eq!(pm.lfsr(), Lfsr::new(3, 0b101));
    assert_eq!(pm.seed(), 0b011);
    assert_eq!(pm.position_of_state(0b011), Some(0));
}

#[test]
fn hosts_prefer_speed_and_bare_targets_prefer_memory() {
    let speed = [PositionMapKind::Fast, PositionMapKind::Balanced, PositionMapKind::Compact];
    for set in 0..8u32 {
        let has = [set & 1 != 0, set & 2 != 0, set & 4 != 0];
        let first = (0..3).find(|&i| has[i]).map(|i| speed[i]);
        let last = (0..3).rev().find(|&i| has[i]).map(|i| speed[i]);
        assert_eq!(PositionMapKind::preferred(true, has[0], has[1], has[2]), first);
        assert_eq!(PositionMapKind::preferred(false, has[0], has[1], has[2]), last);
    }
}

#[test]
fn windows_of_another_length_do_not_resolve() {
    for kind in KINDS {
        let pm = PositionMap::build_with_kind(Lfsr::new(3, 0b101), 1, kind);
        assert_eq!(pm.position_of_window(&[1, 0]), None);
        assert_eq!(pm.position_of_window(&[1, 0, 0, 1]), None);
        assert_eq!(pm.position_of_window(&[]), None);
        assert_eq!(pm.position_of_window(&[0, 0, 0]), None);
        assert_eq!(pm.position_of_window(&[1, 0, 0]), Some(0));
        // State bits above the register do not count.
        assert_eq!(pm.position_of_state(0b1001), Some(0));
    }
}

#[test]
fn registers_of_no_and_one_bit_have_maps() {
    for kind in KINDS {
        let pm = PositionMap::build_with_kind(Lfsr::new(0, 0), 1, kind);
        assert_eq!(pm.position_of_window(&[]), None);
        let pm = PositionMap::build_with_kind(Lfsr::new(1, 1), 1, kind);
        assert_eq!(pm.position_of_window(&[1]), Some(0));
        assert_eq!(pm.position_of_window(&[0]), None);
    }
}

#[test]
fn every_store_agrees_on_every_small_register() {
    // Maximal or not, whatever the seed.
    for bits in 2..=5u32 {
        for taps in 0..(1u32 << bits) {
            let l = Lfsr::new(bits, taps);
            for seed in [0u32, 1, 2, 3] {
                let sorted = PositionMap::build_sorted(l, seed);
                for kind in KINDS {
                    let pm = PositionMap::build_with_kind(l, seed, kind);
                    for state in 0..(1u32 << bits) {
                        assert_eq!(pm.position_of_state(state), sorted.position_of_state(state));
                    }
                }
            }
        }
    }
}

#[test]
fn unreachable_states_have_no_position() {
    // x^4 + x^2 + 1 runs in a cycle of six from 1.
    let l = Lfsr::new(4, 0b0101);
    assert!(!l.is_maximal_length(1));
    let mut reached = [false; 16];
    let mut last = [0u32; 16];
    let mut state = 1u32;
    for k in 0..15 {
        reached[state as usize] = true;
        last[state as usize] = k;
        l.step(&mut state);
    }
    for kind in KINDS {
        let pm = PositionMap::build_with_kind(l, 1, kind);
        for s in 0..16u32 {
            let want = if reached[s as usize] { Some(last[s as usize]) } else { None };
            assert_eq!(pm.position_of_state(s), want);
        }
    }
}

#[test]
fn kinds_fall_back_where_positions_are_no_logarithms() {
    // Not primitive, a zero seed, or one bit only.
    for (l, seed) in [(Lfsr::new(2, 0b01), 1), (Lfsr::new(3, 0b101), 0), (Lfsr::new(1, 1), 1)] {
        for kind in [PositionMapKind::Balanced, PositionMapKind::Compact] {
            let pm = PositionMap::build_with_kind(l, seed, kind);
            assert!(matches!(pm.store, Store::Sorted(_)));
        }
        let pm = PositionMap::build_with_kind(l, seed, PositionMapKind::Fast);
        assert!(matches!(pm.store, Store::Packed(_)));
    }
    // 2^17 - 1 is prime: too large a subgroup for the compact store.
    let l = Lfsr::new(17, (1 << 3) | 1);
    assert!(l.is_maximal_length(1));
    let compact = PositionMap::build_with_kind(l, 5, PositionMapKind::Compact);
    assert!(matches!(compact.store, Store::Sorted(_)));
    let balanced = PositionMap::build_with_kind(l, 5, PositionMapKind::Balanced);
    assert!(matches!(balanced.store, Store::Bsgs(_)));
    let mut state = 5;
    for k in 0..3000u32 {
        if k % 37 == 0 {
            assert_eq!(compact.position_of_state(state), Some(k));
            assert_eq!(balanced.position_of_state(state), Some(k));
        }
        l.step(&mut state);
    }
}

#[test]
fn fields_exist_for_primitive_polynomials() {
    assert!(Field::build(Lfsr::new(1, 1)).is_none());
    assert!(Field::build(Lfsr::new(2, 0b01)).is_none());
    assert!(Field::build(Lfsr::new(25, 0b1001)).is_none());
    for bits in 2..=6u32 {
        for taps in 0..(1u32 << bits) {
            let l = Lfsr::new(bits, taps);
            assert_eq!(Field::build(l).is_some(), l.is_maximal_length(1));
        }
    }
    let f = Field::build(Lfsr::new(20, 0x361e5)).unwrap();
    assert_eq!(f.period, 1_048_575);
    assert_eq!(f.phi(1), 1);
    assert_eq!(f.phi(0), 0);
    assert_eq!(f.pow(2, f.period), 1);
    assert_ne!(f.pow(2, f.period / 41), 1);
    assert_eq!(f.mul(2, 2), 4);
    assert_eq!(f.position_from_log(3, 5), 1_048_573);
    assert_eq!(f.position_from_log(5, 3), 2);
}

#[test]
fn registers_too_wide_for_a_field_have_none() {
    for bits in [25u32, 32, 33, 64, u32::MAX] {
        let l = Lfsr { bits, taps: 0b1001 };
        assert!(Field::build(l).is_none());
        assert!(Bsgs::build(l, 1).is_none());
        assert!(Dlog::build(l, 1).is_none());
    }
}

#[test]
fn logarithms_undo_powers() {
    let l = Lfsr::new(11, 0b101);
    assert!(l.is_maximal_length(1));
    let f = Field::build(l).unwrap();
    let balanced = Bsgs::build(l, 1).unwrap();
    let compact = Dlog::build(l, 1).unwrap();
    for e in 0..f.period {
        let h = f.pow(2, e);
        assert_eq!(balanced.raw_dlog(h), Some(e as u32));
        assert_eq!(compact.raw_dlog(h), Some(e as u32));
    }
    assert_eq!(balanced.raw_dlog(0), None);
    assert_eq!(compact.raw_dlog(0), None);
    assert!(Bsgs::build(l, 0).is_none());
    assert!(Dlog::build(l, 0).is_none());
    assert!(Bsgs::build(l, 1 << 11).is_none());
    // The table has an entry per power, up to its size.
    assert_eq!(balanced.b, 2047);
    assert_eq!(balanced.baby.len(), 2047);
    let wide = Bsgs::build(lfsr20(), 1).unwrap();
    assert_eq!(wide.b, 32768);
    assert_eq!(wide.baby.len(), 32768);
}

#[test]
fn packed_fields_share_bytes() {
    // Odd field widths straddle byte boundaries.
    for (bits, taps) in [(5u32, 0b00101u32), (7, 0b1001), (9, 0b10001), (11, 0b101)] {
        let l = Lfsr::new(bits, taps);
        assert!(l.is_maximal_length(1));
        let table = Packed::build(l, 3);
        assert_eq!(table.data.len(), ((1usize << bits) * bits as usize + 7) / 8 + 4);
        let mut state = 3;
        for k in 0..(1u32 << bits) - 1 {
            assert_eq!(table.get(state), Some(k));
            l.step(&mut state);
        }
        assert_eq!(table.get(0), None);
    }
}

#[test]
fn pairs_are_searched_by_key() {
    let pairs = vec![(2, 7), (4, 1), (4, 9), (8, 0)];
    assert_eq!(find_last(&pairs, 2), Some(7));
    assert_eq!(find_last(&pairs, 4), Some(9));
    assert_eq!(find_last(&pairs, 8), Some(0));
    assert_eq!(find_last(&pairs, 0), None);
    assert_eq!(find_last(&pairs, 5), None);
    assert_eq!(find_last(&pairs, 9), None);
    assert_eq!(find_last(&Vec::new(), 0), None);
}

#[test]
fn sorted_pairs_come_out_in_order() {
    // The walk visits states out of order, so a lookup by halving needs the sort.
    let pm = PositionMap::build_sorted(Lfsr::new(4, 0b1001), 1);
    match &pm.store {
        Store::Sorted(pairs) => {
            assert_eq!(pairs.len(), 15);
            for (i, p) in pairs.iter().enumerate() {
                assert_eq!(p.0, i as u32 + 1);
            }
            assert_ne!(pairs[1].1, 1);
        }
        _ => panic!("not sorted"),
    }
}
