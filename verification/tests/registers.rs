use sl_timecode_decoder::lfsr::{pack_state, parity, Lfsr};

// A known maximal-length 20-bit polynomial: x^20 + x^3 + 1.
fn lfsr20() -> Lfsr {
    Lfsr::new(20, (1 << 3) | (1 << 0))
}

#[test]
fn small_lfsr_is_maximal() {
    let l = Lfsr::new(3, (1 << 2) | (1 << 0));
    assert!(l.is_maximal_length(1));
    let seq = l.sequence(1);
    assert_eq!(seq.len(), 7);
}

#[test]
fn step_back_inverts_step() {
    let l = lfsr20();
    let mut state = 0xABCDE & l.mask();
    let before = state;
    l.step(&mut state);
    assert_eq!(l.step_back(state), Some(before));
}

#[test]
fn twenty_bit_is_maximal() {
    assert!(lfsr20().is_maximal_length(1));
}

#[test]
fn pack_matches_register_state() {
    // The register at step k must equal the packed next `bits` output bits.
    let l = lfsr20();
    let seed = 1u32;
    let seq = l.sequence(seed);
    let bits = l.bits as usize;
    let mut state = seed;
    for k in 0..1000 {
        let window = &seq[k..k + bits];
        assert_eq!(pack_state(window), state, "mismatch at k={k}");
        l.step(&mut state);
    }
}

#[test]
fn parity_counts_set_bits() {
    assert_eq!(parity(0), 0);
    assert_eq!(parity(1), 1);
    assert_eq!(parity(0x8000_0001), 0);
    assert_eq!(parity(0xffff_ffff), 0);
    assert_eq!(parity(0x7fff_ffff), 1);
    for v in 0..4096u32 {
        assert_eq!(parity(v * 0x9e37_79b1), (v * 0x9e37_79b1).count_ones() & 1);
    }
}

#[test]
fn masks_cover_the_register() {
    assert_eq!(Lfsr::new(0, 0).mask(), 0);
    assert_eq!(Lfsr::new(1, 1).mask(), 1);
    assert_eq!(Lfsr::new(20, 9).mask(), 0xfffff);
    assert_eq!(Lfsr::new(31, 9).mask(), 0x7fff_ffff);
    assert_eq!(Lfsr::new(32, 9).mask(), u32::MAX);
    assert_eq!(Lfsr::new(40, 9).mask(), u32::MAX);
}

#[test]
fn a_step_emits_the_lowest_bit() {
    let l = Lfsr::new(3, 0b101);
    let mut state = 0b001;
    assert_eq!(l.step(&mut state), 1);
    assert_eq!(state, 0b100);
    assert_eq!(l.step(&mut state), 0);
    assert_eq!(state, 0b110);
    // At the full word width nothing is lost off the top.
    let wide = Lfsr::new(32, 1);
    let mut state = 0x8000_0001;
    assert_eq!(wide.step(&mut state), 1);
    assert_eq!(state, 0xc000_0000);
}

#[test]
fn sequence_follows_from_the_seed() {
    let l = Lfsr::new(3, 0b101);
    assert_eq!(l.sequence(1), vec![1, 0, 0, 1, 1, 1, 0]);
    // Seed bits above the register do not count.
    assert_eq!(l.sequence(0b1001), l.sequence(1));
    assert_eq!(Lfsr::new(0, 0).sequence(5), Vec::<u8>::new());
    assert_eq!(Lfsr::new(2, 0b11).sequence(0), vec![0, 0, 0]);
}

#[test]
fn maximal_length_needs_a_full_cycle() {
    assert!(Lfsr::new(1, 1).is_maximal_length(1));
    assert!(Lfsr::new(2, 0b11).is_maximal_length(2));
    // x^2 + 1 falls into two cycles.
    assert!(!Lfsr::new(2, 0b01).is_maximal_length(1));
    // No seed, no cycle; and none through a tap mask that loses the lowest bit.
    assert!(!Lfsr::new(3, 0b101).is_maximal_length(0));
    assert!(!Lfsr::new(3, 0b101).is_maximal_length(8));
    assert!(!Lfsr::new(3, 0b100).is_maximal_length(1));
    // The value that it is measured from does not matter.
    for seed in 1..8 {
        assert!(Lfsr::new(3, 0b101).is_maximal_length(seed));
    }
}

#[test]
fn maximal_register_visits_every_state_once() {
    let l = Lfsr::new(7, 0b0001001);
    let mut seen = vec![false; 128];
    let mut state = 77;
    for _ in 0..127 {
        assert!(!seen[state as usize]);
        seen[state as usize] = true;
        l.step(&mut state);
    }
    assert_eq!(state, 77);
    assert!(!seen[0]);
}

#[test]
fn step_back_edge_cases() {
    // A clear lowest tap: two predecessors, the smaller comes back, or none.
    let l = Lfsr::new(3, 0b110);
    let mut forward = [0u32; 8];
    for (s, to) in forward.iter_mut().enumerate() {
        let mut state = s as u32;
        l.step(&mut state);
        *to = state;
    }
    for target in 0..8u32 {
        let least = (0..8u32).find(|&s| forward[s as usize] == target);
        assert_eq!(l.step_back(target), least);
    }
    assert_eq!(l.step_back(0b100), None);
    // A set lowest tap: stepping back always succeeds.
    let l = Lfsr::new(5, 0b00101);
    for s in 0..32u32 {
        let mut state = s;
        l.step(&mut state);
        assert_eq!(l.step_back(state), Some(s));
    }
}

#[test]
fn packing_reads_lowest_bits_only() {
    assert_eq!(pack_state(&[]), 0);
    assert_eq!(pack_state(&[1, 0, 1, 1]), 0b1101);
    assert_eq!(pack_state(&[3, 2, 255, 254]), 0b0101);
    assert_eq!(pack_state(&[1; 32]), u32::MAX);
}

#[test]
fn output_obeys_the_recurrence() {
    // x^20 + x^3 + 1: b[k + 20] = b[k + 3] ^ b[k].
    let seq = lfsr20().sequence(0x12345);
    for k in 0..5000 {
        assert_eq!(seq[k + 20], seq[k + 3] ^ seq[k]);
    }
}
