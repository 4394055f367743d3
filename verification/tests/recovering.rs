use sl_timecode_decoder::analysis::{
    berlekamp_massey, connection_to_lfsr, poly_string, transform_len,
};
use sl_timecode_decoder::format::serato_cv02;
use sl_timecode_decoder::lfsr::Lfsr;

#[test]
fn bm_recovers_lfsr_from_sequence() {
    let fmt = serato_cv02();
    // Take a chunk of the true output sequence (> 2*L bits).
    let seq = fmt.lfsr.sequence(fmt.seed);
    let sample = &seq[1000..1000 + 200];
    let (l, c) = berlekamp_massey(sample);
    assert_eq!(l, fmt.lfsr.bits as usize, "recovered wrong length");
    let recovered = connection_to_lfsr(l, &c);
    assert_eq!(recovered.taps, fmt.lfsr.taps, "recovered wrong taps");
    assert!(recovered.is_maximal_length(1));
}

#[test]
fn twice_the_width_is_enough_to_recover() {
    for (bits, taps) in [(3u32, 0b101u32), (5, 0b00101), (20, 0x4f0d9), (20, 0b1001)] {
        let l = Lfsr::new(bits, taps);
        let n = 2 * bits as usize;
        let mut state = 0b110 & l.mask();
        for _ in 0..50 {
            let mut ahead = state;
            let mut sample: Vec<u8> = Vec::new();
            for _ in 0..n {
                sample.push(l.step(&mut ahead) as u8);
            }
            let (length, c) = berlekamp_massey(&sample);
            assert_eq!(length, bits as usize);
            assert_eq!(connection_to_lfsr(length, &c), l);
            l.step(&mut state);
        }
    }
}

#[test]
fn shortest_recurrences_of_short_runs() {
    assert_eq!(berlekamp_massey(&[]), (0, vec![1]));
    assert_eq!(berlekamp_massey(&[0, 0, 0]), (0, vec![1]));
    assert_eq!(berlekamp_massey(&[1]), (1, vec![1, 1]));
    assert_eq!(berlekamp_massey(&[1, 1, 1, 1]), (1, vec![1, 1]));
    assert_eq!(berlekamp_massey(&[1, 0, 1, 0, 1]), (2, vec![1, 0, 1]));
    assert_eq!(berlekamp_massey(&[1, 0, 0, 1, 1, 1, 0]), (3, vec![1, 1, 0, 1]));
    // Too short a run to determine the polynomial.
    assert_eq!(berlekamp_massey(&[0, 0, 1]), (3, vec![1, 0, 0, 1]));
    assert_eq!(berlekamp_massey(&[0, 0, 0, 1]), (4, vec![1, 0, 0, 0, 1]));
    // Only the lowest bits count.
    assert_eq!(berlekamp_massey(&[3, 2, 3, 2, 3]), (2, vec![1, 0, 1]));
}

#[test]
fn recurrences_are_the_shortest_there_are() {
    // Against a search through all recurrences, on all runs of eight bits.
    for word in 0..256u32 {
        let s: Vec<u8> = (0..8).map(|i| ((word >> i) & 1) as u8).collect();
        let fits = |taps: u32, l: usize| {
            (l..8).all(|n| {
                let mut d = s[n];
                for i in 1..=l {
                    d ^= ((taps >> (i - 1)) & 1) as u8 & s[n - i];
                }
                d == 0
            })
        };
        let shortest = (0..=8).find(|&l| (0..(1u32 << l)).any(|t| fits(t, l))).unwrap();
        let (l, c) = berlekamp_massey(&s);
        assert_eq!(l, shortest);
        assert_eq!(c.len(), l + 1);
        assert_eq!(c[0], 1);
        let taps = (1..=l).fold(0u32, |t, i| t | ((c[i] as u32) << (i - 1)));
        assert!(fits(taps, l));
    }
}

#[test]
fn long_enough_runs_have_one_shortest_recurrence() {
    for word in 0..256u32 {
        let s: Vec<u8> = (0..8).map(|i| ((word >> i) & 1) as u8).collect();
        let (l, c) = berlekamp_massey(&s);
        if 2 * l > 8 {
            continue;
        }
        for taps in 0..(1u32 << l) {
            let d: Vec<u8> = (0..=l).map(|i| if i == 0 { 1 } else { ((taps >> (i - 1)) & 1) as u8 }).collect();
            let fits = (l..8).all(|n| (0..=l).fold(0, |x, i| x ^ (d[i] & s[n - i])) == 0);
            assert_eq!(fits, d == c);
        }
    }
}

#[test]
fn connection_polynomials_become_taps() {
    assert_eq!(connection_to_lfsr(0, &[1]), Lfsr::new(0, 0));
    assert_eq!(connection_to_lfsr(3, &[1, 1, 0, 1]), Lfsr::new(3, 0b101));
    // Missing coefficients and coefficients other than one do not count.
    assert_eq!(connection_to_lfsr(3, &[1, 2, 1]), Lfsr::new(3, 0b010));
    // Taps beyond the word are left out.
    let mut c = vec![0u8; 41];
    c[1] = 1;
    c[40] = 1;
    assert_eq!(connection_to_lfsr(40, &c), Lfsr::new(40, 1));
}

#[test]
fn polynomials_in_words() {
    let mut c = vec![0u8; 21];
    c[0] = 1;
    c[17] = 1;
    c[20] = 1;
    assert_eq!(poly_string(20, &c), "x^20 + x^3 + 1");
    // Coefficient i is the term x^(l - i), the tap that it stands for.
    assert_eq!(poly_string(3, &[1, 1, 0, 1]), "x^3 + x^2 + 1");
    assert_eq!(connection_to_lfsr(3, &[1, 1, 0, 1]).taps, (1 << 2) | 1);
    assert_eq!(poly_string(3, &[1, 0, 1, 1]), "x^3 + x^1 + 1");
    assert_eq!(poly_string(2, &[1, 1, 1]), "x^2 + x + 1");
    assert_eq!(poly_string(4, &[1, 1, 1, 1, 1]), "x^4 + x^3 + x^2 + x^1 + 1");
    assert_eq!(poly_string(0, &[]), "x^0 + 1");
    assert_eq!(poly_string(1234567890, &[]), "x^1234567890 + 1");
}

#[test]
fn transform_lengths_are_powers_of_two() {
    assert_eq!(transform_len(0), 2);
    assert_eq!(transform_len(2), 2);
    assert_eq!(transform_len(3), 4);
    assert_eq!(transform_len(32768), 32768);
    assert_eq!(transform_len(32769), 65536);
    assert_eq!(transform_len(usize::MAX), 1 << 20);
}
