use sl_timecode_decoder::gf::{gf_mul, gf_pow};
use sl_timecode_decoder::number::{crt, factor_prime_powers, mod_inv};

#[test]
fn factors_come_as_prime_powers() {
    assert_eq!(
        factor_prime_powers(1_048_575),
        vec![(3, 3), (25, 5), (11, 11), (31, 31), (41, 41)]
    );
    assert_eq!(factor_prime_powers(131_071), vec![(131_071, 131_071)]);
    assert_eq!(factor_prime_powers(16_777_215), vec![(9, 3), (5, 5), (7, 7), (13, 13), (17, 17), (241, 241)]);
    assert_eq!(factor_prime_powers(1), vec![]);
    assert_eq!(factor_prime_powers(0), vec![]);
    assert_eq!(factor_prime_powers(4), vec![(4, 2)]);
}

#[test]
fn inverses_multiply_to_one() {
    assert_eq!(mod_inv(3, 7), 5);
    assert_eq!(mod_inv(1, 2), 1);
    assert_eq!(mod_inv(0, 1), 0);
    for a in 1..41u128 {
        assert_eq!(a * mod_inv(a, 41) % 41, 1);
    }
}

#[test]
fn remainders_determine_the_number() {
    let moduli = [3u128, 25, 11, 31, 41];
    for x in [0u128, 1, 999, 524_288, 1_048_574] {
        let residues: Vec<(u128, u128)> = moduli.iter().map(|&m| (x % m, m)).collect();
        assert_eq!(crt(&residues), x);
    }
    assert_eq!(crt(&[]), 0);
    // Residues are reduced first.
    assert_eq!(crt(&[(5, 3), (7, 5)]), 2);
}

#[test]
fn field_products_reduce() {
    // x^3 = x + 1.
    assert_eq!(gf_mul(0b100, 0b010, 3, 0b011), 0b011);
    assert_eq!(gf_mul(0b111, 0b101, 3, 0b011), 0b110);
    assert_eq!(gf_mul(0b111, 0, 3, 0b011), 0);
    assert_eq!(gf_mul(1, 0b110, 3, 0b011), 0b110);
    assert_eq!(gf_pow(0b010, 0, 3, 0b011), 1);
    assert_eq!(gf_pow(0b010, 3, 3, 0b011), 0b011);
    assert_eq!(gf_pow(0b010, 7, 3, 0b011), 1);
    assert_eq!(gf_pow(0b110, 7, 3, 0b011), 1);
    // At the full word width.
    assert_eq!(gf_mul(0x8000_0000, 2, 32, 0xc5), 0xc5);
}
