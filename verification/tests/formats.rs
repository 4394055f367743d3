use sl_timecode_decoder::format::{
    serato_cv02, serato_cv02_side_a, serato_cv02_side_b, LeadChannel, Side,
};
use sl_timecode_decoder::lfsr::Lfsr;

#[test]
fn serato_lfsr_is_maximal() {
    let f = serato_cv02();
    assert!(f.lfsr.is_maximal_length(f.seed));
    assert_eq!(f.window_bits(), 20);
}

#[test]
fn measured_parameters_of_both_sides() {
    let a = serato_cv02_side_a();
    assert_eq!(a.name, "Serato CV02 side A (measured)");
    assert_eq!(a.lfsr, Lfsr::new(20, 0x361e5));
    assert_eq!(a.seed, 0xafd8e);
    assert_eq!(a.lead, LeadChannel::Right);
    assert!(a.confirmed);
    let b = serato_cv02_side_b();
    assert_eq!(b.name, "Serato CV02 side B (measured)");
    assert_eq!(b.lfsr, Lfsr::new(20, 0x4f0d9));
    assert_eq!(b.seed, 0x9a9a2);
    assert_eq!(b.lead, LeadChannel::Right);
    assert!(b.confirmed);
    assert!(b.lfsr.is_maximal_length(b.seed));
}

#[test]
fn sides_have_labels_and_formats() {
    assert_eq!(Side::A.label(), "A");
    assert_eq!(Side::B.label(), "B");
    assert_eq!(Side::A.format().lfsr, serato_cv02_side_a().lfsr);
    assert_eq!(Side::B.format().seed, serato_cv02_side_b().seed);
    assert_eq!(serato_cv02().name, Side::A.format().name);
}

#[test]
fn lead_in_reads_as_negative_positions() {
    let a = serato_cv02_side_a();
    assert_eq!(a.signed_position(0), 0);
    assert_eq!(a.signed_position(1_048_574), -1);
    assert_eq!(a.signed_position(1_048_575 - 4783), -4783);
    assert_eq!(a.signed_position(1_048_575 - 4784), 1_043_791);
    assert_eq!(a.signed_position(807_000), 807_000);
    let b = serato_cv02_side_b();
    assert_eq!(b.signed_position(1_048_575 - 6051), -6051);
    assert_eq!(b.signed_position(913_000), 913_000);
}

#[test]
fn lead_in_climbs_into_the_program() {
    let a = serato_cv02_side_a();
    let period = 1_048_575u32;
    let mut last = a.signed_position(period - 4783);
    for i in 1..6000u32 {
        let p = (period - 4783 + i) % period;
        let now = a.signed_position(p);
        assert_eq!(now, last + 1);
        last = now;
    }
}
