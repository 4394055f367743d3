//! The discrete part of the control-tone generator: which bit a carrier cycle
//! carries, and the noise source.

use crate::tracker::wrap_i;
use vstd::prelude::*;

verus! {

/// The bit of carrier cycle `cycle`: the sequence repeats in both directions.
pub fn bit_at_cycle(seq: &[u8], cycle: i64) -> (r: u8)
    requires
        0 < seq@.len() <= i64::MAX,
    ensures
        r == seq@[(cycle as int) % (seq@.len() as int)],
{
    let at: i64 = wrap_i(cycle, seq.len() as i64);
    seq[at as usize]
}

/// One step of the xorshift64 generator.
pub open spec fn xorshift64(s: u64) -> u64 {
    let a = s ^ (s << 13);
    let b = a ^ (a >> 7);
    b ^ (b << 17)
}

/// The generator never falls into its fixed point at zero.
proof fn lemma_noise_lives(s: u64)
    by (bit_vector)
    ensures
        s != 0 ==> xorshift64(s) != 0,
        xorshift64(s) >> 11 < 0x20_0000_0000_0000,
        s | 1 != 0,
{
}

/// The generator is linear over GF(2): it takes the XOR of two states to the XOR
/// of what it takes them to.
pub proof fn lemma_noise_is_linear(s: u64, t: u64)
    by (bit_vector)
    ensures
        xorshift64(s ^ t) == xorshift64(s) ^ xorshift64(t),
        s != t ==> s ^ t != 0,
        s == t ==> s ^ t == 0,
{
}

/// The generator forgets nothing: different states lead to different states.
pub proof fn lemma_noise_is_one_to_one(s: u64, t: u64)
    requires
        xorshift64(s) == xorshift64(t),
    ensures
        s == t,
{
    lemma_noise_is_linear(s, t);
    lemma_noise_is_linear(xorshift64(s), xorshift64(t));
    lemma_noise_lives(s ^ t);
}

/// Start of the noise generator for a seed; it is never zero.
pub fn noise_seed(seed: u64) -> (r: u64)
    ensures
        r == seed | 1,
        r != 0,
{
    proof {
        lemma_noise_lives(seed);
    }
    seed | 1
}

/// Step the noise generator (xorshift64) and return 53 bits of noise.
pub fn next_noise(s: &mut u64) -> (r: u64)
    ensures
        *final(s) == xorshift64(*old(s)),
        ({
            let a = *old(s) ^ (*old(s) << 13);
            let b = a ^ (a >> 7);
            *final(s) == b ^ (b << 17)
        }),
        r == *final(s) >> 11,
        r < 0x20_0000_0000_0000,
        *old(s) != 0 ==> *final(s) != 0,
{
    proof {
        lemma_noise_lives(*s);
    }
    let a: u64 = *s ^ (*s << 13);
    let b: u64 = a ^ (a >> 7);
    *s = b ^ (b << 17);
    *s >> 11
}

} // verus!
