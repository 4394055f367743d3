//! Words over GF(2): the bits of a `u32`, their parity, and the facts about
//! shifts, masks and XOR that the shift-register proofs rest on.

use vstd::arithmetic::power2::*;
use vstd::bits::*;
use vstd::prelude::*;

verus! {

/// Bit `i` of `v`.
pub open spec fn bit(v: u32, i: u32) -> bool {
    (v >> i) & 1 == 1
}

/// The word with bit `i` set and no other.
pub open spec fn unit(i: u32) -> u32 {
    1u32 << i
}

/// The word whose `bits` low bits are set.
pub open spec fn low_mask(bits: u32) -> u32 {
    if bits >= 32 {
        u32::MAX
    } else {
        ((1u32 << bits) - 1) as u32
    }
}

/// Number of ones in the binary expansion of `v`.
pub open spec fn ones(v: nat) -> nat
    decreases v,
{
    if v == 0 {
        0
    } else {
        v % 2 + ones(v / 2)
    }
}

/// Parity of `v`: 1 if the number of set bits is odd, else 0.
pub open spec fn parity_of(v: u32) -> u32 {
    (ones(v as nat) % 2) as u32
}

/// `v` with its high part folded onto the bits `shift` places below.
pub open spec fn fold_once(v: u32, shift: u32) -> u32 {
    v ^ (v >> shift)
}

/// XOR of all bits of `v`, by halving the word five times.
pub open spec fn fold(v: u32) -> u32 {
    fold_once(fold_once(fold_once(fold_once(fold_once(v, 16), 8), 4), 2), 1) & 1
}

proof fn lemma_fold_step(v: u32)
    by (bit_vector)
    ensures
        fold(v) == (v & 1) ^ fold(v >> 1),
        fold(0) == 0,
        v >> 1 == v / 2,
        v & 1 == v % 2,
        fold(v) <= 1,
        v & 1 == 0 ==> (v & 1) ^ fold(v >> 1) == fold(v >> 1),
        v & 1 == 1 ==> (v & 1) ^ fold(v >> 1) == 1 - fold(v >> 1),
        fold(v >> 1) <= 1,
{
}

/// Folding the word computes its parity.
pub proof fn lemma_parity_is_fold(v: u32)
    ensures
        parity_of(v) == fold(v),
        parity_of(v) == 0 || parity_of(v) == 1,
    decreases v,
{
    lemma_fold_step(v);
    if v != 0 {
        lemma_parity_is_fold(v / 2);
        assert(ones(v as nat) == (v as nat) % 2 + ones((v as nat) / 2));
        assert((v / 2) as nat == (v as nat) / 2);
    }
}

/// XOR as the addition of a vector space over GF(2).
pub proof fn lemma_xor_group(a: u32, b: u32, c: u32)
    by (bit_vector)
    ensures
        a ^ b == b ^ a,
        (a ^ b) ^ c == a ^ (b ^ c),
        a ^ 0 == a,
        0 ^ a == a,
        a ^ a == 0,
        (a ^ b) ^ b == a,
        (a ^ b == 0) == (a == b),
        (a ^ b) & c == (a & c) ^ (b & c),
{
}

proof fn lemma_fold_xor(a: u32, b: u32)
    by (bit_vector)
    ensures
        fold(a ^ b) == fold(a) ^ fold(b),
{
}

/// Parity is linear.
pub proof fn lemma_parity_xor(a: u32, b: u32)
    ensures
        parity_of(a ^ b) == parity_of(a) ^ parity_of(b),
{
    lemma_fold_xor(a, b);
    lemma_parity_is_fold(a);
    lemma_parity_is_fold(b);
    lemma_parity_is_fold(a ^ b);
}

/// The product of a row with a vector is linear in both.
pub proof fn lemma_dot_linear(r: u32, s: u32, a: u32, b: u32)
    ensures
        parity_of(r & (a ^ b)) == parity_of(r & a) ^ parity_of(r & b),
        parity_of((r ^ s) & a) == parity_of(r & a) ^ parity_of(s & a),
{
    assert(r & (a ^ b) == (r & a) ^ (r & b) && (r ^ s) & a == (r & a) ^ (s & a)) by (bit_vector);
    lemma_parity_xor(r & a, r & b);
    lemma_parity_xor(r & a, s & a);
}

/// The product with a unit row reads one bit off.
pub proof fn lemma_dot_unit(i: u32, a: u32)
    requires
        i < 32,
    ensures
        parity_of(unit(i) & a) == (a >> i) & 1,
        parity_of(a & unit(i)) == (a >> i) & 1,
{
    assert(fold(unit(i) & a) == (a >> i) & 1 && unit(i) & a == a & unit(i)) by (bit_vector)
        requires
            i < 32,
    ;
    lemma_parity_is_fold(unit(i) & a);
}

/// How the bits of a halved word read.
pub proof fn lemma_halve(a: u32, b: u32, i: u32)
    by (bit_vector)
    requires
        i < 32,
    ensures
        bit(a >> 1, i) == (i < 31 && bit(a, (i + 1) as u32)),
        a >> 1 <= a,
        a != 0 ==> a >> 1 < a,
        a & 1 == b & 1 && a >> 1 == b >> 1 ==> a == b,
        bit(a, 0) == (a & 1 == 1),
        a & 1 == 0 || a & 1 == 1,
{
}

/// Two words with the same bits are equal.
pub proof fn lemma_bits_determine(a: u32, b: u32)
    requires
        forall|i: u32| i < 32 ==> bit(a, i) == bit(b, i),
    ensures
        a == b,
    decreases a + b,
{
    if a != 0 || b != 0 {
        lemma_halve(a, b, 0);
        lemma_halve(b, a, 0);
        assert forall|i: u32| i < 32 implies bit(a >> 1, i) == bit(b >> 1, i) by {
            lemma_halve(a, b, i);
            lemma_halve(b, a, i);
            if i < 31 {
                assert(bit(a, (i + 1) as u32) == bit(b, (i + 1) as u32));
            }
        }
        lemma_bits_determine(a >> 1, b >> 1);
        assert(bit(a, 0) == bit(b, 0));
    }
}

/// Regrouping of sums in which a term may occur twice.
pub proof fn lemma_xor_shuffle(a: u32, b: u32, v: u32)
    by (bit_vector)
    ensures
        (a ^ v) ^ (b ^ v) == a ^ b,
        (a ^ v) ^ b == (a ^ b) ^ v,
        a ^ (b ^ v) == (a ^ b) ^ v,
        (a ^ 0) ^ (b ^ 0) == (a ^ b) ^ 0,
        (a ^ v) ^ (b ^ 0) == (a ^ b) ^ v,
        (a ^ 0) ^ (b ^ v) == (a ^ b) ^ v,
        (a ^ v) ^ (b ^ v) == (a ^ b) ^ 0,
{
}

/// Regrouping of two sums of two terms.
pub proof fn lemma_xor_regroup(a: u32, p: u32, c: u32, q: u32)
    by (bit_vector)
    ensures
        (a ^ p) ^ (c ^ q) == (a ^ c) ^ (p ^ q),
        (0 ^ p) ^ (0 ^ q) == 0 ^ (p ^ q),
        a ^ a == 0,
{
}

/// How the bits of words built by XOR, shifting up and single bits read.
pub proof fn lemma_word_bits(y: u32, z: u32, i: u32, j: u32)
    by (bit_vector)
    requires
        i < 32,
        j < 32,
    ensures
        bit(y ^ z, i) == (bit(y, i) != bit(z, i)),
        i < 31 ==> bit(y << 1, (i + 1) as u32) == bit(y, i),
        !bit(y << 1, 0),
        bit(unit(i), j) == (i == j),
        !bit(0, i),
        i >= j && y <= low_mask(j) ==> !bit(y, i),
{
}

/// XOR of two single bits, in a word and in a byte.
pub proof fn lemma_bit_xor(p: u32, q: u32)
    by (bit_vector)
    requires
        p <= 1,
        q <= 1,
    ensures
        (p ^ q == 1) == ((p == 1) != (q == 1)),
        p ^ q <= 1,
        (p ^ q) as u8 == (p as u8) ^ (q as u8),
{
}

/// How the bits of a conjunction and a single bit read.
pub proof fn lemma_bit_and(y: u32, z: u32, i: u32)
    by (bit_vector)
    requires
        i < 32,
    ensures
        bit(y & z, i) == (bit(y, i) && bit(z, i)),
        (y >> i) & 1 <= 1,
        fold(unit(i)) == 1,
{
}

/// The lowest bit of a word, kept in a byte.
pub proof fn lemma_low_bit(v: u32, b: u8)
    by (bit_vector)
    ensures
        b == (v & 1) as u8 ==> (b & 1 == 1) == (b == 1),
        b & 1 == 0 || b & 1 == 1,
{
}

/// A single bit has odd parity.
pub proof fn lemma_parity_unit(i: u32)
    requires
        i < 32,
    ensures
        parity_of(unit(i)) == 1,
{
    lemma_bit_and(0, 0, i);
    lemma_parity_is_fold(unit(i));
}

/// How selectors of sums stay below a mask, `m < 32`.
pub proof fn lemma_selector_bounds(y: u32, z: u32, m: u32)
    by (bit_vector)
    requires
        m < 32,
    ensures
        y <= low_mask(m) ==> y << 1 <= low_mask((m + 1) as u32),
        y <= low_mask((m + 1) as u32) && !bit(y, m) ==> y <= low_mask(m),
        y <= low_mask((m + 1) as u32) && bit(y, m) && z <= low_mask((m + 1) as u32) && bit(z, m)
            ==> y ^ z <= low_mask(m),
        y <= low_mask(m) ==> !bit(y, m),
        y <= low_mask(0) ==> y == 0,
        m >= 1 ==> 1 <= low_mask(m),
        unit(0) == 1,
        low_mask(m) <= low_mask((m + 1) as u32),
{
}

/// The highest set bit of a nonzero word.
pub proof fn lemma_top_bit(v: u32, n: u32) -> (m: u32)
    requires
        0 < v <= low_mask(n),
        n <= 32,
    ensures
        m < n,
        bit(v, m),
        v <= low_mask((m + 1) as u32),
    decreases n,
{
    if n == 0 {
        lemma_selector_bounds(v, 0, 0);
        0
    } else {
        let m = (n - 1) as u32;
        lemma_selector_bounds(v, 0, m);
        if bit(v, m) {
            m
        } else {
            lemma_top_bit(v, m)
        }
    }
}

/// Setting one bit of a word.
pub proof fn lemma_or_bit(v: u32, b: u32, n: u32, i: u32)
    by (bit_vector)
    requires
        n < 32,
        i < 32,
        b <= 1,
    ensures
        bit(v | (b << n), i) == (bit(v, i) || (i == n && b == 1)),
        !bit(0, i),
{
}

/// A word all of whose bits lie below `n` is at most the mask.
pub proof fn lemma_bounded_by_bits(v: u32, n: u32)
    requires
        n <= 32,
        forall|i: u32| n <= i < 32 ==> !#[trigger] bit(v, i),
    ensures
        v <= low_mask(n),
    decreases 32 - n,
{
    if n < 32 {
        lemma_bounded_by_bits(v, (n + 1) as u32);
        lemma_selector_bounds(v, 0, n);
        assert(!bit(v, n));
    }
}

/// `low_mask` as a number, and the power of two computed by shifting.
pub proof fn lemma_low_mask_is_pow2(bits: u32)
    requires
        bits <= 32,
    ensures
        low_mask(bits) == pow2(bits as nat) - 1,
        (1u64 << bits) == pow2(bits as nat),
        pow2(bits as nat) >= 1,
{
    lemma2_to64();
    lemma_u64_pow2_no_overflow(bits as nat);
    lemma_pow2_pos(bits as nat);
    vstd::bits::lemma_u64_shl_is_mul(1, bits as u64);
    assert(bits < 32 ==> (1u32 << bits) as u64 == 1u64 << bits) by (bit_vector);
    assert(1u64 << 32u32 == 0x1_0000_0000) by (bit_vector);
}

/// Words whose bits are all below `bits` are those up to the mask.
pub proof fn lemma_mask_bound(v: u32, bits: u32)
    by (bit_vector)
    requires
        bits <= 32,
    ensures
        (v & low_mask(bits) == v) == (v <= low_mask(bits)),
        v & low_mask(bits) <= low_mask(bits),
        (v & low_mask(bits)) & low_mask(bits) == v & low_mask(bits),
        bits < 32 ==> (v >> bits == 0) == (v <= low_mask(bits)),
{
}

} // verus!
