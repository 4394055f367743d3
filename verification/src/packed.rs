//! Fast position store: a bit-packed table with one field per register value.
//!
//! The fields are `bits` wide, little-endian and back to back. A 20-bit register
//! needs `2^20 * 20` bits, 2.5 MiB. A lookup reads four bytes at the field's
//! offset and shifts; the buffer is padded so that the last read stays inside.

use crate::bits;
use crate::lfsr::Lfsr;
use vstd::arithmetic::power2::*;
use vstd::prelude::*;

verus! {

/// Widest register for which the table is built; at 24 bits it takes 48 MiB.
pub const DIRECT_TABLE_MAX_BITS: u32 = 24;

/// Bit `t` of a buffer, lowest bit of the first byte first.
pub open spec fn data_bit(data: Seq<u8>, t: int) -> bool {
    (data[t / 8] >> ((t % 8) as u8)) & 1 == 1
}

/// Four bytes as a little-endian word.
pub open spec fn assembled(b0: u8, b1: u8, b2: u8, b3: u8) -> u32 {
    (b0 as u32) | ((b1 as u32) << 8) | ((b2 as u32) << 16) | ((b3 as u32) << 24)
}

/// Byte `j` of a word, lowest first.
pub open spec fn byte_of(w: u32, j: u32) -> u8 {
    ((w >> ((8 * j) as u32)) & 0xff) as u8
}

proof fn lemma_assembled(b0: u8, b1: u8, b2: u8, b3: u8, i: u8)
    by (bit_vector)
    requires
        i < 8,
    ensures
        bits::bit(assembled(b0, b1, b2, b3), i as u32) == ((b0 >> i) & 1 == 1),
        bits::bit(assembled(b0, b1, b2, b3), (i + 8) as u32) == ((b1 >> i) & 1 == 1),
        bits::bit(assembled(b0, b1, b2, b3), (i + 16) as u32) == ((b2 >> i) & 1 == 1),
        bits::bit(assembled(b0, b1, b2, b3), (i + 24) as u32) == ((b3 >> i) & 1 == 1),
{
}

proof fn lemma_byte_of(w: u32, j: u32, i: u8)
    by (bit_vector)
    requires
        j < 4,
        i < 8,
    ensures
        ((byte_of(w, j) >> i) & 1 == 1) == bits::bit(w, (8 * j + i) as u32),
        w >> 0u32 == w,
        (0u8 >> i) & 1 == 0,
{
}

/// A word with the field at `shift` replaced by `k`.
pub open spec fn with_field(w: u32, n: u32, shift: u32, k: u32) -> u32 {
    (w & !(bits::low_mask(n) << shift)) | (k << shift)
}

proof fn lemma_with_field(w: u32, n: u32, shift: u32, k: u32, i: u32)
    by (bit_vector)
    requires
        n <= 24,
        shift < 8,
        i < 32,
        k <= bits::low_mask(n),
    ensures
        bits::bit(with_field(w, n, shift, k), i) == (if shift <= i < shift + n {
            bits::bit(k, (i - shift) as u32)
        } else {
            bits::bit(w, i)
        }),
{
}

proof fn lemma_field_bit(w: u32, n: u32, shift: u32, i: u32)
    by (bit_vector)
    requires
        n <= 24,
        shift < 8,
        i < 32,
    ensures
        bits::bit((w >> shift) & bits::low_mask(n), i) == (i < n && bits::bit(
            w,
            (i + shift) as u32,
        )),
        !bits::bit(0, i),
{
}

/// The word that starts at a byte of the buffer.
pub open spec fn word_at(data: Seq<u8>, byte: int) -> u32 {
    assembled(data[byte], data[byte + 1], data[byte + 2], data[byte + 3])
}

proof fn lemma_word_at(data: Seq<u8>, byte: int, i: u32)
    requires
        0 <= byte,
        byte + 4 <= data.len(),
        i < 32,
    ensures
        bits::bit(word_at(data, byte), i) == data_bit(data, 8 * byte + i),
{
    let r = (i % 8) as u8;
    lemma_assembled(data[byte], data[byte + 1], data[byte + 2], data[byte + 3], r);
    assert((8 * byte + i) / 8 == byte + i / 8);
    assert((8 * byte + i) % 8 == i % 8);
}

/// Read four bytes as a little-endian word.
fn read_word(data: &Vec<u8>, byte: usize) -> (w: u32)
    requires
        byte + 4 <= data@.len(),
    ensures
        w == word_at(data@, byte as int),
{
    assert(data.len() == data@.len());
    (data[byte] as u32) | ((data[byte + 1] as u32) << 8) | ((data[byte + 2] as u32) << 16) | ((
    data[byte + 3] as u32) << 24)
}

/// Write a word as four little-endian bytes.
fn write_word(data: &mut Vec<u8>, byte: usize, w: u32)
    requires
        byte + 4 <= old(data)@.len(),
    ensures
        final(data)@.len() == old(data)@.len(),
        forall|t: int|
            0 <= t < 8 * old(data)@.len() ==> #[trigger] data_bit(final(data)@, t) == (if 8 * byte
                <= t < 8 * byte + 32 {
                bits::bit(w, (t - 8 * byte) as u32)
            } else {
                data_bit(old(data)@, t)
            }),
{
    let ghost before = data@;
    assert(data.len() == data@.len());
    data[byte] = (w & 0xff) as u8;
    data[byte + 1] = ((w >> 8) & 0xff) as u8;
    data[byte + 2] = ((w >> 16) & 0xff) as u8;
    data[byte + 3] = ((w >> 24) & 0xff) as u8;
    proof {
        lemma_byte_of(w, 0, 0);
        assert forall|t: int| 0 <= t < 8 * before.len() implies #[trigger] data_bit(data@, t) == (
        if 8 * byte <= t < 8 * byte + 32 {
            bits::bit(w, (t - 8 * byte) as u32)
        } else {
            data_bit(before, t)
        }) by {
            if 8 * byte <= t < 8 * byte + 32 {
                let j = (t / 8 - byte) as u32;
                lemma_byte_of(w, j, (t % 8) as u8);
                assert(data@[t / 8] == byte_of(w, j));
                assert(8 * j + (t % 8) as u8 == t - 8 * byte);
            } else {
                assert(data@[t / 8] == before[t / 8]);
            }
        }
    }
}

impl Lfsr {
    /// What the table holds for a value after `n` steps: the index of its last
    /// visit, or zero.
    pub open spec fn recorded(self, seed: u32, state: u32, n: nat) -> u32 {
        match self.last_visit(seed, state, n) {
            Some(k) => k as u32,
            None => 0,
        }
    }
}

/// The table after `n` steps.
pub open spec fn holds(data: Seq<u8>, l: Lfsr, seed: u32, n: nat) -> bool {
    forall|s: u32, i: u32|
        s <= bits::low_mask(l.bits) && i < l.bits ==> #[trigger] data_bit(
            data,
            s * l.bits + i,
        ) == #[trigger] bits::bit(l.recorded(seed, s, n), i)
}

/// A bit-packed table from register value to position.
pub struct Packed {
    /// Field width in bits (the register width).
    pub bits: u32,
    /// Mask of `bits` low bits.
    pub field_mask: u32,
    /// Value at position zero: the one field that holds a zero for a visit.
    pub seed: u32,
    pub data: Vec<u8>,
}

/// Length of the buffer for a register width.
pub open spec fn buffer_len(n: u32) -> int {
    (pow2(n as nat) * n + 7) / 8 + 4
}

/// A field lies inside the buffer, apart from the fields of other values.
proof fn lemma_field_place(n: u32, s: u32, other: u32)
    requires
        n <= 24,
        s <= bits::low_mask(n),
        other <= bits::low_mask(n),
    ensures
        0 <= s * n,
        s * n + n <= pow2(n as nat) * n,
        (s * n) / 8 + 4 <= buffer_len(n),
        pow2(n as nat) * n <= 402653184,
        s < other ==> s * n + n <= other * n,
        other < s ==> other * n + n <= s * n,
{
    bits::lemma_low_mask_is_pow2(n);
    lemma2_to64();
    if n < 24 {
        lemma_pow2_strictly_increases(n as nat, 24);
    }
    let slots = pow2(n as nat);
    assert(slots * n <= 402653184 && s * n + n <= slots * n && 0 <= s * n) by (nonlinear_arith)
        requires
            slots <= 16777216,
            n <= 24,
            s + 1 <= slots,
    ;
    assert((s < other ==> s * n + n <= other * n) && (other < s ==> other * n + n <= s * n))
        by (nonlinear_arith);
}

impl Packed {
    /// The table belongs to `l` started from `seed`.
    pub open spec fn wf(self, l: Lfsr, seed: u32) -> bool {
        &&& l.bits <= DIRECT_TABLE_MAX_BITS
        &&& self.bits == l.bits
        &&& self.field_mask == bits::low_mask(l.bits)
        &&& self.seed == seed
        &&& self.data@.len() == buffer_len(l.bits)
        &&& holds(self.data@, l, seed, l.period())
    }

    /// Walk the sequence once and record every position.
    pub fn build(l: Lfsr, seed: u32) -> (r: Self)
        requires
            l.bits <= DIRECT_TABLE_MAX_BITS,
        ensures
            r.wf(l, seed & bits::low_mask(l.bits)),
    {
        let ghost start = seed & bits::low_mask(l.bits);
        proof {
            bits::lemma_mask_bound(seed, l.bits);
            bits::lemma_low_mask_is_pow2(l.bits);
            lemma_field_place(l.bits, 0, 0);
            lemma2_to64();
            if l.bits < 24 {
                lemma_pow2_strictly_increases(l.bits as nat, 24);
            }
        }
        let width: usize = l.bits as usize;
        let slots: usize = (1u64 << l.bits) as usize;
        let field_mask: u32 = l.mask();
        let mut data: Vec<u8> = vec![0u8; (slots * width + 7) / 8 + 4];
        let period: u64 = (1u64 << l.bits) - 1;
        let seed: u32 = seed & l.mask();
        let mut state: u32 = seed;
        let mut k: u64 = 0;
        proof {
            assert forall|s: u32, i: u32|
                s <= bits::low_mask(l.bits) && i < l.bits implies #[trigger] data_bit(
                data@,
                s * l.bits + i,
            ) == #[trigger] bits::bit(l.recorded(seed, s, 0), i) by {
                lemma_field_place(l.bits, s, s);
                lemma_field_bit(0, 0, 0, i);
                lemma_byte_of(0, 0, ((s * l.bits + i) % 8) as u8);
            }
        }
        while k < period
            invariant
                l.bits <= 24,
                width == l.bits,
                period > 0 ==> l.valid(),
                period == l.period(),
                period <= bits::low_mask(l.bits),
                field_mask == bits::low_mask(l.bits),
                seed <= bits::low_mask(l.bits),
                k <= period,
                state == l.state_at(seed, k as nat),
                data@.len() == buffer_len(l.bits),
                holds(data@, l, seed, k as nat),
            decreases period - k,
        {
            proof {
                l.lemma_state_bounded(seed, k as nat);
                lemma_field_place(l.bits, state, state);
            }
            // Adjacent fields share these bytes: replace this field's bits only.
            let off: usize = (state as usize) * width;
            let byte: usize = off / 8;
            let shift: u32 = (off % 8) as u32;
            let w: u32 = read_word(&data, byte);
            let ghost before = data@;
            let updated: u32 = (w & !(field_mask << shift)) | ((k as u32) << shift);
            write_word(&mut data, byte, updated);
            proof {
                assert(updated == with_field(w, l.bits, shift, k as u32));
                assert forall|s: u32, i: u32|
                    s <= bits::low_mask(l.bits) && i < l.bits implies #[trigger] data_bit(
                    data@,
                    s * l.bits + i,
                ) == #[trigger] bits::bit(l.recorded(seed, s, (k + 1) as nat), i) by {
                    let t = s * l.bits + i;
                    lemma_field_place(l.bits, s, state);
                    assert(data_bit(before, s * l.bits + i) == bits::bit(
                        l.recorded(seed, s, k as nat),
                        i,
                    ));
                    if 8 * byte <= t < 8 * byte + 32 {
                        let at = (t - 8 * byte) as u32;
                        lemma_with_field(w, l.bits, shift, k as u32, at);
                        lemma_word_at(before, byte as int, at);
                    }
                }
            }
            l.step(&mut state);
            k = k + 1;
        }
        Packed { bits: l.bits, field_mask, seed, data }
    }

    /// Look up the absolute index of a register value.
    pub fn get(&self, state: u32) -> (r: Option<u32>)
        requires
            exists|l: Lfsr, seed: u32| self.wf(l, seed),
            state <= self.field_mask,
        ensures
            forall|l: Lfsr, seed: u32| #[trigger]
                self.wf(l, seed) ==> r == l.position_of(seed, state),
    {
        // The zero value has no position.
        if state == 0 {
            return None;
        }
        let ghost (l0, seed0) = choose|l: Lfsr, seed: u32| self.wf(l, seed);
        proof {
            lemma_field_place(l0.bits, state, state);
        }
        let off: usize = (state as usize) * (self.bits as usize);
        let byte: usize = off / 8;
        let shift: u32 = (off % 8) as u32;
        let w: u32 = read_word(&self.data, byte);
        let v: u32 = (w >> shift) & self.field_mask;
        proof {
            assert forall|l: Lfsr, seed: u32| #[trigger] self.wf(l, seed) implies v == l.recorded(
                seed,
                state,
                l.period(),
            ) by {
                let rec = l.recorded(seed, state, l.period());
                l.lemma_last_visit(seed, state, l.period());
                l.lemma_period_fits();
                bits::lemma_low_mask_is_pow2(l.bits);
                assert forall|i: u32| i < 32 implies bits::bit(v, i) == bits::bit(rec, i) by {
                    lemma_field_bit(w, l.bits, shift, i);
                    if i < l.bits {
                        lemma_word_at(self.data@, byte as int, (i + shift) as u32);
                        assert(data_bit(self.data@, state * l.bits + i) == bits::bit(
                            l.recorded(seed, state, l.period()),
                            i,
                        ));
                    } else {
                        bits::lemma_word_bits(rec, 0, i, l.bits);
                    }
                }
                bits::lemma_bits_determine(v, rec);
            }
        }
        // A zero field is the seed's, or that of a value never visited.
        let r: Option<u32> = if v == 0 && state != self.seed {
            None
        } else {
            Some(v)
        };
        proof {
            assert forall|l: Lfsr, seed: u32| #[trigger] self.wf(l, seed) implies r == l.position_of(
                seed,
                state,
            ) by {
                l.lemma_last_visit(seed, state, l.period());
                assert(l.state_at(seed, 0) == seed);
                bits::lemma_low_mask_is_pow2(l.bits);
                assert(v == l.recorded(seed, state, l.period()));
            }
        }
        r
    }
}

} // verus!
