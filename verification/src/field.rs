//! The field in which a register position is a discrete logarithm.
//!
//! A maximal-length register's nonzero values form a cyclic group; the step map
//! is multiplication by a fixed generator. Written in the power basis of that
//! generator, the register `k` steps after the value 1 is `x^k`. The register's
//! bit order is not the power basis, so [`Field`] carries the change of basis.

use crate::bits;
use crate::gf;
use crate::gf::{gf_mul, gf_pow};
use crate::lfsr::{parity, Lfsr};
use crate::number;
use crate::number::factor_prime_powers;
use crate::orbit;
use vstd::arithmetic::div_mod::*;
use vstd::arithmetic::mul::*;
use vstd::arithmetic::power2::*;
use vstd::prelude::*;

verus! {

/// Widest register for which the field is built.
pub const FIELD_MAX_BITS: u32 = 24;

/// The product of a matrix, given by its rows, with a vector: bit `i` is the
/// product of row `i` with `s`.
pub open spec fn coords(rows: Seq<u32>, s: u32) -> u32
    decreases rows.len(),
{
    if rows.len() == 0 {
        0
    } else {
        coords(rows.drop_last(), s) | (bits::parity_of(rows.last() & s) << ((rows.len()
            - 1) as u32))
    }
}

/// Every row has product zero with `u`.
pub open spec fn killed(rows: Seq<u32>, u: u32) -> bool {
    forall|r: int| 0 <= r < rows.len() ==> bits::parity_of(#[trigger] rows[r] & u) == 0
}

/// The bits of a matrix product.
pub proof fn lemma_coords_bit(rows: Seq<u32>, s: u32, i: u32)
    requires
        rows.len() <= 32,
        i < 32,
    ensures
        bits::bit(coords(rows, s), i) == (i < rows.len() && bits::parity_of(rows[i as int] & s)
            == 1),
    decreases rows.len(),
{
    if rows.len() == 0 {
        bits::lemma_or_bit(0, 0, 0, i);
    } else {
        let n = (rows.len() - 1) as u32;
        let t = rows.drop_last();
        lemma_coords_bit(t, s, i);
        bits::lemma_parity_is_fold(rows.last() & s);
        bits::lemma_or_bit(coords(t, s), bits::parity_of(rows.last() & s), n, i);
        if i < t.len() {
            assert(t[i as int] == rows[i as int]);
        }
    }
}

/// A matrix product is linear, and zero exactly on the vectors that every row
/// kills.
pub proof fn lemma_coords_linear(rows: Seq<u32>, a: u32, b: u32)
    requires
        rows.len() <= 32,
    ensures
        coords(rows, a ^ b) == coords(rows, a) ^ coords(rows, b),
        (coords(rows, a) == 0) == killed(rows, a),
{
    let x = coords(rows, a);
    let y = coords(rows, b);
    assert forall|i: u32| i < 32 implies bits::bit(coords(rows, a ^ b), i) == bits::bit(
        x ^ y,
        i,
    ) by {
        lemma_coords_bit(rows, a ^ b, i);
        lemma_coords_bit(rows, a, i);
        lemma_coords_bit(rows, b, i);
        bits::lemma_word_bits(x, y, i, i);
        if i < rows.len() {
            let r = rows[i as int];
            bits::lemma_dot_linear(r, 0, a, b);
            bits::lemma_parity_is_fold(r & a);
            bits::lemma_parity_is_fold(r & b);
            bits::lemma_bit_xor(bits::parity_of(r & a), bits::parity_of(r & b));
        }
    }
    bits::lemma_bits_determine(coords(rows, a ^ b), x ^ y);
    if x == 0 {
        assert forall|r: int| 0 <= r < rows.len() implies bits::parity_of(#[trigger] rows[r] & a)
            == 0 by {
            lemma_coords_bit(rows, a, r as u32);
            bits::lemma_word_bits(0, 0, r as u32, 0);
            bits::lemma_parity_is_fold(rows[r] & a);
        }
    }
    if killed(rows, a) {
        assert forall|i: u32| i < 32 implies bits::bit(x, i) == bits::bit(0, i) by {
            lemma_coords_bit(rows, a, i);
            bits::lemma_word_bits(0, 0, i, 0);
            if i < rows.len() {
                assert(bits::parity_of(rows[i as int] & a) == 0);
            }
        }
        bits::lemma_bits_determine(x, 0);
    }
}

/// The state of a Gauss-Jordan elimination that inverts the power-basis matrix
/// of `l`, whose column `c` is the register `c` steps after 1: `rows` is `inv`
/// times that matrix, `wb` is `inv` times the column after the last, and `inv`
/// is invertible.
pub open spec fn eliminated(l: Lfsr, rows: Seq<u32>, inv: Seq<u32>, wb: Seq<u8>) -> bool {
    &&& rows.len() == l.bits
    &&& inv.len() == l.bits
    &&& wb.len() == l.bits
    &&& forall|r: int, c: u32|
        0 <= r < l.bits && c < l.bits ==> #[trigger] bits::bit(rows[r], c) == (bits::parity_of(
            inv[r] & l.state_at(1, c as nat),
        ) == 1)
    &&& forall|r: int|
        0 <= r < l.bits ==> #[trigger] wb[r] == bits::parity_of(
            inv[r] & l.state_at(1, l.bits as nat),
        ) as u8
    &&& forall|u: u32| u <= bits::low_mask(l.bits) && #[trigger] killed(inv, u) ==> u == 0
}

/// The first `col` columns are unit columns.
pub open spec fn pivoted(l: Lfsr, rows: Seq<u32>, col: int) -> bool {
    forall|r: int, c: u32|
        0 <= r < l.bits && c < col ==> #[trigger] bits::bit(rows[r], c) == (r == c)
}

/// `s` with entries `a` and `b` exchanged.
pub open spec fn exchanged<T>(s: Seq<T>, a: int, b: int) -> Seq<T> {
    s.update(a, s[b]).update(b, s[a])
}

/// Exchanging two rows below the pivots keeps the elimination state.
proof fn lemma_exchange(
    l: Lfsr,
    rows: Seq<u32>,
    inv: Seq<u32>,
    wb: Seq<u8>,
    col: int,
    sel: int,
)
    requires
        eliminated(l, rows, inv, wb),
        pivoted(l, rows, col),
        0 <= col <= sel < l.bits,
    ensures
        eliminated(
            l,
            exchanged(rows, col, sel),
            exchanged(inv, col, sel),
            exchanged(wb, col, sel),
        ),
        pivoted(l, exchanged(rows, col, sel), col),
{
    let (rows2, inv2, wb2) = (
        exchanged(rows, col, sel),
        exchanged(inv, col, sel),
        exchanged(wb, col, sel),
    );
    assert forall|r: int, c: u32| 0 <= r < l.bits && c < l.bits implies #[trigger] bits::bit(
        rows2[r],
        c,
    ) == (bits::parity_of(inv2[r] & l.state_at(1, c as nat)) == 1) by {
        let q = if r == col {
            sel
        } else if r == sel {
            col
        } else {
            r
        };
        assert(rows2[r] == rows[q] && inv2[r] == inv[q]);
        assert(bits::bit(rows[q], c) == (bits::parity_of(inv[q] & l.state_at(1, c as nat)) == 1));
    }
    assert forall|r: int, c: u32| 0 <= r < l.bits && c < col implies #[trigger] bits::bit(
        rows2[r],
        c,
    ) == (r == c) by {
        let q = if r == col {
            sel
        } else if r == sel {
            col
        } else {
            r
        };
        assert(rows2[r] == rows[q]);
        assert(bits::bit(rows[q], c) == (q == c));
    }
    assert forall|u: u32| u <= bits::low_mask(l.bits) && #[trigger] killed(
        inv2,
        u,
    ) implies u == 0 by {
        assert forall|r: int| 0 <= r < inv.len() implies bits::parity_of(#[trigger] inv[r] & u)
            == 0 by {
            let q = if r == col {
                sel
            } else if r == sel {
                col
            } else {
                r
            };
            assert(inv2[q] == inv[r]);
            assert(bits::parity_of(inv2[q] & u) == 0);
        }
        assert(killed(inv, u));
    }
}

/// Adding the pivot row to another row keeps the elimination state.
proof fn lemma_add_row(
    l: Lfsr,
    rows: Seq<u32>,
    inv: Seq<u32>,
    wb: Seq<u8>,
    col: int,
    r: int,
)
    requires
        eliminated(l, rows, inv, wb),
        pivoted(l, rows, col),
        0 <= col < l.bits,
        0 <= r < l.bits,
        r != col,
        l.bits <= 32,
    ensures
        eliminated(
            l,
            rows.update(r, rows[r] ^ rows[col]),
            inv.update(r, inv[r] ^ inv[col]),
            wb.update(r, wb[r] ^ wb[col]),
        ),
        pivoted(l, rows.update(r, rows[r] ^ rows[col]), col),
        forall|c: u32|
            c < 32 ==> #[trigger] bits::bit(rows[r] ^ rows[col], c) == (bits::bit(rows[r], c)
                != bits::bit(rows[col], c)),
{
    let rows2 = rows.update(r, rows[r] ^ rows[col]);
    let inv2 = inv.update(r, inv[r] ^ inv[col]);
    let wb2 = wb.update(r, wb[r] ^ wb[col]);
    assert forall|c: u32| c < 32 implies #[trigger] bits::bit(rows[r] ^ rows[col], c) == (
    bits::bit(rows[r], c) != bits::bit(rows[col], c)) by {
        bits::lemma_word_bits(rows[r], rows[col], c, c);
    }
    assert forall|q: int, c: u32| 0 <= q < l.bits && c < l.bits implies #[trigger] bits::bit(
        rows2[q],
        c,
    ) == (bits::parity_of(inv2[q] & l.state_at(1, c as nat)) == 1) by {
        let v = l.state_at(1, c as nat);
        assert(bits::bit(rows[q], c) == (bits::parity_of(inv[q] & v) == 1));
        if q == r {
            assert(bits::bit(rows[r] ^ rows[col], c) == (bits::bit(rows[r], c) != bits::bit(
                rows[col],
                c,
            )));
            assert(bits::bit(rows[col], c) == (bits::parity_of(inv[col] & v) == 1));
            bits::lemma_dot_linear(inv[r], inv[col], v, 0);
            bits::lemma_parity_is_fold(inv[r] & v);
            bits::lemma_parity_is_fold(inv[col] & v);
            bits::lemma_bit_xor(bits::parity_of(inv[r] & v), bits::parity_of(inv[col] & v));
        }
    }
    assert forall|q: int, c: u32| 0 <= q < l.bits && c < col implies #[trigger] bits::bit(
        rows2[q],
        c,
    ) == (q == c) by {
        assert(bits::bit(rows[q], c) == (q == c));
        if q == r {
            assert(bits::bit(rows[col], c) == (col == c));
        }
    }
    let w = l.state_at(1, l.bits as nat);
    assert forall|q: int| 0 <= q < l.bits implies #[trigger] wb2[q] == bits::parity_of(
        inv2[q] & w,
    ) as u8 by {
        assert(wb[q] == bits::parity_of(inv[q] & w) as u8);
        if q == r {
            assert(wb[col] == bits::parity_of(inv[col] & w) as u8);
            bits::lemma_dot_linear(inv[r], inv[col], w, 0);
            bits::lemma_parity_is_fold(inv[r] & w);
            bits::lemma_parity_is_fold(inv[col] & w);
            bits::lemma_bit_xor(bits::parity_of(inv[r] & w), bits::parity_of(inv[col] & w));
        }
    }
    assert forall|u: u32| u <= bits::low_mask(l.bits) && #[trigger] killed(
        inv2,
        u,
    ) implies u == 0 by {
        assert forall|q: int| 0 <= q < inv.len() implies bits::parity_of(#[trigger] inv[q] & u)
            == 0 by {
            assert(bits::parity_of(inv2[q] & u) == 0);
            if q == r {
                assert(bits::parity_of(inv2[col] & u) == 0);
                bits::lemma_dot_linear(inv[r], inv[col], u, 0);
                bits::lemma_xor_group(bits::parity_of(inv[r] & u), 0, 0);
            }
        }
        assert(killed(inv, u));
    }
}

/// The selector of the states that cancel when column `col` has no pivot.
spec fn cancelling(rows: Seq<u32>, col: u32, m: nat) -> u32
    decreases m,
{
    if m == 0 {
        bits::unit(col)
    } else {
        cancelling(rows, col, (m - 1) as nat) | ((if bits::bit(rows[m - 1], col) {
            1u32
        } else {
            0u32
        }) << ((m - 1) as u32))
    }
}

proof fn lemma_cancelling(rows: Seq<u32>, col: u32, m: nat, i: u32)
    requires
        m <= col < 32,
        i < 32,
    ensures
        bits::bit(cancelling(rows, col, m), i) == (i == col || (i < m && bits::bit(
            rows[i as int],
            col,
        ))),
    decreases m,
{
    if m == 0 {
        bits::lemma_word_bits(0, 0, col, i);
    } else {
        lemma_cancelling(rows, col, (m - 1) as nat, i);
        let b: u32 = if bits::bit(rows[m - 1], col) {
            1
        } else {
            0
        };
        bits::lemma_or_bit(cancelling(rows, col, (m - 1) as nat), b, (m - 1) as u32, i);
    }
}

/// The product of a row with a sum of states, read off the eliminated row.
proof fn lemma_row_of_sum(l: Lfsr, row: u32, inv_row: u32, v: u32, m: nat, part: u32)
    requires
        m <= l.bits <= 32,
        forall|c: u32|
            c < l.bits ==> #[trigger] bits::bit(row, c) == (bits::parity_of(
                inv_row & l.state_at(1, c as nat),
            ) == 1),
        forall|i: u32| i < 32 ==> #[trigger] bits::bit(part, i) == (i < m && bits::bit(v, i)),
    ensures
        bits::parity_of(inv_row & l.orbit_sum(1, v, m)) == bits::parity_of(row & part),
    decreases m,
{
    if m == 0 {
        assert forall|i: u32| i < 32 implies bits::bit(part, i) == bits::bit(0, i) by {
            bits::lemma_word_bits(0, 0, i, i);
        }
        bits::lemma_bits_determine(part, 0);
        bits::lemma_xor_group(0, 0, row);
        bits::lemma_dot_linear(inv_row, row, 0, 0);
        bits::lemma_dot_linear(row, row, 0, 0);
        bits::lemma_xor_group(bits::parity_of(inv_row & 0), 0, 0);
        bits::lemma_xor_group(bits::parity_of(row & 0), 0, 0);
    } else {
        let i = (m - 1) as u32;
        let s = l.state_at(1, i as nat);
        if bits::bit(v, i) {
            let rest = part ^ bits::unit(i);
            assert forall|j: u32| j < 32 implies #[trigger] bits::bit(rest, j) == (j < i
                && bits::bit(v, j)) by {
                assert(bits::bit(part, j) == (j < m && bits::bit(v, j)));
                bits::lemma_word_bits(part, bits::unit(i), j, j);
                bits::lemma_word_bits(0, 0, i, j);
            }
            lemma_row_of_sum(l, row, inv_row, v, i as nat, rest);
            bits::lemma_xor_group(part, bits::unit(i), 0);
            bits::lemma_dot_linear(row, 0, rest, bits::unit(i));
            bits::lemma_dot_linear(inv_row, 0, l.orbit_sum(1, v, i as nat), s);
            bits::lemma_dot_unit(i, row);
            bits::lemma_parity_is_fold(inv_row & s);
            bits::lemma_bit_and(row, row, i);
            assert(bits::bit(row, i) == (bits::parity_of(inv_row & s) == 1));
        } else {
            assert forall|j: u32| j < 32 implies #[trigger] bits::bit(part, j) == (j < i
                && bits::bit(v, j)) by {
                assert(bits::bit(part, j) == (j < m && bits::bit(v, j)));
            }
            lemma_row_of_sum(l, row, inv_row, v, i as nat, part);
            bits::lemma_xor_group(l.orbit_sum(1, v, i as nat), 0, 0);
        }
    }
}

/// If a column has no pivot, the register is not maximal-length.
proof fn lemma_singular_not_maximal(
    l: Lfsr,
    rows: Seq<u32>,
    inv: Seq<u32>,
    wb: Seq<u8>,
    col: u32,
)
    requires
        l.valid(),
        eliminated(l, rows, inv, wb),
        pivoted(l, rows, col as int),
        col < l.bits,
        forall|r: int| col <= r < l.bits ==> !#[trigger] bits::bit(rows[r], col),
    ensures
        !l.maximal(),
{
    let n = l.bits;
    let v = cancelling(rows, col, col as nat);
    assert forall|i: u32| i < 32 implies #[trigger] bits::bit(v, i) == (i == col || (i < col
        && bits::bit(rows[i as int], col))) by {
        lemma_cancelling(rows, col, col as nat, i);
    }
    bits::lemma_bounded_by_bits(v, n);
    let total = l.orbit_sum(1, v, n as nat);
    orbit::lemma_one_in_register(l);
    l.lemma_orbit_sum_bounded(1, v, n as nat);
    assert forall|r: int| 0 <= r < inv.len() implies bits::parity_of(#[trigger] inv[r] & total)
        == 0 by {
        let row = rows[r];
        assert forall|c: u32| c < n implies #[trigger] bits::bit(row, c) == (bits::parity_of(
            inv[r] & l.state_at(1, c as nat),
        ) == 1) by {
            assert(bits::bit(rows[r], c) == (bits::parity_of(inv[r] & l.state_at(1, c as nat))
                == 1));
        }
        lemma_row_of_sum(l, row, inv[r], v, n as nat, v);
        let pair: u32 = if r < col && bits::bit(row, col) {
            bits::unit(r as u32) ^ bits::unit(col)
        } else {
            0
        };
        assert forall|i: u32| i < 32 implies bits::bit(row & v, i) == bits::bit(pair, i) by {
            bits::lemma_bit_and(row, v, i);
            bits::lemma_word_bits(bits::unit(r as u32), bits::unit(col), i, i);
            bits::lemma_word_bits(0, 0, r as u32, i);
            bits::lemma_word_bits(0, 0, col, i);
            bits::lemma_word_bits(0, 0, i, i);
            if i < col {
                assert(bits::bit(rows[r], i) == (r == i));
            }
        }
        bits::lemma_bits_determine(row & v, pair);
        bits::lemma_parity_xor(bits::unit(r as u32), bits::unit(col));
        bits::lemma_parity_unit(r as u32);
        bits::lemma_parity_unit(col);
        bits::lemma_xor_group(1, 1, 0);
        assert(bits::parity_of(0) == 0);
    }
    assert(killed(inv, total));
    if l.maximal() {
        l.lemma_maximal_independent(1, v);
        bits::lemma_word_bits(0, 0, col, col);
    }
}

/// The elimination starts from the matrix itself and the identity.
proof fn lemma_identity_start(l: Lfsr, rows: Seq<u32>, inv: Seq<u32>, wb: Seq<u8>)
    requires
        1 <= l.bits <= 32,
        rows.len() == l.bits,
        inv.len() == l.bits,
        wb.len() == l.bits,
        forall|q: int| 0 <= q < l.bits ==> #[trigger] inv[q] == bits::unit(q as u32),
        forall|q: int|
            0 <= q < l.bits ==> #[trigger] wb[q] == (if bits::bit(
                l.state_at(1, l.bits as nat),
                q as u32,
            ) {
                1u8
            } else {
                0u8
            }),
        forall|q: int, c: u32|
            0 <= q < l.bits && c < l.bits ==> #[trigger] bits::bit(rows[q], c) == bits::bit(
                l.state_at(1, c as nat),
                q as u32,
            ),
    ensures
        eliminated(l, rows, inv, wb),
        pivoted(l, rows, 0),
{
    assert forall|r: int, c: u32| 0 <= r < l.bits && c < l.bits implies #[trigger] bits::bit(
        rows[r],
        c,
    ) == (bits::parity_of(inv[r] & l.state_at(1, c as nat)) == 1) by {
        bits::lemma_dot_unit(r as u32, l.state_at(1, c as nat));
    }
    assert forall|r: int| 0 <= r < l.bits implies #[trigger] wb[r] == bits::parity_of(
        inv[r] & l.state_at(1, l.bits as nat),
    ) as u8 by {
        let w = l.state_at(1, l.bits as nat);
        bits::lemma_dot_unit(r as u32, w);
        bits::lemma_bit_and(w, 0, r as u32);
    }
    assert forall|u: u32| u <= bits::low_mask(l.bits) && #[trigger] killed(
        inv,
        u,
    ) implies u == 0 by {
        assert forall|i: u32| i < 32 implies bits::bit(u, i) == bits::bit(0, i) by {
            bits::lemma_word_bits(u, 0, i, i);
            if i < l.bits {
                bits::lemma_dot_unit(i, u);
                assert(bits::parity_of(inv[i as int] & u) == 0);
            } else {
                bits::lemma_word_bits(u, 0, i, l.bits);
            }
        }
        bits::lemma_bits_determine(u, 0);
    }
}

/// The elimination ends with the change of basis.
proof fn lemma_identity_end(l: Lfsr, rows: Seq<u32>, inv: Seq<u32>, wb: Seq<u8>, red: u32)
    requires
        1 <= l.bits <= 32,
        eliminated(l, rows, inv, wb),
        pivoted(l, rows, l.bits as int),
        forall|d: u32|
            d < 32 ==> #[trigger] bits::bit(red, d) == (d < l.bits && wb[d as int] != 0),
    ensures
        forall|i: u32|
            i < l.bits ==> coords(inv, #[trigger] l.state_at(1, i as nat)) == bits::unit(i),
        coords(inv, l.state_at(1, l.bits as nat)) == red,
        red <= bits::low_mask(l.bits),
        forall|u: u32| u <= bits::low_mask(l.bits) && #[trigger] coords(inv, u) == 0 ==> u == 0,
{
    assert forall|i: u32| i < l.bits implies coords(inv, #[trigger] l.state_at(1, i as nat))
        == bits::unit(i) by {
        let s = l.state_at(1, i as nat);
        assert forall|d: u32| d < 32 implies bits::bit(coords(inv, s), d) == bits::bit(
            bits::unit(i),
            d,
        ) by {
            lemma_coords_bit(inv, s, d);
            bits::lemma_word_bits(0, 0, i, d);
            if d < l.bits {
                assert(bits::bit(rows[d as int], i) == (bits::parity_of(
                    inv[d as int] & l.state_at(1, i as nat),
                ) == 1));
            }
        }
        bits::lemma_bits_determine(coords(inv, s), bits::unit(i));
    }
    let w = l.state_at(1, l.bits as nat);
    assert forall|d: u32| d < 32 implies bits::bit(coords(inv, w), d) == bits::bit(red, d) by {
        lemma_coords_bit(inv, w, d);
        if d < l.bits {
            assert(wb[d as int] == bits::parity_of(inv[d as int] & w) as u8);
            bits::lemma_parity_is_fold(inv[d as int] & w);
        }
    }
    bits::lemma_bits_determine(coords(inv, w), red);
    bits::lemma_bounded_by_bits(red, l.bits);
    assert forall|u: u32| u <= bits::low_mask(l.bits) && #[trigger] coords(
        inv,
        u,
    ) == 0 implies u == 0 by {
        lemma_coords_linear(inv, u, u);
    }
}

/// Taking a listed prime out of a number leaves a smaller positive number.
proof fn lemma_prime_quotient(n: nat, factors: Seq<(u64, u64)>, j: int)
    requires
        n > 0,
        number::is_factorisation(n, factors),
        0 <= j < factors.len(),
    ensures
        0 < n / (factors[j].1 as nat) < n,
{
    let p = factors[j].1 as int;
    let q = factors[j].0 as int;
    assert(number::is_prime(p) && number::is_power_of(q, p));
    number::lemma_prime_power_divisible(q, p);
    assert forall|i: int| 0 <= i < factors.len() implies (#[trigger] factors[i]).0 > 0 by {
        assert(number::is_prime(factors[i].1 as int) && number::is_power_of(
            factors[i].0 as int,
            factors[i].1 as int,
        ));
        number::lemma_prime_power_divisible(factors[i].0 as int, factors[i].1 as int);
    }
    number::lemma_product_divisors(factors);
    number::lemma_divides_trans(p, q, n as int);
    number::lemma_divisor_small(p, n as int);
    number::lemma_quotient(p, n as int);
    let k = n as int / p;
    assert(k < n) by (nonlinear_arith)
        requires
            n == p * k,
            p > 1,
            k >= 1,
    ;
}

/// GF(2^bits) in the power basis of the step map, and the change of basis from
/// register values.
pub struct Field {
    pub bits: u32,
    pub mask: u32,
    pub period: u64,
    /// Reduction word: `x^bits` in the power basis.
    pub red: u32,
    /// Rows of the change of basis.
    pub binv: Vec<u32>,
}

impl Field {
    /// The ring that multiplication works in.
    pub open spec fn ring(self) -> gf::Ring {
        gf::ring(self.bits, self.red)
    }

    /// Power-basis coordinates of a register value.
    pub open spec fn coordinates(self, s: u32) -> u32 {
        coords(self.binv@, s)
    }

    /// The field belongs to `l`: the basis takes the register `i` steps after 1
    /// to `x^i` and only zero to zero, and `l` is maximal-length.
    pub open spec fn wf(self, l: Lfsr) -> bool {
        &&& self.fits(l)
        &&& l.maximal()
    }

    /// The basis part of [`Self::wf`].
    pub open spec fn fits(self, l: Lfsr) -> bool {
        &&& 2 <= l.bits <= FIELD_MAX_BITS
        &&& self.bits == l.bits
        &&& self.mask == bits::low_mask(l.bits)
        &&& self.period == l.period()
        &&& self.red <= self.mask
        &&& self.binv@.len() == l.bits
        &&& forall|i: u32|
            i < l.bits ==> self.coordinates(#[trigger] l.state_at(1, i as nat)) == bits::unit(i)
        &&& self.coordinates(l.state_at(1, l.bits as nat)) == self.red
        &&& forall|u: u32| u <= self.mask && #[trigger] self.coordinates(u) == 0 ==> u == 0
    }

    /// Coordinates are ring elements, linear and one-to-one.
    pub proof fn lemma_coordinates(self, l: Lfsr, a: u32, b: u32)
        requires
            self.fits(l),
            a <= self.mask,
            b <= self.mask,
        ensures
            self.ring().valid(),
            self.ring().has(self.coordinates(a)),
            self.coordinates(a ^ b) == self.coordinates(a) ^ self.coordinates(b),
            self.coordinates(0) == 0,
            self.coordinates(a) == self.coordinates(b) ==> a == b,
    {
        let n = l.bits;
        assert forall|i: u32| n <= i < 32 implies !#[trigger] bits::bit(
            self.coordinates(a),
            i,
        ) by {
            lemma_coords_bit(self.binv@, a, i);
        }
        bits::lemma_bounded_by_bits(self.coordinates(a), n);
        lemma_coords_linear(self.binv@, a, b);
        lemma_coords_linear(self.binv@, 0, 0);
        bits::lemma_xor_group(0, 0, 0);
        bits::lemma_xor_group(self.coordinates(0), 0, 0);
        l.lemma_next_linear(a, b);
        if self.coordinates(a) == self.coordinates(b) {
            bits::lemma_xor_group(self.coordinates(a), 0, 0);
            assert(self.coordinates(a ^ b) == 0);
            bits::lemma_xor_group(a, b, 0);
        }
    }

    /// The sum of states selected by `y` has coordinates `y`.
    proof fn lemma_coordinates_of_sum(self, l: Lfsr, y: u32, m: nat, part: u32)
        requires
            self.fits(l),
            m <= l.bits,
            forall|i: u32| i < 32 ==> #[trigger] bits::bit(part, i) == (i < m && bits::bit(y, i)),
        ensures
            self.coordinates(l.orbit_sum(1, y, m)) == part,
        decreases m,
    {
        orbit::lemma_one_in_register(l);
        self.lemma_coordinates(l, 0, 0);
        if m == 0 {
            assert forall|i: u32| i < 32 implies bits::bit(part, i) == bits::bit(0, i) by {
                bits::lemma_word_bits(0, 0, i, i);
            }
            bits::lemma_bits_determine(part, 0);
        } else {
            let i = (m - 1) as u32;
            let s = l.state_at(1, i as nat);
            let sum = l.orbit_sum(1, y, i as nat);
            l.lemma_orbit_sum_bounded(1, y, i as nat);
            l.lemma_state_bounded(1, i as nat);
            if bits::bit(y, i) {
                let rest = part ^ bits::unit(i);
                assert forall|j: u32| j < 32 implies #[trigger] bits::bit(rest, j) == (j < i
                    && bits::bit(y, j)) by {
                    assert(bits::bit(part, j) == (j < m && bits::bit(y, j)));
                    bits::lemma_word_bits(part, bits::unit(i), j, j);
                    bits::lemma_word_bits(0, 0, i, j);
                }
                self.lemma_coordinates_of_sum(l, y, i as nat, rest);
                self.lemma_coordinates(l, sum, s);
                bits::lemma_xor_group(part, bits::unit(i), 0);
            } else {
                assert forall|j: u32| j < 32 implies #[trigger] bits::bit(part, j) == (j < i
                    && bits::bit(y, j)) by {
                    assert(bits::bit(part, j) == (j < m && bits::bit(y, j)));
                }
                self.lemma_coordinates_of_sum(l, y, i as nat, part);
                bits::lemma_xor_group(sum, 0, 0);
            }
        }
    }

    /// Every ring element is the coordinates of a register value.
    pub proof fn lemma_coordinates_onto(self, l: Lfsr, h: u32) -> (s: u32)
        requires
            self.fits(l),
            self.ring().has(h),
        ensures
            s <= self.mask,
            self.coordinates(s) == h,
    {
        let n = l.bits;
        orbit::lemma_one_in_register(l);
        l.lemma_orbit_sum_bounded(1, h, n as nat);
        assert forall|i: u32| i < 32 implies #[trigger] bits::bit(h, i) == (i < n && bits::bit(
            h,
            i,
        )) by {
            bits::lemma_word_bits(h, 0, i, n);
        }
        self.lemma_coordinates_of_sum(l, h, n as nat, h);
        l.orbit_sum(1, h, n as nat)
    }

    /// Stepped sums have shifted coordinates.
    proof fn lemma_coordinates_of_next_sum(self, l: Lfsr, y: u32, m: nat)
        requires
            self.fits(l),
            m <= l.bits,
        ensures
            self.coordinates(l.next(l.orbit_sum(1, y, m))) == self.ring().mulx(
                self.coordinates(l.orbit_sum(1, y, m)),
            ),
        decreases m,
    {
        let g = self.ring();
        orbit::lemma_one_in_register(l);
        self.lemma_coordinates(l, 0, 0);
        g.lemma_mulx(0, 0);
        l.lemma_zero_is_fixed(0);
        if m > 0 {
            let i = (m - 1) as u32;
            let s = l.state_at(1, i as nat);
            let sum = l.orbit_sum(1, y, i as nat);
            self.lemma_coordinates_of_next_sum(l, y, i as nat);
            l.lemma_orbit_sum_bounded(1, y, i as nat);
            l.lemma_state_bounded(1, i as nat);
            l.lemma_state_bounded(1, m);
            l.lemma_next_bounded(sum);
            bits::lemma_xor_group(sum, 0, 0);
            if bits::bit(y, i) {
                l.lemma_next_linear(sum, s);
                self.lemma_coordinates(l, sum, s);
                self.lemma_coordinates(l, s, sum);
                self.lemma_coordinates(l, l.next(sum), l.next(s));
                g.lemma_mulx(self.coordinates(sum), self.coordinates(s));
                assert(l.state_at(1, m) == l.next(s));
                g.lemma_x_to_unit(i);
                assert(self.coordinates(s) == bits::unit(i));
                assert(g.x_to(m) == g.mulx(g.x_to(i as nat)));
                if m < l.bits {
                    g.lemma_x_to_unit(m as u32);
                    assert(self.coordinates(l.state_at(1, (m as u32) as nat)) == bits::unit(
                        m as u32,
                    ));
                } else {
                    gf::lemma_reduces(l.bits, self.red);
                }
                assert(self.coordinates(l.next(s)) == g.mulx(self.coordinates(s)));
            }
        }
    }

    /// A step of the register multiplies its coordinates by `x`.
    pub proof fn lemma_step_is_mulx(self, l: Lfsr, s: u32)
        requires
            self.fits(l),
            s <= self.mask,
        ensures
            self.coordinates(l.next(s)) == self.ring().mulx(self.coordinates(s)),
    {
        let n = l.bits;
        let y = self.coordinates(s);
        orbit::lemma_one_in_register(l);
        self.lemma_coordinates(l, s, s);
        let sum = l.orbit_sum(1, y, n as nat);
        l.lemma_orbit_sum_bounded(1, y, n as nat);
        assert forall|i: u32| i < 32 implies #[trigger] bits::bit(y, i) == (i < n && bits::bit(
            y,
            i,
        )) by {
            lemma_coords_bit(self.binv@, s, i);
        }
        self.lemma_coordinates_of_sum(l, y, n as nat, y);
        self.lemma_coordinates(l, sum, s);
        self.lemma_coordinates_of_next_sum(l, y, n as nat);
    }

    /// `k` steps of the register multiply its coordinates by `x^k`.
    pub proof fn lemma_steps_are_shifts(self, l: Lfsr, s: u32, k: nat)
        requires
            self.fits(l),
            s <= self.mask,
        ensures
            self.coordinates(l.state_at(s, k)) == self.ring().shift_by(self.coordinates(s), k),
        decreases k,
    {
        if k > 0 {
            self.lemma_steps_are_shifts(l, s, (k - 1) as nat);
            l.lemma_state_bounded(s, (k - 1) as nat);
            self.lemma_step_is_mulx(l, l.state_at(s, (k - 1) as nat));
        }
    }

    /// The register `k` steps after 1 is `x^k`.
    pub proof fn lemma_states_are_powers(self, l: Lfsr, k: nat)
        requires
            self.fits(l),
        ensures
            self.coordinates(l.state_at(1, k)) == self.ring().x_to(k),
            self.coordinates(1) == 1,
            self.ring().valid(),
    {
        orbit::lemma_one_in_register(l);
        self.lemma_steps_are_shifts(l, 1, k);
        self.lemma_coordinates(l, 1, 1);
        assert(self.coordinates(l.state_at(1, 0u32 as nat)) == bits::unit(0));
        assert(l.state_at(1, 0) == 1);
        bits::lemma_selector_bounds(0, 0, 0);
    }

    /// If `x^period` is one and no `x^(period / p)` is, for the primes `p` of the
    /// period, the register is maximal-length.
    proof fn lemma_primitive_is_maximal(self, l: Lfsr, factors: Seq<(u64, u64)>)
        requires
            self.fits(l),
            number::is_factorisation(l.period(), factors),
            self.ring().x_to(l.period()) == 1,
            forall|i: int|
                0 <= i < factors.len() ==> self.ring().x_to(
                    l.period() / ((#[trigger] factors[i]).1 as nat),
                ) != 1,
        ensures
            l.maximal(),
    {
        let p = l.period();
        orbit::lemma_one_in_register(l);
        l.lemma_state_bounded(1, p);
        self.lemma_states_are_powers(l, p);
        self.lemma_coordinates(l, l.state_at(1, p), 1);
        assert forall|i: int| 0 <= i < factors.len() implies l.state_at(
            1,
            p / ((#[trigger] factors[i]).1 as nat),
        ) != 1 by {
            self.lemma_states_are_powers(l, p / (factors[i].1 as nat));
        }
        l.lemma_no_early_return(factors);
    }

    /// On a maximal-length register those powers of `x` come out so.
    proof fn lemma_maximal_is_primitive(self, l: Lfsr, q: nat)
        requires
            self.fits(l),
            l.maximal(),
        ensures
            self.ring().x_to(l.period()) == 1,
            0 < q < l.period() ==> self.ring().x_to(q) != 1,
    {
        self.lemma_states_are_powers(l, l.period());
        self.lemma_states_are_powers(l, q);
        orbit::lemma_one_in_register(l);
        l.lemma_state_bounded(1, q);
        self.lemma_coordinates(l, l.state_at(1, q), 1);
    }

    /// Build the field for `l`, or `None` if positions are not discrete logs: the
    /// register is too narrow or too wide, or its polynomial is not primitive.
    pub fn build(l: Lfsr) -> (r: Option<Field>)
        ensures
            r is Some <==> (2 <= l.bits <= FIELD_MAX_BITS && l.maximal()),
            r matches Some(f) ==> f.wf(l),
    {
        let bits: u32 = l.bits;
        if bits < 2 || bits > FIELD_MAX_BITS {
            return None;
        }
        let mask: u32 = l.mask();
        proof {
            bits::lemma_low_mask_is_pow2(bits);
            orbit::lemma_one_in_register(l);
            lemma2_to64();
            lemma_pow2_strictly_increases(1, bits as nat);
            if bits < 32 {
                lemma_pow2_strictly_increases(bits as nat, 32);
            }
        }
        let period: u64 = (1u64 << bits) - 1;
        let n: usize = bits as usize;
        // Power-basis columns cols[i] = T^i(1) (T = step); w = T^bits(1).
        let mut cols: Vec<u32> = Vec::new();
        let mut v: u32 = 1;
        let mut i: usize = 0;
        while i < n
            invariant
                l.valid(),
                i <= n,
                cols@.len() == i,
                v == l.state_at(1, i as nat),
                forall|j: int| 0 <= j < i ==> #[trigger] cols@[j] == l.state_at(1, j as nat),
            decreases n - i,
        {
            cols.push(v);
            l.step(&mut v);
            i = i + 1;
        }
        let w: u32 = v;
        // The matrix with those columns, the identity beside it, and w's bits.
        let mut rows: Vec<u32> = Vec::new();
        let mut inv: Vec<u32> = Vec::new();
        let mut wb: Vec<u8> = Vec::new();
        let one: u32 = 1;
        let mut r: usize = 0;
        while r < n
            invariant
                n == l.bits,
                2 <= l.bits <= 24,
                one == 1,
                w == l.state_at(1, l.bits as nat),
                r <= n,
                cols@.len() == n,
                forall|j: int| 0 <= j < n ==> #[trigger] cols@[j] == l.state_at(1, j as nat),
                rows@.len() == r,
                inv@.len() == r,
                wb@.len() == r,
                forall|q: int| 0 <= q < r ==> #[trigger] inv@[q] == bits::unit(q as u32),
                forall|q: int|
                    0 <= q < r ==> #[trigger] wb@[q] == (if bits::bit(w, q as u32) {
                        1u8
                    } else {
                        0u8
                    }),
                forall|q: int, c: u32|
                    0 <= q < r && c < n ==> #[trigger] bits::bit(rows@[q], c) == bits::bit(
                        l.state_at(1, c as nat),
                        q as u32,
                    ),
            decreases n - r,
        {
            let mut row: u32 = 0;
            let mut c: usize = 0;
            proof {
                assert forall|d: u32| d < 32 implies !#[trigger] bits::bit(0, d) by {
                    bits::lemma_or_bit(0, 0, 0, d);
                }
            }
            while c < n
                invariant
                    n == l.bits,
                    2 <= l.bits <= 24,
                    r < n,
                    c <= n,
                    cols@.len() == n,
                    forall|j: int| 0 <= j < n ==> #[trigger] cols@[j] == l.state_at(1, j as nat),
                    forall|d: u32|
                        d < 32 ==> #[trigger] bits::bit(row, d) == (d < c && bits::bit(
                            l.state_at(1, d as nat),
                            r as u32,
                        )),
                decreases n - c,
            {
                let b: u32 = (cols[c] >> (r as u32)) & 1;
                let ghost before = row;
                row = row | (b << (c as u32));
                proof {
                    bits::lemma_bit_and(cols@[c as int], 0, r as u32);
                    assert(cols@[c as int] == l.state_at(1, c as nat));
                    assert forall|d: u32| d < 32 implies #[trigger] bits::bit(row, d) == (d < c + 1
                        && bits::bit(l.state_at(1, d as nat), r as u32)) by {
                        bits::lemma_or_bit(before, b, c as u32, d);
                        assert(bits::bit(before, d) == (d < c && bits::bit(
                            l.state_at(1, d as nat),
                            r as u32,
                        )));
                    }
                }
                c = c + 1;
            }
            rows.push(row);
            inv.push(one << (r as u32));
            wb.push(((w >> (r as u32)) & 1) as u8);
            proof {
                bits::lemma_bit_and(w, 0, r as u32);
            }
            r = r + 1;
        }
        proof {
            lemma_identity_start(l, rows@, inv@, wb@);
        }
        // Gauss-Jordan over GF(2): drive `rows` to the identity.
        let mut col: usize = 0;
        while col < n
            invariant
                l.valid(),
                n == l.bits,
                2 <= l.bits <= 24,
                col <= n,
                eliminated(l, rows@, inv@, wb@),
                pivoted(l, rows@, col as int),
            decreases n - col,
        {
            let mut sel: usize = col;
            while sel < n && (rows[sel] >> (col as u32)) & 1 == 0
                invariant
                    n == l.bits,
                    2 <= l.bits <= 24,
                    col < n,
                    col <= sel <= n,
                    rows@.len() == n,
                    forall|q: int|
                        col <= q < sel ==> !#[trigger] bits::bit(rows@[q], col as u32),
                decreases n - sel,
            {
                sel = sel + 1;
            }
            if sel >= n {
                proof {
                    lemma_singular_not_maximal(l, rows@, inv@, wb@, col as u32);
                }
                return None;
            }
            proof {
                bits::lemma_bit_and(rows@[sel as int], 0, col as u32);
                lemma_exchange(l, rows@, inv@, wb@, col as int, sel as int);
            }
            let ghost (rows0, inv0, wb0) = (rows@, inv@, wb@);
            let swap_row: u32 = rows[col];
            rows[col] = rows[sel];
            rows[sel] = swap_row;
            let swap_inv: u32 = inv[col];
            inv[col] = inv[sel];
            inv[sel] = swap_inv;
            let swap_wb: u8 = wb[col];
            wb[col] = wb[sel];
            wb[sel] = swap_wb;
            proof {
                assert(rows@ =~= exchanged(rows0, col as int, sel as int));
                assert(inv@ =~= exchanged(inv0, col as int, sel as int));
                assert(wb@ =~= exchanged(wb0, col as int, sel as int));
            }
            let mut r: usize = 0;
            while r < n
                invariant
                    l.valid(),
                    n == l.bits,
                    2 <= l.bits <= 24,
                    col < n,
                    r <= n,
                    eliminated(l, rows@, inv@, wb@),
                    pivoted(l, rows@, col as int),
                    bits::bit(rows@[col as int], col as u32),
                    forall|q: int|
                        0 <= q < r && q != col ==> !#[trigger] bits::bit(rows@[q], col as u32),
                decreases n - r,
            {
                if r != col && (rows[r] >> (col as u32)) & 1 != 0 {
                    let ghost (rows1, inv1, wb1) = (rows@, inv@, wb@);
                    proof {
                        lemma_add_row(l, rows@, inv@, wb@, col as int, r as int);
                        bits::lemma_bit_and(rows@[r as int], 0, col as u32);
                        assert(!bits::bit(rows1[r as int] ^ rows1[col as int], col as u32));
                    }
                    rows[r] = rows[r] ^ rows[col];
                    inv[r] = inv[r] ^ inv[col];
                    wb[r] = wb[r] ^ wb[col];
                    proof {
                        assert(rows@ =~= rows1.update(r as int, rows1[r as int] ^ rows1[col as int]));
                        assert(inv@ =~= inv1.update(r as int, inv1[r as int] ^ inv1[col as int]));
                        assert(wb@ =~= wb1.update(r as int, wb1[r as int] ^ wb1[col as int]));
                    }
                } else {
                    proof {
                        bits::lemma_bit_and(rows@[r as int], 0, col as u32);
                    }
                }
                r = r + 1;
            }
            proof {
                assert forall|q: int, c: u32| 0 <= q < l.bits && c < col + 1 implies #[trigger] bits::bit(
                    rows@[q],
                    c,
                ) == (q == c) by {
                    if c < col {
                        assert(bits::bit(rows@[q], c) == (q == c));
                    }
                }
            }
            col = col + 1;
        }
        let mut red: u32 = 0;
        let mut i: usize = 0;
        proof {
            assert forall|d: u32| d < 32 implies !#[trigger] bits::bit(0, d) by {
                bits::lemma_or_bit(0, 0, 0, d);
            }
        }
        while i < n
            invariant
                n == l.bits,
                2 <= l.bits <= 24,
                one == 1,
                i <= n,
                wb@.len() == n,
                forall|d: u32|
                    d < 32 ==> #[trigger] bits::bit(red, d) == (d < i && wb@[d as int] != 0),
            decreases n - i,
        {
            let b: u32 = if wb[i] != 0 {
                1
            } else {
                0
            };
            let ghost before = red;
            red = red | (b << (i as u32));
            proof {
                assert forall|d: u32| d < 32 implies #[trigger] bits::bit(red, d) == (d < i + 1
                    && wb@[d as int] != 0) by {
                    bits::lemma_or_bit(before, b, i as u32, d);
                    assert(bits::bit(before, d) == (d < i && wb@[d as int] != 0));
                }
            }
            i = i + 1;
        }
        let f: Field = Field { bits, mask, period, red, binv: inv };
        proof {
            lemma_identity_end(l, rows@, inv@, wb@, red);
            f.lemma_states_are_powers(l, 0);
            f.ring().lemma_x_is_two();
        }
        // Primitivity: x must generate the whole group, so x^period is one and
        // x^(period/p) is not, for every prime p of the period.
        if f.pow(2, period) != 1 {
            proof {
                f.ring().lemma_power_of_x(2, 1, period as nat);
                lemma_mul_basics(period as int);
                if l.maximal() {
                    f.lemma_maximal_is_primitive(l, 0);
                }
            }
            return None;
        }
        let factors: Vec<(u64, u64)> = factor_prime_powers(period);
        let mut j: usize = 0;
        while j < factors.len()
            invariant
                f.fits(l),
                f.ring().valid(),
                f.ring().has(2),
                f.ring().x_to(1) == 2,
                period == l.period(),
                period > 0,
                number::is_factorisation(period as nat, factors@),
                j <= factors@.len(),
                forall|q: int|
                    0 <= q < j ==> f.ring().x_to(
                        l.period() / ((#[trigger] factors@[q]).1 as nat),
                    ) != 1,
            decreases factors@.len() - j,
        {
            let p: u64 = factors[j].1;
            let ghost q = period as nat / (p as nat);
            proof {
                assert(number::is_prime(factors@[j as int].1 as int));
                f.ring().lemma_power_of_x(2, 1, q);
                lemma_mul_basics(q as int);
            }
            if f.pow(2, period / p) == 1 {
                proof {
                    if l.maximal() {
                        f.lemma_maximal_is_primitive(l, q);
                        lemma_prime_quotient(period as nat, factors@, j as int);
                    }
                }
                return None;
            }
            j = j + 1;
        }
        proof {
            f.ring().lemma_power_of_x(2, 1, period as nat);
            lemma_mul_basics(period as int);
            f.lemma_primitive_is_maximal(l, factors@);
        }
        Some(f)
    }

    /// Map a register value into power-basis coordinates.
    pub fn phi(&self, state: u32) -> (out: u32)
        requires
            self.binv@.len() <= 32,
        ensures
            out == self.coordinates(state),
    {
        let mut out: u32 = 0;
        let mut i: usize = 0;
        proof {
            assert(self.binv@.take(0) =~= Seq::empty());
        }
        while i < self.binv.len()
            invariant
                i <= self.binv@.len() <= 32,
                out == coords(self.binv@.take(i as int), state),
            decreases self.binv@.len() - i,
        {
            proof {
                let t = self.binv@.take(i + 1);
                assert(t.drop_last() =~= self.binv@.take(i as int));
                assert(t.last() == self.binv@[i as int]);
            }
            out = out | (parity(self.binv[i] & state) << (i as u32));
            i = i + 1;
        }
        proof {
            assert(self.binv@.take(i as int) =~= self.binv@);
        }
        out
    }

    pub fn mul(&self, a: u32, b: u32) -> (r: u32)
        requires
            1 <= self.bits <= 32,
        ensures
            r == self.ring().times(a, b),
    {
        gf_mul(a, b, self.bits, self.red)
    }

    pub fn pow(&self, a: u32, e: u64) -> (r: u32)
        requires
            self.ring().valid(),
            self.ring().has(a),
        ensures
            r == self.ring().power(a, e as nat),
    {
        gf_pow(a, e, self.bits, self.red)
    }

    /// Turn a raw discrete log (base `x`) of a register value into an absolute
    /// position, given the log of the seed.
    pub fn position_from_log(&self, log: u32, dseed: u32) -> (k: u32)
        requires
            0 < self.period <= u32::MAX,
        ensures
            k as int == (log - dseed) % (self.period as int),
    {
        let period: u64 = self.period;
        let a: u64 = (log as u64) % period;
        let b: u64 = (dseed as u64) % period;
        proof {
            lemma_sub_mod_noop(log as int, dseed as int, period as int);
            lemma_mod_add_multiples_vanish(a - b, period as int);
        }
        ((a + period - b) % period) as u32
    }
}

} // verus!
