//! Linear recurrences over GF(2), and how short one can be.

use vstd::prelude::*;

verus! {

/// XOR of `f(0) .. f(n - 1)`.
pub open spec fn xor_sum(f: spec_fn(int) -> bool, n: nat) -> bool
    decreases n,
{
    if n == 0 {
        false
    } else {
        xor_sum(f, (n - 1) as nat) != f(n - 1)
    }
}

/// Symbol `t` of a bit sequence; there is nothing before the start.
pub open spec fn symbol(s: Seq<u8>, t: int) -> bool {
    0 <= t < s.len() && s[t] & 1 == 1
}

/// Coefficient `j` of a connection polynomial.
pub open spec fn coef(c: Seq<u8>, j: int) -> bool {
    0 <= j < c.len() && c[j] == 1
}

/// What the recurrence of length `l` with connection polynomial `c` says of
/// symbol `n`: the XOR of `s[n - i]` over the `i` in `1..=l` with `c[i] == 1`.
pub open spec fn predicted(s: Seq<u8>, c: Seq<u8>, n: int, l: nat) -> bool
    decreases l,
{
    if l == 0 {
        false
    } else {
        predicted(s, c, n, (l - 1) as nat) != (coef(c, l as int) && symbol(s, n - l))
    }
}

/// The recurrence gives every symbol of the first `upto` that has `l` before it.
pub open spec fn generates(s: Seq<u8>, c: Seq<u8>, l: nat, upto: int) -> bool {
    &&& coef(c, 0)
    &&& forall|n: int| l <= n < upto ==> symbol(s, n) == #[trigger] predicted(s, c, n, l)
}

/// No shorter recurrence gives the first `upto` symbols.
pub open spec fn shortest(s: Seq<u8>, l: nat, upto: int) -> bool {
    forall|c: Seq<u8>, k: nat| #[trigger] generates(s, c, k, upto) ==> l <= k
}

/// The constant polynomial 1, in `n` coefficients.
pub open spec fn one(n: nat) -> Seq<u8> {
    Seq::new(
        n,
        |j: int|
            if j == 0 {
                1u8
            } else {
                0u8
            },
    )
}

/// The sum of `c` and `b` times the `m`-th power, in as many coefficients as `c`.
pub open spec fn added(c: Seq<u8>, b: Seq<u8>, m: nat) -> Seq<u8> {
    Seq::new(
        c.len(),
        |j: int|
            if coef(c, j) != coef(b, j - m) {
                1u8
            } else {
                0u8
            },
    )
}

/// A recurrence under construction: `c` with length `l`, and `b`, which it was
/// before it last became longer, `m` symbols after the failure of `b`.
pub struct Massey {
    pub c: Seq<u8>,
    pub b: Seq<u8>,
    pub l: nat,
    pub m: nat,
}

/// The recurrence built from the first `i` symbols: where it fails to predict the
/// next one, `b` is shifted to the failure and added, and the recurrence becomes
/// longer if it was at most half as long as what came before.
pub open spec fn massey(s: Seq<u8>, i: nat) -> Massey
    decreases i,
{
    if i == 0 {
        Massey { c: one(s.len() + 1), b: one(s.len() + 1), l: 0, m: 1 }
    } else {
        let k = (i - 1) as nat;
        let last = massey(s, k);
        let c = added(last.c, last.b, last.m);
        if symbol(s, k as int) == predicted(s, last.c, k as int, last.l) {
            Massey { m: last.m + 1, ..last }
        } else if 2 * last.l <= k {
            Massey { c, b: last.c, l: (k + 1 - last.l) as nat, m: 1 }
        } else {
            Massey { c, m: last.m + 1, ..last }
        }
    }
}

/// The contribution of coefficient `j` to the check of symbol `n`.
pub open spec fn term(s: Seq<u8>, c: Seq<u8>, n: int) -> spec_fn(int) -> bool {
    |j: int| coef(c, j) && symbol(s, n - j)
}

pub proof fn lemma_xor_sum_same(f: spec_fn(int) -> bool, g: spec_fn(int) -> bool, n: nat)
    requires
        forall|i: int| 0 <= i < n ==> #[trigger] f(i) == g(i),
    ensures
        xor_sum(f, n) == xor_sum(g, n),
    decreases n,
{
    if n > 0 {
        lemma_xor_sum_same(f, g, (n - 1) as nat);
        assert(f(n - 1) == g(n - 1));
    }
}

pub proof fn lemma_xor_sum_zero(f: spec_fn(int) -> bool, m: nat, n: nat)
    requires
        m <= n,
        forall|i: int| m <= i < n ==> !#[trigger] f(i),
    ensures
        xor_sum(f, n) == xor_sum(f, m),
    decreases n,
{
    if m < n {
        lemma_xor_sum_zero(f, m, (n - 1) as nat);
        assert(!f(n - 1));
    }
}

pub proof fn lemma_xor_sum_adds(
    f: spec_fn(int) -> bool,
    g: spec_fn(int) -> bool,
    h: spec_fn(int) -> bool,
    n: nat,
)
    requires
        forall|i: int| 0 <= i < n ==> #[trigger] h(i) == (f(i) != g(i)),
    ensures
        xor_sum(h, n) == (xor_sum(f, n) != xor_sum(g, n)),
    decreases n,
{
    if n > 0 {
        lemma_xor_sum_adds(f, g, h, (n - 1) as nat);
        assert(h(n - 1) == (f(n - 1) != g(n - 1)));
    }
}

/// The first summand taken out.
pub proof fn lemma_xor_sum_first(f: spec_fn(int) -> bool, g: spec_fn(int) -> bool, n: nat)
    requires
        forall|i: int| 0 <= i < n ==> #[trigger] g(i) == f(i + 1),
    ensures
        xor_sum(f, n + 1) == (f(0) != xor_sum(g, n)),
    decreases n,
{
    if n == 0 {
        reveal_with_fuel(xor_sum, 2);
    } else {
        lemma_xor_sum_first(f, g, (n - 1) as nat);
        assert(g(n - 1) == f(n - 1 + 1));
    }
}

/// A sum read backwards.
pub proof fn lemma_xor_sum_reversed(f: spec_fn(int) -> bool, g: spec_fn(int) -> bool, n: nat)
    requires
        forall|i: int| 0 <= i < n ==> #[trigger] g(i) == f(n - 1 - i),
    ensures
        xor_sum(f, n) == xor_sum(g, n),
    decreases n,
{
    if n > 0 {
        let rest = |i: int| f(i + 1);
        lemma_xor_sum_first(f, rest, (n - 1) as nat);
        assert forall|i: int| 0 <= i < n - 1 implies #[trigger] g(i) == rest(n - 1 - 1 - i) by {}
        lemma_xor_sum_reversed(rest, g, (n - 1) as nat);
        assert(g(n - 1) == f(0));
    }
}

/// A double sum may be taken in either order.
pub proof fn lemma_xor_sum_exchanges(g: spec_fn(int, int) -> bool, n: nat, m: nat)
    ensures
        xor_sum(|j: int| xor_sum(|k: int| g(j, k), m), n) == xor_sum(
            |k: int| xor_sum(|j: int| g(j, k), n),
            m,
        ),
    decreases n,
{
    let rows = |j: int| xor_sum(|k: int| g(j, k), m);
    let columns = |k: int| xor_sum(|j: int| g(j, k), n);
    if n == 0 {
        lemma_xor_sum_zero(columns, 0, m);
    } else {
        let fewer = |k: int| xor_sum(|j: int| g(j, k), (n - 1) as nat);
        let last = |k: int| g(n - 1, k);
        lemma_xor_sum_exchanges(g, (n - 1) as nat, m);
        lemma_xor_sum_adds(fewer, last, columns, m);
    }
}

/// The check of symbol `n` is the symbol against its prediction.
pub proof fn lemma_check_is_prediction(s: Seq<u8>, c: Seq<u8>, n: int, l: nat)
    requires
        coef(c, 0),
    ensures
        xor_sum(term(s, c, n), l + 1) == (symbol(s, n) != predicted(s, c, n, l)),
    decreases l,
{
    if l == 0 {
        reveal_with_fuel(xor_sum, 2);
    } else {
        lemma_check_is_prediction(s, c, n, (l - 1) as nat);
    }
}

/// If a recurrence of length `l` gives the first `i` symbols and fails at the
/// next, every recurrence that gives that one too has length `i + 1 - l` or more.
pub proof fn lemma_failure_lengthens(s: Seq<u8>, c: Seq<u8>, l: nat, i: int, c2: Seq<u8>, l2: nat)
    requires
        generates(s, c, l, i),
        l <= i,
        symbol(s, i) != predicted(s, c, i, l),
        generates(s, c2, l2, i + 1),
    ensures
        l + l2 >= i + 1,
{
    if l + l2 <= i {
        let g = |j: int, k: int| coef(c, j) && coef(c2, k) && symbol(s, i - j - k);
        let rows = |j: int| xor_sum(|k: int| g(j, k), l2 + 1);
        let columns = |k: int| xor_sum(|j: int| g(j, k), l + 1);
        lemma_xor_sum_exchanges(g, l + 1, l2 + 1);
        // By rows: each is a check of the second recurrence, which holds.
        assert forall|j: int| 0 <= j < l + 1 implies !#[trigger] rows(j) by {
            let row = |k: int| g(j, k);
            if coef(c, j) {
                lemma_xor_sum_same(row, term(s, c2, i - j), l2 + 1);
                lemma_check_is_prediction(s, c2, i - j, l2);
                assert(symbol(s, i - j) == predicted(s, c2, i - j, l2));
            } else {
                lemma_xor_sum_zero(row, 0, l2 + 1);
            }
        }
        lemma_xor_sum_zero(rows, 0, l + 1);
        // By columns: each is a check of the first, which fails at `i` alone.
        assert forall|k: int| 1 <= k < l2 + 1 implies !#[trigger] columns(k) by {
            let column = |j: int| g(j, k);
            if coef(c2, k) {
                assert forall|j: int| 0 <= j < l + 1 implies #[trigger] column(j) == term(
                    s,
                    c,
                    i - k,
                )(j) by {
                    assert(i - j - k == i - k - j);
                }
                lemma_xor_sum_same(column, term(s, c, i - k), l + 1);
                lemma_check_is_prediction(s, c, i - k, l);
                assert(symbol(s, i - k) == predicted(s, c, i - k, l));
            } else {
                lemma_xor_sum_zero(column, 0, l + 1);
            }
        }
        lemma_xor_sum_zero(columns, 1, l2 + 1);
        let first = |j: int| g(j, 0);
        lemma_xor_sum_same(first, term(s, c, i), l + 1);
        lemma_check_is_prediction(s, c, i, l);
        assert(xor_sum(columns, 1) == columns(0)) by {
            reveal_with_fuel(xor_sum, 2);
        }
        assert(columns(0) == xor_sum(first, l + 1));
    }
}

/// A sum whose summands start `m` places later.
pub proof fn lemma_xor_sum_shifted(f: spec_fn(int) -> bool, g: spec_fn(int) -> bool, m: nat, k: nat)
    requires
        forall|j: int| 0 <= j < m ==> !#[trigger] f(j),
        forall|j: int| m <= j < m + k ==> #[trigger] f(j) == g(j - m),
    ensures
        xor_sum(f, m + k) == xor_sum(g, k),
    decreases k,
{
    if k == 0 {
        lemma_xor_sum_zero(f, 0, m);
    } else {
        lemma_xor_sum_shifted(f, g, m, (k - 1) as nat);
        assert((m + k - 1) as nat == m + (k - 1) as nat);
        assert(f(m + k - 1) == g(m + k - 1 - m));
    }
}

/// Coefficients end at `l`.
pub open spec fn degree_within(c: Seq<u8>, l: nat) -> bool {
    forall|j: int| j > l ==> !#[trigger] coef(c, j)
}

/// A recurrence `c` that gives the symbols before `i` but fails at `i`, corrected
/// by `b` shifted up by `m`, which gives the symbols before `i - m` but fails at
/// `i - m`.
pub proof fn lemma_corrected(
    s: Seq<u8>,
    c: Seq<u8>,
    l: nat,
    i: int,
    b: Seq<u8>,
    lb: nat,
    m: nat,
    fixed: Seq<u8>,
    l2: nat,
)
    requires
        generates(s, c, l, i),
        degree_within(c, l),
        symbol(s, i) != predicted(s, c, i, l),
        degree_within(b, lb),
        coef(b, 0),
        m >= 1,
        l <= l2,
        m + lb <= l2,
        l2 <= i ==> generates(s, b, lb, i - m) && lb <= i - m && symbol(s, i - m) != predicted(
            s,
            b,
            i - m,
            lb,
        ),
        forall|j: int| #[trigger] coef(fixed, j) == (coef(c, j) != coef(b, j - m)),
    ensures
        generates(s, fixed, l2, i + 1),
        degree_within(fixed, l2),
{
    assert(coef(fixed, 0) == (coef(c, 0) != coef(b, 0 - m)));
    assert forall|j: int| j > l2 implies !#[trigger] coef(fixed, j) by {
        assert(!coef(c, j) && !coef(b, j - m));
    }
    assert forall|n: int| l2 <= n < i + 1 implies symbol(s, n) == #[trigger] predicted(
        s,
        fixed,
        n,
        l2,
    ) by {
        let shifted = |j: int| coef(b, j - m) && symbol(s, n - j);
        let of_b = term(s, b, n - m);
        let k = (l2 + 1 - m) as nat;
        lemma_xor_sum_adds(term(s, c, n), shifted, term(s, fixed, n), l2 + 1);
        lemma_xor_sum_zero(term(s, c, n), l + 1, l2 + 1);
        assert forall|j: int| m <= j < m + k implies #[trigger] shifted(j) == of_b(j - m) by {
            assert(n - j == n - m - (j - m));
        }
        lemma_xor_sum_shifted(shifted, of_b, m, k);
        assert(m + k == l2 + 1);
        lemma_xor_sum_zero(of_b, lb + 1, k);
        lemma_check_is_prediction(s, c, n, l);
        lemma_check_is_prediction(s, b, n - m, lb);
        lemma_check_is_prediction(s, fixed, n, l2);
        if n < i {
            assert(symbol(s, n) == predicted(s, c, n, l));
            assert(symbol(s, n - m) == predicted(s, b, n - m, lb));
        }
    }
}

/// A recurrence keeps giving symbols that it predicts.
pub proof fn lemma_generates_more(s: Seq<u8>, c: Seq<u8>, l: nat, i: int)
    requires
        generates(s, c, l, i),
        symbol(s, i) == predicted(s, c, i, l),
    ensures
        generates(s, c, l, i + 1),
{
}

/// A shorter prefix needs no longer recurrence.
pub proof fn lemma_shortest_grows(s: Seq<u8>, l: nat, i: int)
    requires
        shortest(s, l, i),
    ensures
        shortest(s, l, i + 1),
{
    assert forall|c: Seq<u8>, k: nat| #[trigger] generates(s, c, k, i + 1) implies l <= k by {
        assert(generates(s, c, k, i)) by {
            assert forall|n: int| k <= n < i implies symbol(s, n) == #[trigger] predicted(
                s,
                c,
                n,
                k,
            ) by {}
        }
    }
}

/// The recurrence after a failure at `i` is as short as it can be.
pub proof fn lemma_shortest_after_failure(s: Seq<u8>, c: Seq<u8>, l: nat, i: int, l2: nat)
    requires
        shortest(s, l, i),
        generates(s, c, l, i),
        l <= i,
        symbol(s, i) != predicted(s, c, i, l),
        l2 == l || l2 == i + 1 - l,
    ensures
        shortest(s, l2, i + 1),
{
    lemma_shortest_grows(s, l, i);
    assert forall|d: Seq<u8>, k: nat| #[trigger] generates(s, d, k, i + 1) implies l2 <= k by {
        lemma_failure_lengthens(s, c, l, i, d, k);
    }
}

/// The first symbol at which a recurrence fails.
proof fn lemma_first_failure(s: Seq<u8>, c: Seq<u8>, l: nat, from: int, upto: int) -> (i: int)
    requires
        from <= upto,
        generates(s, c, l, from),
        !generates(s, c, l, upto),
    ensures
        from <= i < upto,
        l <= i,
        generates(s, c, l, i),
        symbol(s, i) != predicted(s, c, i, l),
    decreases upto - from,
{
    if from < l || symbol(s, from) == predicted(s, c, from, l) {
        assert(generates(s, c, l, from + 1));
        lemma_first_failure(s, c, l, from + 1, upto)
    } else {
        from
    }
}

/// Two recurrences that agree in the coefficients below `m` but not in `m` give,
/// by their difference, one that is shorter by `m`, for as many symbols fewer.
proof fn lemma_difference_generates(
    s: Seq<u8>,
    c: Seq<u8>,
    d: Seq<u8>,
    l: nat,
    m: nat,
) -> (e: Seq<u8>)
    requires
        generates(s, c, l, s.len() as int),
        generates(s, d, l, s.len() as int),
        1 <= m <= l,
        forall|j: int| 0 <= j < m ==> #[trigger] coef(c, j) == coef(d, j),
        coef(c, m as int) != coef(d, m as int),
    ensures
        generates(s, e, (l - m) as nat, s.len() - m),
{
    let k = (l - m) as nat;
    let e = Seq::new(
        k + 1,
        |j: int|
            if coef(c, j + m) != coef(d, j + m) {
                1u8
            } else {
                0u8
            },
    );
    assert forall|n: int| k <= n < s.len() - m implies symbol(s, n) == #[trigger] predicted(
        s,
        e,
        n,
        k,
    ) by {
        let t = n + m;
        let both = |j: int| (coef(c, j) != coef(d, j)) && symbol(s, t - j);
        lemma_xor_sum_adds(term(s, c, t), term(s, d, t), both, l + 1);
        lemma_check_is_prediction(s, c, t, l);
        lemma_check_is_prediction(s, d, t, l);
        assert(symbol(s, t) == predicted(s, c, t, l));
        assert(symbol(s, t) == predicted(s, d, t, l));
        assert forall|j: int| m <= j < m + (k + 1) implies #[trigger] both(j) == term(s, e, n)(
            j - m,
        ) by {
            assert(t - j == n - (j - m));
        }
        lemma_xor_sum_shifted(both, term(s, e, n), m, k + 1);
        lemma_check_is_prediction(s, e, n, k);
    }
    e
}

proof fn lemma_unique_below(s: Seq<u8>, c: Seq<u8>, d: Seq<u8>, l: nat, m: nat)
    requires
        generates(s, c, l, s.len() as int),
        generates(s, d, l, s.len() as int),
        shortest(s, l, s.len() as int),
        2 * l <= s.len(),
        m <= l + 1,
    ensures
        forall|j: int| 0 <= j < m ==> #[trigger] coef(c, j) == coef(d, j),
    decreases m,
{
    if m > 0 {
        let j = (m - 1) as nat;
        lemma_unique_below(s, c, d, l, j);
        if coef(c, j as int) != coef(d, j as int) {
            let e = lemma_difference_generates(s, c, d, l, j);
            let k = (l - j) as nat;
            if !generates(s, e, k, s.len() as int) {
                let i = lemma_first_failure(s, e, k, s.len() - j, s.len() as int);
                assert(generates(s, c, l, i + 1));
                lemma_failure_lengthens(s, e, k, i, c, l);
            }
        }
    }
}

/// The shortest recurrence of at least twice as many symbols as it is long is the
/// only one of its length.
pub proof fn lemma_shortest_is_unique(s: Seq<u8>, c: Seq<u8>, d: Seq<u8>, l: nat)
    requires
        generates(s, c, l, s.len() as int),
        generates(s, d, l, s.len() as int),
        shortest(s, l, s.len() as int),
        2 * l <= s.len(),
    ensures
        forall|j: int| 0 <= j <= l ==> #[trigger] coef(c, j) == coef(d, j),
{
    lemma_unique_below(s, c, d, l, l + 1);
}

/// The length never falls.
proof fn lemma_length_grows(s: Seq<u8>, i: nat, j: nat)
    requires
        i <= j,
    ensures
        massey(s, i).l <= massey(s, j).l,
    decreases j,
{
    if i < j {
        lemma_length_grows(s, i, (j - 1) as nat);
    }
}

/// Where the polynomial that corrections are made with comes from: it is the one
/// from before the last growth, and its distance that to the growth.
proof fn lemma_correction_source(s: Seq<u8>, i: nat)
    requires
        i <= s.len(),
    ensures
        ({
            let now = massey(s, i);
            &&& 1 <= now.m <= i + 1
            &&& now.l <= i
            &&& now.c.len() == s.len() + 1
            &&& now.l == 0 ==> now.m == i + 1 && now.b == one(s.len() + 1) && now.c == one(
                s.len() + 1,
            )
            &&& now.l > 0 ==> {
                let from = (i - now.m) as nat;
                &&& now.m <= i
                &&& now.b == massey(s, from).c
                &&& massey(s, from).l < massey(s, from + 1).l
                &&& massey(s, from + 1).l == now.l
            }
        }),
    decreases i,
{
    if i > 0 {
        let k = (i - 1) as nat;
        let last = massey(s, k);
        let now = massey(s, i);
        lemma_correction_source(s, k);
        if now.l > 0 {
            let from = (i - now.m) as nat;
            if last.l == 0 {
                assert(from == k);
            } else if symbol(s, k as int) != predicted(s, last.c, k as int, last.l) && 2 * last.l
                <= k {
                assert(from == k);
            } else {
                assert(from == (k - last.m) as nat);
            }
        }
    }
}

/// How the answer for a run changes with one symbol more. Where the recurrence
/// predicts it, both its length and its polynomial stay. Where it fails, the
/// length becomes what the failure forces, and the polynomial is corrected by the
/// one that held before the length last grew, shifted by the distance to that
/// growth; before any growth, by the power that lies one beyond the run.
pub proof fn lemma_answer_grows_by_correction(s: Seq<u8>, i: nat, grown: nat)
    requires
        i < s.len(),
        grown < i && massey(s, grown).l < massey(s, grown + 1).l && massey(s, grown + 1).l
            == massey(s, i).l || massey(s, i).l == 0,
    ensures
        massey(s, 0).l == 0,
        forall|j: int| #[trigger] coef(massey(s, 0).c, j) <==> j == 0,
        ({
            let now = massey(s, i);
            let next = massey(s, i + 1);
            if symbol(s, i as int) == predicted(s, now.c, i as int, now.l) {
                &&& next.l == now.l
                &&& next.c == now.c
            } else {
                &&& next.l == (if now.l <= i + 1 - now.l {
                    (i + 1 - now.l) as nat
                } else {
                    now.l
                })
                &&& now.l == 0 ==> forall|j: int| #[trigger]
                    coef(next.c, j) <==> j == 0 || j == i + 1
                &&& now.l > 0 ==> forall|j: int|
                    0 <= j <= s.len() ==> #[trigger] coef(next.c, j) == (coef(now.c, j) != coef(
                        massey(s, grown).c,
                        j - (i - grown),
                    ))
            }
        }),
{
    let now = massey(s, i);
    let next = massey(s, i + 1);
    lemma_correction_source(s, i);
    if now.l > 0 {
        let from = (i - now.m) as nat;
        if grown < from {
            lemma_length_grows(s, grown + 1, from);
        } else if grown > from {
            lemma_length_grows(s, from + 1, grown);
        }
    }
    if symbol(s, i as int) != predicted(s, now.c, i as int, now.l) {
        assert(next.c == added(now.c, now.b, now.m));
    }
}

} // verus!
