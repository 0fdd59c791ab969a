//! The laws of the base field: with `xor_bits` as sum and `field_mul` as
//! product, the sequences of `N` coefficients form a commutative ring.
use crate::bits::{
    bit_at, conv, conv_bit, conv_term, field_mul, fold_bit, fold_down, reduce, unit, xor_bits,
    xor_sum, zeros,
};
use crate::sums::{column, lemma_xor_sum_single, lemma_xor_sum_swap, row};
use vstd::prelude::*;

verus! {

/// `a + b = b + a`.
pub proof fn lemma_add_commutative(a: Seq<bool>, b: Seq<bool>)
    requires
        a.len() == b.len(),
    ensures
        xor_bits(a, b) == xor_bits(b, a),
{
    assert(xor_bits(a, b) =~= xor_bits(b, a));
}

/// `(a + b) + c = a + (b + c)`.
pub proof fn lemma_add_associative(a: Seq<bool>, b: Seq<bool>, c: Seq<bool>)
    requires
        a.len() == b.len(),
        b.len() == c.len(),
    ensures
        xor_bits(xor_bits(a, b), c) == xor_bits(a, xor_bits(b, c)),
{
    assert(xor_bits(xor_bits(a, b), c) =~= xor_bits(a, xor_bits(b, c)));
}

/// `a + 0 = a`.
pub proof fn lemma_add_zero(a: Seq<bool>)
    ensures
        xor_bits(a, zeros(a.len())) == a,
{
    assert(xor_bits(a, zeros(a.len())) =~= a);
}

/// `a + a = 0`.
pub proof fn lemma_add_self(a: Seq<bool>)
    ensures
        xor_bits(a, a) == zeros(a.len()),
{
    assert(xor_bits(a, a) =~= zeros(a.len()));
}

/// The term of the double sum behind coefficient `k` of a product.
pub open spec fn pair_term(a: Seq<bool>, b: Seq<bool>, k: int) -> spec_fn(int, int) -> bool {
    |i: int, j: int| i + j == k && bit_at(a, i) && bit_at(b, j)
}

/// Coefficient `k` of `a * b` is coefficient `k` of `b * a`.
pub proof fn lemma_conv_bit_commutative(a: Seq<bool>, b: Seq<bool>, k: int)
    ensures
        conv_bit(a, b, k) == conv_bit(b, a, k),
{
    let h = pair_term(a, b, k);
    let r = conv_term(a, b, k);
    let c = conv_term(b, a, k);
    assert forall|i: int| 0 <= i < a.len() implies #[trigger] r(i) == xor_sum(
        row(h, i),
        b.len(),
    ) by {
        lemma_xor_sum_single(row(h, i), b.len(), k - i);
    }
    assert forall|j: int| 0 <= j < b.len() implies #[trigger] c(j) == xor_sum(
        column(h, j),
        a.len(),
    ) by {
        lemma_xor_sum_single(column(h, j), a.len(), k - j);
    }
    lemma_xor_sum_swap(h, r, c, a.len(), b.len());
}

/// The carry-less product does not depend on the order of its factors.
pub proof fn lemma_conv_commutative(a: Seq<bool>, b: Seq<bool>)
    ensures
        conv(a, b) == conv(b, a),
{
    assert forall|k: int| 0 <= k < a.len() + b.len() - 1 implies conv_bit(a, b, k) == conv_bit(
        b,
        a,
        k,
    ) by {
        lemma_conv_bit_commutative(a, b, k);
    }
    assert(conv(a, b) =~= conv(b, a));
}

/// `a * b = b * a`.
pub proof fn lemma_mul_commutative(poly: Seq<bool>, a: Seq<bool>, b: Seq<bool>)
    ensures
        field_mul(poly, a, b) == field_mul(poly, b, a),
{
    lemma_conv_commutative(a, b);
}

/// The product of `v` and `x` modulo the polynomial of `poly`.
pub open spec fn times_x(poly: Seq<bool>, v: Seq<bool>) -> Seq<bool> {
    Seq::new(
        poly.len(),
        |k: int| (k >= 1 && v[k - 1]) ^ (v[poly.len() - 1] && poly[poly.len() - 1 - k]),
    )
}

/// The product of `v` and `x^i` modulo the polynomial of `poly`.
pub open spec fn times_x_pow(poly: Seq<bool>, v: Seq<bool>, i: nat) -> Seq<bool>
    decreases i,
{
    if i == 0 {
        v
    } else {
        times_x(poly, times_x_pow(poly, v, (i - 1) as nat))
    }
}

/// The sum of the `a[i] * x^i * b` modulo the polynomial, over `i < n`.
pub open spec fn horner(poly: Seq<bool>, a: Seq<bool>, b: Seq<bool>, n: nat) -> Seq<bool>
    decreases n,
{
    if n == 0 {
        zeros(poly.len())
    } else {
        let rest = horner(poly, a, b, (n - 1) as nat);
        if a[n - 1] {
            xor_bits(rest, times_x_pow(poly, b, (n - 1) as nat))
        } else {
            rest
        }
    }
}

/// `t` moved up by one place inside its buffer.
pub open spec fn shift_up(t: Seq<bool>) -> Seq<bool> {
    Seq::new(t.len(), |k: int| k >= 1 && t[k - 1])
}

/// `b` moved up by `i` places inside a buffer of `len` coefficients.
pub open spec fn shifted(b: Seq<bool>, i: int, len: nat) -> Seq<bool> {
    Seq::new(len, |k: int| bit_at(b, k - i))
}

/// The first `n` rows of the carry-less product of two sequences of equal
/// length.
pub open spec fn conv_rows(a: Seq<bool>, b: Seq<bool>, n: nat) -> Seq<bool> {
    Seq::new((a.len() + b.len() - 1) as nat, |k: int| xor_sum(conv_term(a, b, k), n))
}

proof fn lemma_fold_down_len(poly: Seq<bool>, t: Seq<bool>, m: nat)
    ensures
        fold_down(poly, t, m).len() == t.len(),
    decreases m,
{
    if m > poly.len() {
        lemma_fold_down_len(poly, fold_bit(poly, t, m - 1), (m - 1) as nat);
    }
}

/// The reduction steps below `m` are skipped where the coefficients from
/// `lo` up to `m` are all zero.
proof fn lemma_fold_down_zero_top(poly: Seq<bool>, t: Seq<bool>, m: nat, lo: nat)
    requires
        poly.len() <= lo <= m <= t.len(),
        forall|k: int| lo <= k < m ==> !#[trigger] t[k],
    ensures
        fold_down(poly, t, m) == fold_down(poly, t, lo),
    decreases m,
{
    if m > lo {
        assert(!t[m - 1]);
        assert(fold_bit(poly, t, m - 1) == t);
        lemma_fold_down_zero_top(poly, t, (m - 1) as nat, lo);
    }
}

/// The reduction of a sum is the sum of the reductions.
proof fn lemma_fold_down_xor(poly: Seq<bool>, s: Seq<bool>, t: Seq<bool>, m: nat)
    requires
        s.len() == t.len(),
        m <= s.len(),
    ensures
        fold_down(poly, xor_bits(s, t), m) == xor_bits(
            fold_down(poly, s, m),
            fold_down(poly, t, m),
        ),
    decreases m,
{
    if m > poly.len() {
        let i = m - 1;
        assert(fold_bit(poly, xor_bits(s, t), i) =~= xor_bits(
            fold_bit(poly, s, i),
            fold_bit(poly, t, i),
        ));
        lemma_fold_down_xor(poly, fold_bit(poly, s, i), fold_bit(poly, t, i), (m - 1) as nat);
    }
}

/// Moving a polynomial up by one place multiplies its remainder by `x`.
proof fn lemma_fold_down_shift(poly: Seq<bool>, t: Seq<bool>, m: nat)
    requires
        1 <= poly.len() <= m < t.len(),
    ensures
        fold_down(poly, shift_up(t), m + 1).take(poly.len() as int) == times_x(
            poly,
            fold_down(poly, t, m).take(poly.len() as int),
        ),
    decreases m,
{
    let n = poly.len();
    if m == n {
        let u = fold_bit(poly, shift_up(t), n as int);
        assert(fold_down(poly, shift_up(t), n + 1) == fold_down(poly, u, n));
        assert(fold_down(poly, u, n) == u);
        assert(u.take(n as int) =~= times_x(poly, t.take(n as int)));
    } else {
        let below = fold_bit(poly, t, m - 1);
        assert(fold_bit(poly, shift_up(t), m as int) =~= shift_up(below));
        lemma_fold_down_shift(poly, below, (m - 1) as nat);
    }
}

/// The remainder of `x^i * b` is `b` multiplied `i` times by `x`.
proof fn lemma_reduce_shifted(poly: Seq<bool>, b: Seq<bool>, i: nat)
    requires
        1 <= poly.len(),
        b.len() == poly.len(),
        i < poly.len(),
    ensures
        reduce(poly, shifted(b, i as int, (2 * poly.len() - 1) as nat)) == times_x_pow(poly, b, i),
    decreases i,
{
    let n = poly.len();
    let len = (2 * n - 1) as nat;
    let t = shifted(b, i as int, len);
    lemma_fold_down_zero_top(poly, t, len, n + i);
    if i == 0 {
        lemma_fold_down_zero_top(poly, t, n, n);
        assert(t.take(n as int) =~= b);
    } else {
        let below = shifted(b, i - 1, len);
        assert(t =~= shift_up(below));
        lemma_fold_down_shift(poly, below, (n + i - 1) as nat);
        lemma_fold_down_zero_top(poly, below, len, (n + i - 1) as nat);
        lemma_reduce_shifted(poly, b, (i - 1) as nat);
    }
}

/// The remainder of the first `n` rows of a product, term by term.
proof fn lemma_reduce_conv_rows(poly: Seq<bool>, a: Seq<bool>, b: Seq<bool>, n: nat)
    requires
        1 <= poly.len(),
        a.len() == poly.len(),
        b.len() == poly.len(),
        n <= poly.len(),
    ensures
        reduce(poly, conv_rows(a, b, n)) == horner(poly, a, b, n),
    decreases n,
{
    let w = poly.len();
    let len = (2 * w - 1) as nat;
    if n == 0 {
        let t = conv_rows(a, b, 0);
        lemma_fold_down_zero_top(poly, t, len, w);
        assert(t.take(w as int) =~= zeros(w));
    } else {
        let below = conv_rows(a, b, (n - 1) as nat);
        lemma_reduce_conv_rows(poly, a, b, (n - 1) as nat);
        if a[n - 1] {
            let s = shifted(b, n - 1, len);
            assert(conv_rows(a, b, n) =~= xor_bits(below, s));
            lemma_fold_down_xor(poly, below, s, len);
            lemma_reduce_shifted(poly, b, (n - 1) as nat);
            lemma_fold_down_len(poly, below, len);
            lemma_fold_down_len(poly, s, len);
            assert(xor_bits(fold_down(poly, below, len), fold_down(poly, s, len)).take(w as int)
                =~= xor_bits(
                fold_down(poly, below, len).take(w as int),
                fold_down(poly, s, len).take(w as int),
            ));
        } else {
            assert(conv_rows(a, b, n) =~= below);
        }
    }
}

/// The product in the field is the sum of the `a[i] * x^i * b`, each
/// reduced on its own.
pub proof fn lemma_mul_is_horner(poly: Seq<bool>, a: Seq<bool>, b: Seq<bool>)
    requires
        1 <= poly.len(),
        a.len() == poly.len(),
        b.len() == poly.len(),
    ensures
        field_mul(poly, a, b) == horner(poly, a, b, poly.len()),
{
    assert(conv(a, b) =~= conv_rows(a, b, poly.len()));
    lemma_reduce_conv_rows(poly, a, b, poly.len());
}

pub(crate) proof fn lemma_times_x_pow_len(poly: Seq<bool>, v: Seq<bool>, i: nat)
    requires
        v.len() == poly.len(),
    ensures
        times_x_pow(poly, v, i).len() == poly.len(),
    decreases i,
{
    if i > 0 {
        lemma_times_x_pow_len(poly, v, (i - 1) as nat);
    }
}

proof fn lemma_horner_len(poly: Seq<bool>, a: Seq<bool>, b: Seq<bool>, n: nat)
    ensures
        horner(poly, a, b, n).len() == poly.len(),
    decreases n,
{
    if n > 0 {
        lemma_horner_len(poly, a, b, (n - 1) as nat);
    }
}

/// `x * (u + v) = x * u + x * v`.
proof fn lemma_times_x_xor(poly: Seq<bool>, u: Seq<bool>, v: Seq<bool>)
    requires
        u.len() == poly.len(),
        v.len() == poly.len(),
    ensures
        times_x(poly, xor_bits(u, v)) == xor_bits(times_x(poly, u), times_x(poly, v)),
{
    assert(times_x(poly, xor_bits(u, v)) =~= xor_bits(times_x(poly, u), times_x(poly, v)));
}

/// `x^i * (u + v) = x^i * u + x^i * v`.
proof fn lemma_times_x_pow_xor(poly: Seq<bool>, u: Seq<bool>, v: Seq<bool>, i: nat)
    requires
        u.len() == poly.len(),
        v.len() == poly.len(),
    ensures
        times_x_pow(poly, xor_bits(u, v), i) == xor_bits(
            times_x_pow(poly, u, i),
            times_x_pow(poly, v, i),
        ),
    decreases i,
{
    if i > 0 {
        lemma_times_x_pow_xor(poly, u, v, (i - 1) as nat);
        lemma_times_x_pow_len(poly, u, (i - 1) as nat);
        lemma_times_x_pow_len(poly, v, (i - 1) as nat);
        lemma_times_x_xor(
            poly,
            times_x_pow(poly, u, (i - 1) as nat),
            times_x_pow(poly, v, (i - 1) as nat),
        );
    }
}

/// `x^i * (x * v) = x * (x^i * v)`.
proof fn lemma_times_x_pow_step(poly: Seq<bool>, v: Seq<bool>, i: nat)
    ensures
        times_x_pow(poly, times_x(poly, v), i) == times_x(poly, times_x_pow(poly, v, i)),
    decreases i,
{
    if i > 0 {
        lemma_times_x_pow_step(poly, v, (i - 1) as nat);
    }
}

/// `x^i * 0 = 0`.
proof fn lemma_times_x_pow_zero(poly: Seq<bool>, i: nat)
    requires
        1 <= poly.len(),
    ensures
        times_x_pow(poly, zeros(poly.len()), i) == zeros(poly.len()),
    decreases i,
{
    if i > 0 {
        lemma_times_x_pow_zero(poly, (i - 1) as nat);
        assert(times_x(poly, zeros(poly.len())) =~= zeros(poly.len()));
    }
}

/// `a * (u + v) = a * u + a * v`, for the first `n` terms of `a`.
proof fn lemma_horner_xor(poly: Seq<bool>, a: Seq<bool>, u: Seq<bool>, v: Seq<bool>, n: nat)
    requires
        u.len() == poly.len(),
        v.len() == poly.len(),
    ensures
        horner(poly, a, xor_bits(u, v), n) == xor_bits(
            horner(poly, a, u, n),
            horner(poly, a, v, n),
        ),
    decreases n,
{
    let w = poly.len();
    if n == 0 {
        assert(zeros(w) =~= xor_bits(zeros(w), zeros(w)));
    } else {
        let m = (n - 1) as nat;
        lemma_horner_xor(poly, a, u, v, m);
        lemma_horner_len(poly, a, u, m);
        lemma_horner_len(poly, a, v, m);
        lemma_times_x_pow_xor(poly, u, v, m);
        lemma_times_x_pow_len(poly, u, m);
        lemma_times_x_pow_len(poly, v, m);
        let hu = horner(poly, a, u, m);
        let hv = horner(poly, a, v, m);
        let pu = times_x_pow(poly, u, m);
        let pv = times_x_pow(poly, v, m);
        assert(xor_bits(xor_bits(hu, hv), xor_bits(pu, pv)) =~= xor_bits(
            xor_bits(hu, pu),
            xor_bits(hv, pv),
        ));
    }
}

/// `a * (x * v) = x * (a * v)`, for the first `n` terms of `a`.
proof fn lemma_horner_times_x(poly: Seq<bool>, a: Seq<bool>, v: Seq<bool>, n: nat)
    requires
        1 <= poly.len(),
        v.len() == poly.len(),
    ensures
        horner(poly, a, times_x(poly, v), n) == times_x(poly, horner(poly, a, v, n)),
    decreases n,
{
    let w = poly.len();
    if n == 0 {
        assert(times_x(poly, zeros(w)) =~= zeros(w));
    } else {
        let m = (n - 1) as nat;
        lemma_horner_times_x(poly, a, v, m);
        lemma_times_x_pow_step(poly, v, m);
        lemma_horner_len(poly, a, v, m);
        lemma_times_x_pow_len(poly, v, m);
        lemma_times_x_xor(poly, horner(poly, a, v, m), times_x_pow(poly, v, m));
    }
}

/// `a * (x^i * v) = x^i * (a * v)`, for the first `n` terms of `a`.
proof fn lemma_horner_times_x_pow(poly: Seq<bool>, a: Seq<bool>, v: Seq<bool>, n: nat, i: nat)
    requires
        1 <= poly.len(),
        v.len() == poly.len(),
    ensures
        horner(poly, a, times_x_pow(poly, v, i), n) == times_x_pow(poly, horner(poly, a, v, n), i),
    decreases i,
{
    if i > 0 {
        let j = (i - 1) as nat;
        lemma_horner_times_x_pow(poly, a, v, n, j);
        lemma_times_x_pow_len(poly, v, j);
        lemma_horner_times_x(poly, a, times_x_pow(poly, v, j), n);
    }
}

/// `c * (a * b) = a * (c * b)`, for the first `n` terms of `c` and the
/// first `k` terms of `a`.
proof fn lemma_horner_exchange(
    poly: Seq<bool>,
    a: Seq<bool>,
    b: Seq<bool>,
    c: Seq<bool>,
    n: nat,
    k: nat,
)
    requires
        1 <= poly.len(),
        b.len() == poly.len(),
    ensures
        horner(poly, c, horner(poly, a, b, k), n) == horner(poly, a, horner(poly, c, b, n), k),
    decreases n,
{
    let w = poly.len();
    if n == 0 {
        lemma_horner_of_zero(poly, a, k);
    } else {
        let m = (n - 1) as nat;
        lemma_horner_exchange(poly, a, b, c, m, k);
        if c[n - 1] {
            lemma_horner_times_x_pow(poly, a, b, k, m);
            lemma_horner_len(poly, c, b, m);
            lemma_times_x_pow_len(poly, b, m);
            lemma_horner_xor(poly, a, horner(poly, c, b, m), times_x_pow(poly, b, m), k);
        }
    }
}

/// `a * 0 = 0`, for the first `n` terms of `a`.
proof fn lemma_horner_of_zero(poly: Seq<bool>, a: Seq<bool>, n: nat)
    requires
        1 <= poly.len(),
    ensures
        horner(poly, a, zeros(poly.len()), n) == zeros(poly.len()),
    decreases n,
{
    let w = poly.len();
    if n > 0 {
        lemma_horner_of_zero(poly, a, (n - 1) as nat);
        lemma_times_x_pow_zero(poly, (n - 1) as nat);
        assert(xor_bits(zeros(w), zeros(w)) =~= zeros(w));
    }
}

/// `1 * b = b`, for at least the first term of `1`.
proof fn lemma_horner_of_unit(poly: Seq<bool>, b: Seq<bool>, n: nat)
    requires
        1 <= n <= poly.len(),
        b.len() == poly.len(),
    ensures
        horner(poly, unit(poly.len()), b, n) == b,
    decreases n,
{
    let w = poly.len();
    if n == 1 {
        assert(horner(poly, unit(w), b, 0) == zeros(w));
        assert(xor_bits(zeros(w), b) =~= b);
    } else {
        lemma_horner_of_unit(poly, b, (n - 1) as nat);
    }
}

/// A product in the field has as many coefficients as the field.
pub proof fn lemma_mul_len(poly: Seq<bool>, a: Seq<bool>, b: Seq<bool>)
    requires
        1 <= poly.len(),
        a.len() == poly.len(),
        b.len() == poly.len(),
    ensures
        field_mul(poly, a, b).len() == poly.len(),
{
    lemma_mul_is_horner(poly, a, b);
    lemma_horner_len(poly, a, b, poly.len());
}

/// `(a * b) * c = a * (b * c)`.
pub proof fn lemma_mul_associative(poly: Seq<bool>, a: Seq<bool>, b: Seq<bool>, c: Seq<bool>)
    requires
        1 <= poly.len(),
        a.len() == poly.len(),
        b.len() == poly.len(),
        c.len() == poly.len(),
    ensures
        field_mul(poly, field_mul(poly, a, b), c) == field_mul(poly, a, field_mul(poly, b, c)),
{
    let w = poly.len();
    lemma_mul_len(poly, a, b);
    lemma_mul_len(poly, b, c);
    lemma_mul_commutative(poly, field_mul(poly, a, b), c);
    lemma_mul_is_horner(poly, c, field_mul(poly, a, b));
    lemma_mul_is_horner(poly, a, b);
    lemma_horner_exchange(poly, a, b, c, w, w);
    lemma_mul_is_horner(poly, c, b);
    lemma_mul_commutative(poly, c, b);
    lemma_mul_is_horner(poly, a, field_mul(poly, b, c));
}

/// `a * (b + c) = a * b + a * c`.
pub proof fn lemma_mul_distributive(poly: Seq<bool>, a: Seq<bool>, b: Seq<bool>, c: Seq<bool>)
    requires
        1 <= poly.len(),
        a.len() == poly.len(),
        b.len() == poly.len(),
        c.len() == poly.len(),
    ensures
        field_mul(poly, a, xor_bits(b, c)) == xor_bits(
            field_mul(poly, a, b),
            field_mul(poly, a, c),
        ),
{
    lemma_mul_is_horner(poly, a, xor_bits(b, c));
    lemma_mul_is_horner(poly, a, b);
    lemma_mul_is_horner(poly, a, c);
    lemma_horner_xor(poly, a, b, c, poly.len());
}

/// `a * 1 = a`.
pub proof fn lemma_mul_one(poly: Seq<bool>, a: Seq<bool>)
    requires
        1 <= poly.len(),
        a.len() == poly.len(),
    ensures
        field_mul(poly, a, unit(poly.len())) == a,
{
    lemma_mul_commutative(poly, a, unit(poly.len()));
    lemma_mul_is_horner(poly, unit(poly.len()), a);
    lemma_horner_of_unit(poly, a, poly.len());
}

/// `a * 0 = 0`.
pub proof fn lemma_mul_zero(poly: Seq<bool>, a: Seq<bool>)
    requires
        1 <= poly.len(),
        a.len() == poly.len(),
    ensures
        field_mul(poly, a, zeros(poly.len())) == zeros(poly.len()),
{
    lemma_mul_is_horner(poly, a, zeros(poly.len()));
    lemma_horner_of_zero(poly, a, poly.len());
}

} // verus!
