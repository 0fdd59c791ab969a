//! What the multilinear evaluator computes on a table of four values.
use crate::polynomial::{fold_pairs, interpolate, multilinear_eval};
use crate::ring_laws::{
    lemma_pad, lemma_pad_injective, lemma_pad_of_product, lemma_pad_of_sum,
    lemma_ring_mul_commutative, lemma_ring_mul_one, longer, pad, well_formed,
};
use crate::tower_laws::{
    lemma_tower_mul_associative, lemma_tower_mul_commutative, lemma_tower_mul_distributive,
    lemma_tower_mul_distributive_left, lemma_tower_mul_elem, lemma_tower_mul_one,
    lemma_tower_mul_zero,
};
use crate::tower_model::{
    elem, field_shape, limbs_add, log2_floor, power_of_two, ring_add, ring_mul, tower_mul,
    tower_one, tower_zero,
};
use vstd::prelude::*;

verus! {

/// The bilinear polynomial with the values `e00, e01, e10, e11` at
/// `(r1, r2)`: `(1 - r1)(1 - r2) e00 + r1 (1 - r2) e01 + (1 - r1) r2 e10 +
/// r1 r2 e11`, the first variable being the low bit of the index.
pub open spec fn bilinear(
    poly: Seq<bool>,
    unit: Seq<bool>,
    e00: Seq<Seq<bool>>,
    e01: Seq<Seq<bool>>,
    e10: Seq<Seq<bool>>,
    e11: Seq<Seq<bool>>,
    r1: Seq<Seq<bool>>,
    r2: Seq<Seq<bool>>,
) -> Seq<Seq<bool>> {
    let one = tower_one(poly.len(), 1);
    let s1 = ring_add(one, r1);
    let s2 = ring_add(one, r2);
    let t0 = ring_mul(poly, unit, ring_mul(poly, unit, s1, s2), e00);
    let t1 = ring_mul(poly, unit, ring_mul(poly, unit, r1, s2), e01);
    let t2 = ring_mul(poly, unit, ring_mul(poly, unit, s1, r2), e10);
    let t3 = ring_mul(poly, unit, ring_mul(poly, unit, r1, r2), e11);
    ring_add(ring_add(ring_add(t0, t1), t2), t3)
}

/// The two folds of the evaluator on four values of one level.
pub open spec fn folded(
    poly: Seq<bool>,
    unit: Seq<bool>,
    e00: Seq<Seq<bool>>,
    e01: Seq<Seq<bool>>,
    e10: Seq<Seq<bool>>,
    e11: Seq<Seq<bool>>,
    r1: Seq<Seq<bool>>,
    r2: Seq<Seq<bool>>,
) -> Seq<Seq<bool>> {
    let w0 = limbs_add(e00, tower_mul(poly, unit, r1, limbs_add(e01, e00)));
    let w1 = limbs_add(e10, tower_mul(poly, unit, r1, limbs_add(e11, e10)));
    limbs_add(w0, tower_mul(poly, unit, r2, limbs_add(w1, w0)))
}

/// The bilinear polynomial on four values of one level.
pub open spec fn bilinear_at_level(
    poly: Seq<bool>,
    unit: Seq<bool>,
    e00: Seq<Seq<bool>>,
    e01: Seq<Seq<bool>>,
    e10: Seq<Seq<bool>>,
    e11: Seq<Seq<bool>>,
    r1: Seq<Seq<bool>>,
    r2: Seq<Seq<bool>>,
) -> Seq<Seq<bool>> {
    let one = tower_one(poly.len(), r1.len());
    let s1 = limbs_add(one, r1);
    let s2 = limbs_add(one, r2);
    let t0 = tower_mul(poly, unit, tower_mul(poly, unit, s1, s2), e00);
    let t1 = tower_mul(poly, unit, tower_mul(poly, unit, r1, s2), e01);
    let t2 = tower_mul(poly, unit, tower_mul(poly, unit, s1, r2), e10);
    let t3 = tower_mul(poly, unit, tower_mul(poly, unit, r1, r2), e11);
    limbs_add(limbs_add(limbs_add(t0, t1), t2), t3)
}

/// `(x + y) * z = x * z + y * z`, with the shapes of the terms.
proof fn lemma_expand_left(
    poly: Seq<bool>,
    unit: Seq<bool>,
    x: Seq<Seq<bool>>,
    y: Seq<Seq<bool>>,
    z: Seq<Seq<bool>>,
    h: nat,
)
    requires
        field_shape(poly, unit),
        power_of_two(h),
        elem(poly.len(), x, h),
        elem(poly.len(), y, h),
        elem(poly.len(), z, h),
    ensures
        tower_mul(poly, unit, limbs_add(x, y), z) == limbs_add(
            tower_mul(poly, unit, x, z),
            tower_mul(poly, unit, y, z),
        ),
        elem(poly.len(), tower_mul(poly, unit, x, z), h),
        elem(poly.len(), tower_mul(poly, unit, y, z), h),
        elem(poly.len(), limbs_add(x, y), h),
{
    lemma_tower_mul_distributive_left(poly, unit, x, y, z, h);
    lemma_tower_mul_elem(poly, unit, x, z, h);
    lemma_tower_mul_elem(poly, unit, y, z, h);
}

/// `x * (y + z) = x * y + x * z`, with the shapes of the terms.
proof fn lemma_expand_right(
    poly: Seq<bool>,
    unit: Seq<bool>,
    x: Seq<Seq<bool>>,
    y: Seq<Seq<bool>>,
    z: Seq<Seq<bool>>,
    h: nat,
)
    requires
        field_shape(poly, unit),
        power_of_two(h),
        elem(poly.len(), x, h),
        elem(poly.len(), y, h),
        elem(poly.len(), z, h),
    ensures
        tower_mul(poly, unit, x, limbs_add(y, z)) == limbs_add(
            tower_mul(poly, unit, x, y),
            tower_mul(poly, unit, x, z),
        ),
        elem(poly.len(), tower_mul(poly, unit, x, y), h),
        elem(poly.len(), tower_mul(poly, unit, x, z), h),
        elem(poly.len(), limbs_add(y, z), h),
{
    lemma_tower_mul_distributive(poly, unit, x, y, z, h);
    lemma_tower_mul_elem(poly, unit, x, y, h);
    lemma_tower_mul_elem(poly, unit, x, z, h);
}

/// `r2 * (r1 * e) = (r1 * r2) * e`.
proof fn lemma_second_then_first(
    poly: Seq<bool>,
    unit: Seq<bool>,
    r1: Seq<Seq<bool>>,
    r2: Seq<Seq<bool>>,
    e: Seq<Seq<bool>>,
    h: nat,
)
    requires
        field_shape(poly, unit),
        power_of_two(h),
        elem(poly.len(), r1, h),
        elem(poly.len(), r2, h),
        elem(poly.len(), e, h),
    ensures
        tower_mul(poly, unit, r2, tower_mul(poly, unit, r1, e)) == tower_mul(
            poly,
            unit,
            tower_mul(poly, unit, r1, r2),
            e,
        ),
        elem(poly.len(), tower_mul(poly, unit, tower_mul(poly, unit, r1, r2), e), h),
        elem(poly.len(), tower_mul(poly, unit, r1, r2), h),
{
    lemma_tower_mul_associative(poly, unit, r2, r1, e, h);
    lemma_tower_mul_commutative(poly, unit, r2, r1, h);
    lemma_tower_mul_elem(poly, unit, r1, r2, h);
    lemma_tower_mul_elem(poly, unit, tower_mul(poly, unit, r1, r2), e, h);
}

/// On four values and a point of one level, the two folds give the value
/// of the bilinear polynomial.
proof fn lemma_folded_is_bilinear(
    poly: Seq<bool>,
    unit: Seq<bool>,
    e00: Seq<Seq<bool>>,
    e01: Seq<Seq<bool>>,
    e10: Seq<Seq<bool>>,
    e11: Seq<Seq<bool>>,
    r1: Seq<Seq<bool>>,
    r2: Seq<Seq<bool>>,
    h: nat,
)
    requires
        field_shape(poly, unit),
        power_of_two(h),
        elem(poly.len(), e00, h),
        elem(poly.len(), e01, h),
        elem(poly.len(), e10, h),
        elem(poly.len(), e11, h),
        elem(poly.len(), r1, h),
        elem(poly.len(), r2, h),
    ensures
        folded(poly, unit, e00, e01, e10, e11, r1, r2) == bilinear_at_level(
            poly,
            unit,
            e00,
            e01,
            e10,
            e11,
            r1,
            r2,
        ),
{
    let n = poly.len();
    let one = tower_one(n, h);
    let q = tower_mul(poly, unit, r1, r2);
    lemma_tower_mul_elem(poly, unit, r1, r2, h);
    // The folds, every product of a sum written out.
    lemma_expand_right(poly, unit, r1, e01, e00, h);
    lemma_expand_right(poly, unit, r1, e11, e10, h);
    let a00 = tower_mul(poly, unit, r1, e00);
    let a01 = tower_mul(poly, unit, r1, e01);
    let a10 = tower_mul(poly, unit, r1, e10);
    let a11 = tower_mul(poly, unit, r1, e11);
    let w0 = limbs_add(e00, limbs_add(a01, a00));
    let w1 = limbs_add(e10, limbs_add(a11, a10));
    lemma_expand_right(poly, unit, r2, w1, w0, h);
    lemma_expand_right(poly, unit, r2, e00, limbs_add(a01, a00), h);
    lemma_expand_right(poly, unit, r2, e10, limbs_add(a11, a10), h);
    lemma_expand_right(poly, unit, r2, a01, a00, h);
    lemma_expand_right(poly, unit, r2, a11, a10, h);
    lemma_second_then_first(poly, unit, r1, r2, e00, h);
    lemma_second_then_first(poly, unit, r1, r2, e01, h);
    lemma_second_then_first(poly, unit, r1, r2, e10, h);
    lemma_second_then_first(poly, unit, r1, r2, e11, h);
    let b00 = tower_mul(poly, unit, r2, e00);
    let b10 = tower_mul(poly, unit, r2, e10);
    let q00 = tower_mul(poly, unit, q, e00);
    let q01 = tower_mul(poly, unit, q, e01);
    let q10 = tower_mul(poly, unit, q, e10);
    let q11 = tower_mul(poly, unit, q, e11);
    let r2w0 = limbs_add(b00, limbs_add(q01, q00));
    let r2w1 = limbs_add(b10, limbs_add(q11, q10));
    assert(tower_mul(poly, unit, r2, w0) == r2w0);
    assert(tower_mul(poly, unit, r2, w1) == r2w1);
    let value = limbs_add(w0, limbs_add(r2w1, r2w0));
    assert(folded(poly, unit, e00, e01, e10, e11, r1, r2) == value);
    // The formula, every product of a sum written out.
    let s1 = limbs_add(one, r1);
    let s2 = limbs_add(one, r2);
    assert(elem(n, one, h));
    lemma_tower_mul_one(poly, unit, s1, h);
    lemma_tower_mul_one(poly, unit, r1, h);
    lemma_tower_mul_commutative(poly, unit, one, r2, h);
    lemma_tower_mul_one(poly, unit, r2, h);
    lemma_tower_mul_commutative(poly, unit, one, e00, h);
    lemma_tower_mul_one(poly, unit, e00, h);
    lemma_expand_right(poly, unit, s1, one, r2, h);
    lemma_expand_left(poly, unit, one, r1, r2, h);
    let s1s2 = limbs_add(s1, limbs_add(r2, q));
    assert(tower_mul(poly, unit, s1, s2) == s1s2);
    lemma_expand_right(poly, unit, r1, one, r2, h);
    let r1s2 = limbs_add(r1, q);
    assert(tower_mul(poly, unit, r1, s2) == r1s2);
    let s1r2 = limbs_add(r2, q);
    assert(tower_mul(poly, unit, s1, r2) == s1r2);
    lemma_expand_left(poly, unit, s1, s1r2, e00, h);
    lemma_expand_left(poly, unit, one, r1, e00, h);
    lemma_expand_left(poly, unit, r2, q, e00, h);
    lemma_expand_left(poly, unit, r1, q, e01, h);
    lemma_expand_left(poly, unit, r2, q, e10, h);
    let t0 = limbs_add(limbs_add(e00, a00), limbs_add(b00, q00));
    let t1 = limbs_add(a01, q01);
    let t2 = limbs_add(b10, q10);
    let t3 = q11;
    assert(tower_mul(poly, unit, s1s2, e00) == t0);
    assert(tower_mul(poly, unit, r1s2, e01) == t1);
    assert(tower_mul(poly, unit, s1r2, e10) == t2);
    let formula = limbs_add(limbs_add(limbs_add(t0, t1), t2), t3);
    assert(bilinear_at_level(poly, unit, e00, e01, e10, e11, r1, r2) == formula);
    assert(value =~~= formula);
}

/// On a table of four values the evaluator returns the value of the
/// bilinear polynomial through them, whatever the levels of the values and
/// of the point's coordinates.
pub proof fn lemma_eval_is_bilinear(
    poly: Seq<bool>,
    unit: Seq<bool>,
    e00: Seq<Seq<bool>>,
    e01: Seq<Seq<bool>>,
    e10: Seq<Seq<bool>>,
    e11: Seq<Seq<bool>>,
    r1: Seq<Seq<bool>>,
    r2: Seq<Seq<bool>>,
)
    requires
        field_shape(poly, unit),
        well_formed(poly.len(), e00),
        well_formed(poly.len(), e01),
        well_formed(poly.len(), e10),
        well_formed(poly.len(), e11),
        well_formed(poly.len(), r1),
        well_formed(poly.len(), r2),
    ensures
        multilinear_eval(poly, unit, seq![e00, e01, e10, e11], seq![r1, r2]) == bilinear(
            poly,
            unit,
            e00,
            e01,
            e10,
            e11,
            r1,
            r2,
        ),
{
    let n = poly.len();
    let h = longer(
        longer(longer(e00.len(), e01.len()), longer(e10.len(), e11.len())),
        longer(r1.len(), r2.len()),
    );
    // The evaluator: two folds.
    let table = seq![e00, e01, e10, e11];
    let point = seq![r1, r2];
    let w = fold_pairs(poly, unit, table, r1);
    assert(w[0] == interpolate(poly, unit, table[0], table[1], r1));
    assert(w[1] == interpolate(poly, unit, table[2], table[3], r1));
    let rest = point.skip(1);
    assert(rest.len() == 1 && rest[0] == r2);
    let v = fold_pairs(poly, unit, w, r2);
    assert(rest.skip(1).len() == 0);
    assert(multilinear_eval(poly, unit, v, rest.skip(1)) == v[0]);
    assert(multilinear_eval(poly, unit, w, rest) == v[0]);
    assert(multilinear_eval(poly, unit, table, point) == v[0]);
    assert(v[0] == interpolate(poly, unit, w[0], w[1], r2));
    // Everything padded to the level that holds all six inputs.
    let (p00, p01, p10, p11) = (pad(n, e00, h), pad(n, e01, h), pad(n, e10, h), pad(n, e11, h));
    let (x1, x2) = (pad(n, r1, h), pad(n, r2, h));
    lemma_pad(n, e00, h, h);
    lemma_pad(n, e01, h, h);
    lemma_pad(n, e10, h, h);
    lemma_pad(n, e11, h, h);
    lemma_pad(n, r1, h, h);
    lemma_pad(n, r2, h, h);
    // The folds, padded.
    let d0 = ring_add(e01, e00);
    let d1 = ring_add(e11, e10);
    lemma_pad_of_sum(n, e01, e00, h);
    lemma_pad_of_sum(n, e11, e10, h);
    let m0 = ring_mul(poly, unit, r1, d0);
    let m1 = ring_mul(poly, unit, r1, d1);
    lemma_pad_of_product(poly, unit, r1, d0, h);
    lemma_pad_of_product(poly, unit, r1, d1, h);
    let w0 = ring_add(e00, m0);
    let w1 = ring_add(e10, m1);
    lemma_pad_of_sum(n, e00, m0, h);
    lemma_pad_of_sum(n, e10, m1, h);
    let dw = ring_add(w1, w0);
    lemma_pad_of_sum(n, w1, w0, h);
    let mw = ring_mul(poly, unit, r2, dw);
    lemma_pad_of_product(poly, unit, r2, dw, h);
    let value = ring_add(w0, mw);
    lemma_pad_of_sum(n, w0, mw, h);
    assert(v[0] == value);
    assert(pad(n, value, h) == folded(poly, unit, p00, p01, p10, p11, x1, x2));
    assert(value.len() == h);
    // The formula, padded.
    let one = tower_one(n, 1);
    assert(pad(n, one, h) =~= tower_one(n, h));
    let s1 = ring_add(one, r1);
    let s2 = ring_add(one, r2);
    lemma_pad_of_sum(n, one, r1, h);
    lemma_pad_of_sum(n, one, r2, h);
    let s1s2 = ring_mul(poly, unit, s1, s2);
    let r1s2 = ring_mul(poly, unit, r1, s2);
    let s1r2 = ring_mul(poly, unit, s1, r2);
    let r1r2 = ring_mul(poly, unit, r1, r2);
    lemma_pad_of_product(poly, unit, s1, s2, h);
    lemma_pad_of_product(poly, unit, r1, s2, h);
    lemma_pad_of_product(poly, unit, s1, r2, h);
    lemma_pad_of_product(poly, unit, r1, r2, h);
    let t0 = ring_mul(poly, unit, s1s2, e00);
    let t1 = ring_mul(poly, unit, r1s2, e01);
    let t2 = ring_mul(poly, unit, s1r2, e10);
    let t3 = ring_mul(poly, unit, r1r2, e11);
    lemma_pad_of_product(poly, unit, s1s2, e00, h);
    lemma_pad_of_product(poly, unit, r1s2, e01, h);
    lemma_pad_of_product(poly, unit, s1r2, e10, h);
    lemma_pad_of_product(poly, unit, r1r2, e11, h);
    lemma_pad_of_sum(n, t0, t1, h);
    lemma_pad_of_sum(n, ring_add(t0, t1), t2, h);
    lemma_pad_of_sum(n, ring_add(ring_add(t0, t1), t2), t3, h);
    let formula = ring_add(ring_add(ring_add(t0, t1), t2), t3);
    assert(bilinear(poly, unit, e00, e01, e10, e11, r1, r2) == formula);
    assert(pad(n, formula, h) == bilinear_at_level(poly, unit, p00, p01, p10, p11, x1, x2));
    assert(formula.len() == h);
    lemma_folded_is_bilinear(poly, unit, p00, p01, p10, p11, x1, x2, h);
    lemma_pad_injective(n, value, formula, h);
}

/// A coordinate of a corner of the hypercube: the zero or the one of
/// level 0.
pub open spec fn corner_coordinate(n: nat, bit: bool) -> Seq<Seq<bool>> {
    if bit {
        tower_one(n, 1)
    } else {
        tower_zero(n, 1)
    }
}

/// The corner of the hypercube with the given coordinates.
pub open spec fn corner(n: nat, bits: Seq<bool>) -> Seq<Seq<Seq<bool>>> {
    Seq::new(bits.len(), |i: int| corner_coordinate(n, bits[i]))
}

/// The place of a corner in the table: its first coordinate is the lowest
/// bit of the index.
pub open spec fn corner_index(bits: Seq<bool>) -> nat
    decreases bits.len(),
{
    if bits.len() == 0 {
        0
    } else {
        (if bits[0] {
            1nat
        } else {
            0nat
        }) + 2 * corner_index(bits.skip(1))
    }
}

/// Every value of the table is an element of the level with `h` limbs.
pub open spec fn table_at_level(n: nat, table: Seq<Seq<Seq<bool>>>, h: nat) -> bool {
    forall|i: int| 0 <= i < table.len() ==> elem(n, #[trigger] table[i], h)
}

/// The line through two values takes the first at 0 and the second at 1.
proof fn lemma_interpolate_at_corner(
    poly: Seq<bool>,
    unit: Seq<bool>,
    left: Seq<Seq<bool>>,
    right: Seq<Seq<bool>>,
    bit: bool,
    h: nat,
)
    requires
        field_shape(poly, unit),
        power_of_two(h),
        elem(poly.len(), left, h),
        elem(poly.len(), right, h),
    ensures
        interpolate(poly, unit, left, right, corner_coordinate(poly.len(), bit)) == if bit {
            right
        } else {
            left
        },
{
    let n = poly.len();
    let d = ring_add(right, left);
    let r = corner_coordinate(n, bit);
    assert(elem(n, d, h));
    lemma_ring_mul_commutative(poly, unit, r, d);
    if bit {
        lemma_ring_mul_one(poly, unit, d, 1);
        assert(ring_add(left, d) =~~= right);
    } else {
        lemma_pad_of_product(poly, unit, d, r, h);
        lemma_pad(n, d, h, h);
        assert(pad(n, r, h) =~= tower_zero(n, h));
        lemma_tower_mul_zero(poly, unit, d, h);
        let product = ring_mul(poly, unit, d, r);
        lemma_pad(n, product, h, h);
        assert(ring_add(left, tower_zero(n, h)) =~~= left);
    }
}

/// At a corner of the hypercube the evaluator returns the value that the
/// table holds for that corner.
pub proof fn lemma_eval_at_corner(
    poly: Seq<bool>,
    unit: Seq<bool>,
    table: Seq<Seq<Seq<bool>>>,
    bits: Seq<bool>,
    h: nat,
)
    requires
        field_shape(poly, unit),
        power_of_two(h),
        power_of_two(table.len()),
        bits.len() == log2_floor(table.len()),
        table_at_level(poly.len(), table, h),
    ensures
        corner_index(bits) < table.len(),
        multilinear_eval(poly, unit, table, corner(poly.len(), bits)) == table[corner_index(
            bits,
        ) as int],
    decreases bits.len(),
{
    let n = poly.len();
    let point = corner(n, bits);
    if bits.len() == 0 {
        assert(table.len() == 1);
    } else {
        let m = table.len() / 2;
        let r = corner_coordinate(n, bits[0]);
        let below = fold_pairs(poly, unit, table, r);
        let picked = Seq::new(m, |b: int| table[2 * b + if bits[0] { 1int } else { 0int }]);
        assert forall|b: int| 0 <= b < m implies below[b] == picked[b] by {
            lemma_interpolate_at_corner(poly, unit, table[2 * b], table[2 * b + 1], bits[0], h);
        }
        assert(below =~= picked);
        assert(point[0] == r);
        assert(point.skip(1) =~= corner(n, bits.skip(1)));
        lemma_eval_at_corner(poly, unit, below, bits.skip(1), h);
    }
}

} // verus!
