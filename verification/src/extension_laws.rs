//! The evaluator computes the multilinear extension: the sum, over the
//! corners of the hypercube, of the table's value at the corner times the
//! corner's weight at the point.
use crate::polynomial::{fold_pairs, interpolate, multilinear_eval};
use crate::ring_laws::{
    lemma_pad_of_product, lemma_pad_of_sum, lemma_ring_add_associative,
    lemma_ring_add_commutative, lemma_ring_add_zero, lemma_ring_mul_associative,
    lemma_ring_mul_commutative, lemma_ring_mul_distributive, lemma_ring_mul_one, longer,
    well_formed,
};
use crate::tower_model::{
    field_shape, log2_floor, power_of_two, ring_add, ring_mul, tower_one, tower_zero,
};
use vstd::prelude::*;

verus! {

/// Every element of the run is an element of some level.
pub open spec fn all_well_formed(n: nat, s: Seq<Seq<Seq<bool>>>) -> bool {
    forall|i: int| 0 <= i < s.len() ==> well_formed(n, #[trigger] s[i])
}

/// The weight of the corner `index` at `point`: the product, over the
/// variables, of the coordinate where the corner's bit is one and of one
/// minus the coordinate where it is zero. The first variable is the lowest
/// bit of the index.
pub open spec fn weight(
    poly: Seq<bool>,
    unit: Seq<bool>,
    point: Seq<Seq<Seq<bool>>>,
    index: nat,
) -> Seq<Seq<bool>>
    decreases point.len(),
{
    if point.len() == 0 {
        tower_one(poly.len(), 1)
    } else {
        let factor = if index % 2 == 1 {
            point[0]
        } else {
            ring_add(tower_one(poly.len(), 1), point[0])
        };
        ring_mul(poly, unit, factor, weight(poly, unit, point.skip(1), index / 2))
    }
}

/// The sum of weight times value over the first `count` corners.
pub open spec fn extension_sum(
    poly: Seq<bool>,
    unit: Seq<bool>,
    table: Seq<Seq<Seq<bool>>>,
    point: Seq<Seq<Seq<bool>>>,
    count: nat,
) -> Seq<Seq<bool>>
    decreases count,
{
    if count == 0 {
        tower_zero(poly.len(), 1)
    } else {
        ring_add(
            extension_sum(poly, unit, table, point, (count - 1) as nat),
            ring_mul(
                poly,
                unit,
                weight(poly, unit, point, (count - 1) as nat),
                table[count - 1],
            ),
        )
    }
}

/// The multilinear extension of `table` at `point`.
pub open spec fn extension(
    poly: Seq<bool>,
    unit: Seq<bool>,
    table: Seq<Seq<Seq<bool>>>,
    point: Seq<Seq<Seq<bool>>>,
) -> Seq<Seq<bool>> {
    extension_sum(poly, unit, table, point, table.len())
}

/// Sums and products of elements are elements.
proof fn lemma_closed(poly: Seq<bool>, unit: Seq<bool>, a: Seq<Seq<bool>>, b: Seq<Seq<bool>>)
    requires
        field_shape(poly, unit),
        well_formed(poly.len(), a),
        well_formed(poly.len(), b),
    ensures
        well_formed(poly.len(), ring_add(a, b)),
        well_formed(poly.len(), ring_mul(poly, unit, a, b)),
{
    let h = longer(a.len(), b.len());
    lemma_pad_of_sum(poly.len(), a, b, h);
    lemma_pad_of_product(poly, unit, a, b, h);
}

proof fn lemma_weight_well_formed(
    poly: Seq<bool>,
    unit: Seq<bool>,
    point: Seq<Seq<Seq<bool>>>,
    index: nat,
)
    requires
        field_shape(poly, unit),
        all_well_formed(poly.len(), point),
    ensures
        well_formed(poly.len(), weight(poly, unit, point, index)),
    decreases point.len(),
{
    let n = poly.len();
    if point.len() > 0 {
        lemma_weight_well_formed(poly, unit, point.skip(1), index / 2);
        let one = tower_one(n, 1);
        assert(well_formed(n, point[0]));
        lemma_closed(poly, unit, one, point[0]);
        let factor = if index % 2 == 1 {
            point[0]
        } else {
            ring_add(one, point[0])
        };
        lemma_closed(poly, unit, factor, weight(poly, unit, point.skip(1), index / 2));
    }
}

proof fn lemma_extension_sum_well_formed(
    poly: Seq<bool>,
    unit: Seq<bool>,
    table: Seq<Seq<Seq<bool>>>,
    point: Seq<Seq<Seq<bool>>>,
    count: nat,
)
    requires
        field_shape(poly, unit),
        all_well_formed(poly.len(), table),
        all_well_formed(poly.len(), point),
        count <= table.len(),
    ensures
        well_formed(poly.len(), extension_sum(poly, unit, table, point, count)),
    decreases count,
{
    if count > 0 {
        let last = (count - 1) as nat;
        lemma_extension_sum_well_formed(poly, unit, table, point, last);
        lemma_weight_well_formed(poly, unit, point, last);
        assert(well_formed(poly.len(), table[last as int]));
        lemma_closed(poly, unit, weight(poly, unit, point, last), table[last as int]);
        lemma_closed(
            poly,
            unit,
            extension_sum(poly, unit, table, point, last),
            ring_mul(poly, unit, weight(poly, unit, point, last), table[last as int]),
        );
    }
}

/// The two terms of a pair of neighbouring corners are one term of the
/// folded table: `((1 + r) w) l + (r w) t = w (l + r (t + l))`.
proof fn lemma_pair_of_terms(
    poly: Seq<bool>,
    unit: Seq<bool>,
    r: Seq<Seq<bool>>,
    w: Seq<Seq<bool>>,
    l: Seq<Seq<bool>>,
    t: Seq<Seq<bool>>,
)
    requires
        field_shape(poly, unit),
        well_formed(poly.len(), r),
        well_formed(poly.len(), w),
        well_formed(poly.len(), l),
        well_formed(poly.len(), t),
    ensures
        ring_add(
            ring_mul(
                poly,
                unit,
                ring_mul(poly, unit, ring_add(tower_one(poly.len(), 1), r), w),
                l,
            ),
            ring_mul(poly, unit, ring_mul(poly, unit, r, w), t),
        ) == ring_mul(poly, unit, w, interpolate(poly, unit, l, t, r)),
{
    let n = poly.len();
    let one = tower_one(n, 1);
    let s = ring_add(one, r);
    let rw = ring_mul(poly, unit, r, w);
    let wl = ring_mul(poly, unit, w, l);
    let rl = ring_mul(poly, unit, r, l);
    let rt = ring_mul(poly, unit, r, t);
    let w_rl = ring_mul(poly, unit, w, rl);
    let w_rt = ring_mul(poly, unit, w, rt);
    lemma_closed(poly, unit, one, r);
    lemma_closed(poly, unit, r, w);
    lemma_closed(poly, unit, w, l);
    lemma_closed(poly, unit, r, l);
    lemma_closed(poly, unit, r, t);
    lemma_closed(poly, unit, w, rl);
    lemma_closed(poly, unit, w, rt);
    lemma_closed(poly, unit, t, l);
    // (1 + r) w = w + r w
    lemma_ring_mul_commutative(poly, unit, s, w);
    lemma_ring_mul_distributive(poly, unit, w, one, r);
    lemma_ring_mul_one(poly, unit, w, 1);
    lemma_ring_mul_commutative(poly, unit, w, r);
    assert(ring_mul(poly, unit, s, w) == ring_add(w, rw));
    // (w + r w) l = w l + w (r l)
    lemma_closed(poly, unit, w, rw);
    lemma_ring_mul_commutative(poly, unit, ring_add(w, rw), l);
    lemma_ring_mul_distributive(poly, unit, l, w, rw);
    lemma_ring_mul_commutative(poly, unit, l, w);
    lemma_ring_mul_commutative(poly, unit, l, rw);
    // (r w) l = (w r) l = w (r l)
    lemma_ring_mul_associative(poly, unit, w, r, l);
    assert(ring_mul(poly, unit, rw, l) == w_rl);
    // (r w) t = w (r t)
    lemma_ring_mul_associative(poly, unit, w, r, t);
    assert(ring_mul(poly, unit, rw, t) == w_rt);
    // w (l + r (t + l)) = w l + (w (r t) + w (r l))
    lemma_ring_mul_distributive(poly, unit, r, t, l);
    lemma_closed(poly, unit, rt, rl);
    lemma_ring_mul_distributive(poly, unit, w, l, ring_add(rt, rl));
    lemma_ring_mul_distributive(poly, unit, w, rt, rl);
    lemma_closed(poly, unit, r, ring_add(t, l));
    // The sums, rearranged.
    lemma_ring_add_associative(n, wl, w_rl, w_rt);
    lemma_ring_add_commutative(n, w_rl, w_rt);
}

/// The sum over the first `2 k` corners is the sum over the first `k`
/// corners of the table folded along the first variable.
proof fn lemma_extension_sum_of_pairs(
    poly: Seq<bool>,
    unit: Seq<bool>,
    table: Seq<Seq<Seq<bool>>>,
    point: Seq<Seq<Seq<bool>>>,
    k: nat,
)
    requires
        field_shape(poly, unit),
        all_well_formed(poly.len(), table),
        all_well_formed(poly.len(), point),
        point.len() >= 1,
        2 * k <= table.len(),
    ensures
        extension_sum(poly, unit, table, point, 2 * k) == extension_sum(
            poly,
            unit,
            fold_pairs(poly, unit, table, point[0]),
            point.skip(1),
            k,
        ),
    decreases k,
{
    let n = poly.len();
    if k > 0 {
        let b = (k - 1) as nat;
        let r = point[0];
        let rest = point.skip(1);
        let folded = fold_pairs(poly, unit, table, r);
        lemma_extension_sum_of_pairs(poly, unit, table, point, b);
        let below = extension_sum(poly, unit, table, point, 2 * b);
        let (l, t) = (table[2 * (b as int)], table[2 * (b as int) + 1]);
        let w = weight(poly, unit, rest, b);
        assert(well_formed(n, r));
        assert(well_formed(n, l));
        assert(well_formed(n, t));
        assert(all_well_formed(n, rest));
        lemma_weight_well_formed(poly, unit, rest, b);
        lemma_extension_sum_well_formed(poly, unit, table, point, 2 * b);
        let one = tower_one(n, 1);
        let first = ring_mul(poly, unit, ring_mul(poly, unit, ring_add(one, r), w), l);
        let second = ring_mul(poly, unit, ring_mul(poly, unit, r, w), t);
        assert((2 * b) % 2 == 0 && (2 * b) / 2 == b);
        assert((2 * b + 1) % 2 == 1 && (2 * b + 1) / 2 == b);
        assert(weight(poly, unit, point, 2 * b) == ring_mul(poly, unit, ring_add(one, r), w));
        assert(weight(poly, unit, point, 2 * b + 1) == ring_mul(poly, unit, r, w));
        assert(extension_sum(poly, unit, table, point, 2 * b + 1) == ring_add(below, first));
        assert(extension_sum(poly, unit, table, point, 2 * k) == ring_add(
            ring_add(below, first),
            second,
        ));
        lemma_closed(poly, unit, one, r);
        lemma_closed(poly, unit, ring_add(one, r), w);
        lemma_closed(poly, unit, r, w);
        lemma_closed(poly, unit, ring_mul(poly, unit, ring_add(one, r), w), l);
        lemma_closed(poly, unit, ring_mul(poly, unit, r, w), t);
        lemma_ring_add_associative(n, below, first, second);
        lemma_pair_of_terms(poly, unit, r, w, l, t);
        assert(folded[b as int] == interpolate(poly, unit, l, t, r));
    }
}

/// Folding keeps the values elements.
proof fn lemma_fold_pairs_well_formed(
    poly: Seq<bool>,
    unit: Seq<bool>,
    table: Seq<Seq<Seq<bool>>>,
    r: Seq<Seq<bool>>,
)
    requires
        field_shape(poly, unit),
        all_well_formed(poly.len(), table),
        well_formed(poly.len(), r),
    ensures
        all_well_formed(poly.len(), fold_pairs(poly, unit, table, r)),
{
    let n = poly.len();
    let folded = fold_pairs(poly, unit, table, r);
    assert forall|b: int| 0 <= b < folded.len() implies well_formed(n, #[trigger] folded[b]) by {
        let (l, t) = (table[2 * b], table[2 * b + 1]);
        assert(well_formed(n, l));
        assert(well_formed(n, t));
        lemma_closed(poly, unit, t, l);
        lemma_closed(poly, unit, r, ring_add(t, l));
        lemma_closed(poly, unit, l, ring_mul(poly, unit, r, ring_add(t, l)));
    }
}

/// The evaluator returns the multilinear extension of its table at its
/// point.
pub proof fn lemma_eval_is_extension(
    poly: Seq<bool>,
    unit: Seq<bool>,
    table: Seq<Seq<Seq<bool>>>,
    point: Seq<Seq<Seq<bool>>>,
)
    requires
        field_shape(poly, unit),
        power_of_two(table.len()),
        point.len() == log2_floor(table.len()),
        all_well_formed(poly.len(), table),
        all_well_formed(poly.len(), point),
    ensures
        multilinear_eval(poly, unit, table, point) == extension(poly, unit, table, point),
    decreases point.len(),
{
    let n = poly.len();
    if point.len() == 0 {
        assert(table.len() == 1);
        let one = tower_one(n, 1);
        let zero = tower_zero(n, 1);
        let value = table[0];
        assert(well_formed(n, value));
        assert(extension_sum(poly, unit, table, point, 0) == zero);
        assert(weight(poly, unit, point, 0) == one);
        lemma_ring_mul_commutative(poly, unit, one, value);
        lemma_ring_mul_one(poly, unit, value, 1);
        lemma_ring_add_commutative(n, zero, value);
        lemma_ring_add_zero(n, value, 1);
    } else {
        let k = table.len() / 2;
        let folded = fold_pairs(poly, unit, table, point[0]);
        assert(well_formed(n, point[0]));
        lemma_fold_pairs_well_formed(poly, unit, table, point[0]);
        assert(all_well_formed(n, point.skip(1)));
        lemma_eval_is_extension(poly, unit, folded, point.skip(1));
        lemma_extension_sum_of_pairs(poly, unit, table, point, k);
    }
}

} // verus!
