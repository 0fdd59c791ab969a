//! The laws of the tower: at every level, with `limbs_add` as sum and
//! `tower_mul` as product, the elements form a commutative ring in which
//! `basis_mul` is the product with one fixed element.
use crate::bits::{field_mul, xor_bits, zeros};
use crate::field_laws::{
    lemma_mul_associative, lemma_mul_commutative, lemma_mul_distributive, lemma_mul_len,
    lemma_mul_one, lemma_mul_zero,
};
use crate::tower_model::{
    basis_mul, elem, field_shape, limbs_add, power_of_two, schoolbook_mul, tower_basis,
    tower_mul, tower_one, tower_zero,
};
use vstd::prelude::*;

verus! {

/// The sum of two elements of a level is an element of that level.
pub proof fn lemma_add_elem(n: nat, x: Seq<Seq<bool>>, y: Seq<Seq<bool>>, h: nat)
    requires
        elem(n, x, h),
        elem(n, y, h),
    ensures
        elem(n, limbs_add(x, y), h),
{
}

/// The halves of an element are elements of the level below.
pub proof fn lemma_halves_elem(n: nat, x: Seq<Seq<bool>>, h: nat)
    requires
        elem(n, x, 2 * h),
    ensures
        elem(n, x.take(h as int), h),
        elem(n, x.skip(h as int), h),
        x.take(h as int) + x.skip(h as int) == x,
{
    assert(x.take(h as int) + x.skip(h as int) =~= x);
}

/// Two elements of a level, put together, are an element of the next.
pub proof fn lemma_concat_elem(n: nat, x: Seq<Seq<bool>>, y: Seq<Seq<bool>>, h: nat)
    requires
        elem(n, x, h),
        elem(n, y, h),
    ensures
        elem(n, x + y, 2 * h),
        (x + y).take(h as int) == x,
        (x + y).skip(h as int) == y,
{
    assert((x + y).take(h as int) =~= x);
    assert((x + y).skip(h as int) =~= y);
}

/// The product with the basis element stays in the level.
pub proof fn lemma_basis_mul_elem(poly: Seq<bool>, unit: Seq<bool>, x: Seq<Seq<bool>>, h: nat)
    requires
        field_shape(poly, unit),
        power_of_two(h),
        elem(poly.len(), x, h),
    ensures
        elem(poly.len(), basis_mul(poly, unit, x), h),
    decreases h,
{
    let n = poly.len();
    if h == 1 {
        lemma_mul_len(poly, x[0], unit);
    } else {
        let k = h / 2;
        lemma_halves_elem(n, x, k);
        lemma_basis_mul_elem(poly, unit, x.skip(k as int), k);
        lemma_add_elem(n, basis_mul(poly, unit, x.skip(k as int)), x.take(k as int), k);
        lemma_concat_elem(
            n,
            x.skip(k as int),
            limbs_add(basis_mul(poly, unit, x.skip(k as int)), x.take(k as int)),
            k,
        );
    }
}

/// The product of two elements of a level is an element of that level.
pub proof fn lemma_tower_mul_elem(
    poly: Seq<bool>,
    unit: Seq<bool>,
    x: Seq<Seq<bool>>,
    y: Seq<Seq<bool>>,
    h: nat,
)
    requires
        field_shape(poly, unit),
        power_of_two(h),
        elem(poly.len(), x, h),
        elem(poly.len(), y, h),
    ensures
        elem(poly.len(), tower_mul(poly, unit, x, y), h),
    decreases h,
{
    let n = poly.len();
    if h == 1 {
        lemma_mul_len(poly, x[0], y[0]);
    } else {
        let k = h / 2;
        let ki = k as int;
        lemma_halves_elem(n, x, k);
        lemma_halves_elem(n, y, k);
        let ll = tower_mul(poly, unit, x.take(ki), y.take(ki));
        let hh = tower_mul(poly, unit, x.skip(ki), y.skip(ki));
        let xs = limbs_add(x.take(ki), x.skip(ki));
        let ys = limbs_add(y.take(ki), y.skip(ki));
        let ss = tower_mul(poly, unit, xs, ys);
        lemma_tower_mul_elem(poly, unit, x.take(ki), y.take(ki), k);
        lemma_tower_mul_elem(poly, unit, x.skip(ki), y.skip(ki), k);
        lemma_tower_mul_elem(poly, unit, xs, ys, k);
        lemma_basis_mul_elem(poly, unit, hh, k);
        let mid = limbs_add(limbs_add(ss, ll), hh);
        lemma_concat_elem(n, limbs_add(ll, hh), limbs_add(mid, basis_mul(poly, unit, hh)), k);
    }
}

/// The halves of a sum are the sums of the halves.
pub proof fn lemma_add_halves(n: nat, x: Seq<Seq<bool>>, y: Seq<Seq<bool>>, h: nat)
    requires
        elem(n, x, 2 * h),
        elem(n, y, 2 * h),
    ensures
        limbs_add(x, y).take(h as int) == limbs_add(x.take(h as int), y.take(h as int)),
        limbs_add(x, y).skip(h as int) == limbs_add(x.skip(h as int), y.skip(h as int)),
{
    assert(limbs_add(x, y).take(h as int) =~= limbs_add(x.take(h as int), y.take(h as int)));
    assert(limbs_add(x, y).skip(h as int) =~= limbs_add(x.skip(h as int), y.skip(h as int)));
}

/// The sum of two elements put together from halves is put together from
/// the sums of the halves.
pub proof fn lemma_add_concat(
    n: nat,
    x0: Seq<Seq<bool>>,
    x1: Seq<Seq<bool>>,
    y0: Seq<Seq<bool>>,
    y1: Seq<Seq<bool>>,
    h: nat,
)
    requires
        elem(n, x0, h),
        elem(n, x1, h),
        elem(n, y0, h),
        elem(n, y1, h),
    ensures
        limbs_add(x0 + x1, y0 + y1) == limbs_add(x0, y0) + limbs_add(x1, y1),
{
    assert(limbs_add(x0 + x1, y0 + y1) =~= limbs_add(x0, y0) + limbs_add(x1, y1));
}

/// `(w + x) + (y + z) = (w + y) + (x + z)`.
pub proof fn lemma_limbs_add_interchange(
    n: nat,
    w: Seq<Seq<bool>>,
    x: Seq<Seq<bool>>,
    y: Seq<Seq<bool>>,
    z: Seq<Seq<bool>>,
    h: nat,
)
    requires
        elem(n, w, h),
        elem(n, x, h),
        elem(n, y, h),
        elem(n, z, h),
    ensures
        limbs_add(limbs_add(w, x), limbs_add(y, z)) == limbs_add(
            limbs_add(w, y),
            limbs_add(x, z),
        ),
{
    assert(limbs_add(limbs_add(w, x), limbs_add(y, z)) =~~= limbs_add(
        limbs_add(w, y),
        limbs_add(x, z),
    ));
}

/// The product with the basis element distributes over the sum.
pub proof fn lemma_basis_mul_add(
    poly: Seq<bool>,
    unit: Seq<bool>,
    x: Seq<Seq<bool>>,
    y: Seq<Seq<bool>>,
    h: nat,
)
    requires
        field_shape(poly, unit),
        power_of_two(h),
        elem(poly.len(), x, h),
        elem(poly.len(), y, h),
    ensures
        basis_mul(poly, unit, limbs_add(x, y)) == limbs_add(
            basis_mul(poly, unit, x),
            basis_mul(poly, unit, y),
        ),
    decreases h,
{
    let n = poly.len();
    if h == 1 {
        lemma_mul_commutative(poly, xor_bits(x[0], y[0]), unit);
        lemma_mul_distributive(poly, unit, x[0], y[0]);
        lemma_mul_commutative(poly, x[0], unit);
        lemma_mul_commutative(poly, y[0], unit);
        assert(basis_mul(poly, unit, limbs_add(x, y)) =~= limbs_add(
            basis_mul(poly, unit, x),
            basis_mul(poly, unit, y),
        ));
    } else {
        let k = h / 2;
        let ki = k as int;
        lemma_halves_elem(n, x, k);
        lemma_halves_elem(n, y, k);
        lemma_add_halves(n, x, y, k);
        let (x0, x1, y0, y1) = (x.take(ki), x.skip(ki), y.take(ki), y.skip(ki));
        lemma_basis_mul_add(poly, unit, x1, y1, k);
        lemma_basis_mul_elem(poly, unit, x1, k);
        lemma_basis_mul_elem(poly, unit, y1, k);
        let bx = basis_mul(poly, unit, x1);
        let by = basis_mul(poly, unit, y1);
        lemma_limbs_add_interchange(n, bx, by, x0, y0, k);
        lemma_add_elem(n, bx, x0, k);
        lemma_add_elem(n, by, y0, k);
        lemma_add_concat(n, x1, limbs_add(bx, x0), y1, limbs_add(by, y0), k);
    }
}

/// `x * y = y * x`.
pub proof fn lemma_tower_mul_commutative(
    poly: Seq<bool>,
    unit: Seq<bool>,
    x: Seq<Seq<bool>>,
    y: Seq<Seq<bool>>,
    h: nat,
)
    requires
        field_shape(poly, unit),
        power_of_two(h),
        elem(poly.len(), x, h),
        elem(poly.len(), y, h),
    ensures
        tower_mul(poly, unit, x, y) == tower_mul(poly, unit, y, x),
    decreases h,
{
    let n = poly.len();
    if h == 1 {
        lemma_mul_commutative(poly, x[0], y[0]);
    } else {
        let k = h / 2;
        let ki = k as int;
        lemma_halves_elem(n, x, k);
        lemma_halves_elem(n, y, k);
        lemma_tower_mul_commutative(poly, unit, x.take(ki), y.take(ki), k);
        lemma_tower_mul_commutative(poly, unit, x.skip(ki), y.skip(ki), k);
        lemma_tower_mul_commutative(
            poly,
            unit,
            limbs_add(x.take(ki), x.skip(ki)),
            limbs_add(y.take(ki), y.skip(ki)),
            k,
        );
    }
}

/// `x * (y + z) = x * y + x * z`.
pub proof fn lemma_tower_mul_distributive(
    poly: Seq<bool>,
    unit: Seq<bool>,
    x: Seq<Seq<bool>>,
    y: Seq<Seq<bool>>,
    z: Seq<Seq<bool>>,
    h: nat,
)
    requires
        field_shape(poly, unit),
        power_of_two(h),
        elem(poly.len(), x, h),
        elem(poly.len(), y, h),
        elem(poly.len(), z, h),
    ensures
        tower_mul(poly, unit, x, limbs_add(y, z)) == limbs_add(
            tower_mul(poly, unit, x, y),
            tower_mul(poly, unit, x, z),
        ),
    decreases h,
{
    let n = poly.len();
    if h == 1 {
        lemma_mul_distributive(poly, x[0], y[0], z[0]);
        assert(tower_mul(poly, unit, x, limbs_add(y, z)) =~= limbs_add(
            tower_mul(poly, unit, x, y),
            tower_mul(poly, unit, x, z),
        ));
    } else {
        let k = h / 2;
        let ki = k as int;
        lemma_halves_elem(n, x, k);
        lemma_halves_elem(n, y, k);
        lemma_halves_elem(n, z, k);
        lemma_add_halves(n, y, z, k);
        let (x0, x1) = (x.take(ki), x.skip(ki));
        let (y0, y1) = (y.take(ki), y.skip(ki));
        let (z0, z1) = (z.take(ki), z.skip(ki));
        let xs = limbs_add(x0, x1);
        let ys = limbs_add(y0, y1);
        let zs = limbs_add(z0, z1);
        lemma_tower_mul_distributive(poly, unit, x0, y0, z0, k);
        lemma_tower_mul_distributive(poly, unit, x1, y1, z1, k);
        lemma_limbs_add_interchange(n, y0, z0, y1, z1, k);
        lemma_tower_mul_distributive(poly, unit, xs, ys, zs, k);
        let lly = tower_mul(poly, unit, x0, y0);
        let llz = tower_mul(poly, unit, x0, z0);
        let hhy = tower_mul(poly, unit, x1, y1);
        let hhz = tower_mul(poly, unit, x1, z1);
        let ssy = tower_mul(poly, unit, xs, ys);
        let ssz = tower_mul(poly, unit, xs, zs);
        lemma_tower_mul_elem(poly, unit, x0, y0, k);
        lemma_tower_mul_elem(poly, unit, x0, z0, k);
        lemma_tower_mul_elem(poly, unit, x1, y1, k);
        lemma_tower_mul_elem(poly, unit, x1, z1, k);
        lemma_tower_mul_elem(poly, unit, xs, ys, k);
        lemma_tower_mul_elem(poly, unit, xs, zs, k);
        lemma_basis_mul_add(poly, unit, hhy, hhz, k);
        lemma_basis_mul_elem(poly, unit, hhy, k);
        lemma_basis_mul_elem(poly, unit, hhz, k);
        let by = basis_mul(poly, unit, hhy);
        let bz = basis_mul(poly, unit, hhz);
        let midy = limbs_add(limbs_add(ssy, lly), hhy);
        let midz = limbs_add(limbs_add(ssz, llz), hhz);
        // low half
        lemma_limbs_add_interchange(n, lly, llz, hhy, hhz, k);
        // middle term
        lemma_limbs_add_interchange(n, ssy, ssz, lly, llz, k);
        lemma_limbs_add_interchange(n, limbs_add(ssy, lly), limbs_add(ssz, llz), hhy, hhz, k);
        // high half
        lemma_limbs_add_interchange(n, midy, midz, by, bz, k);
        lemma_add_concat(
            n,
            limbs_add(lly, hhy),
            limbs_add(midy, by),
            limbs_add(llz, hhz),
            limbs_add(midz, bz),
            k,
        );
    }
}

/// `(x + y) * z = x * z + y * z`.
pub proof fn lemma_tower_mul_distributive_left(
    poly: Seq<bool>,
    unit: Seq<bool>,
    x: Seq<Seq<bool>>,
    y: Seq<Seq<bool>>,
    z: Seq<Seq<bool>>,
    h: nat,
)
    requires
        field_shape(poly, unit),
        power_of_two(h),
        elem(poly.len(), x, h),
        elem(poly.len(), y, h),
        elem(poly.len(), z, h),
    ensures
        tower_mul(poly, unit, limbs_add(x, y), z) == limbs_add(
            tower_mul(poly, unit, x, z),
            tower_mul(poly, unit, y, z),
        ),
{
    lemma_tower_mul_commutative(poly, unit, limbs_add(x, y), z, h);
    lemma_tower_mul_distributive(poly, unit, z, x, y, h);
    lemma_tower_mul_commutative(poly, unit, z, x, h);
    lemma_tower_mul_commutative(poly, unit, z, y, h);
}

/// The product written with four products of the halves: with `x0, x1`
/// and `y0, y1` the halves of the factors and `b` the product with the
/// basis element one level down, it is `(x0 y0 + x1 y1, x0 y1 + x1 y0 +
/// b(x1 y1))`.
pub open spec fn product_by_halves(
    poly: Seq<bool>,
    unit: Seq<bool>,
    x: Seq<Seq<bool>>,
    y: Seq<Seq<bool>>,
) -> Seq<Seq<bool>> {
    let k = (x.len() / 2) as int;
    let ll = tower_mul(poly, unit, x.take(k), y.take(k));
    let lh = tower_mul(poly, unit, x.take(k), y.skip(k));
    let hl = tower_mul(poly, unit, x.skip(k), y.take(k));
    let hh = tower_mul(poly, unit, x.skip(k), y.skip(k));
    limbs_add(ll, hh) + limbs_add(limbs_add(lh, hl), basis_mul(poly, unit, hh))
}

/// The product by three half-size products is the product by four.
pub proof fn lemma_tower_mul_by_halves(
    poly: Seq<bool>,
    unit: Seq<bool>,
    x: Seq<Seq<bool>>,
    y: Seq<Seq<bool>>,
    h: nat,
)
    requires
        field_shape(poly, unit),
        power_of_two(h),
        h >= 2,
        elem(poly.len(), x, h),
        elem(poly.len(), y, h),
    ensures
        tower_mul(poly, unit, x, y) == product_by_halves(poly, unit, x, y),
{
    let n = poly.len();
    let k = h / 2;
    let ki = k as int;
    lemma_halves_elem(n, x, k);
    lemma_halves_elem(n, y, k);
    let (x0, x1) = (x.take(ki), x.skip(ki));
    let (y0, y1) = (y.take(ki), y.skip(ki));
    let ys = limbs_add(y0, y1);
    lemma_tower_mul_distributive_left(poly, unit, x0, x1, ys, k);
    lemma_tower_mul_distributive(poly, unit, x0, y0, y1, k);
    lemma_tower_mul_distributive(poly, unit, x1, y0, y1, k);
    let ll = tower_mul(poly, unit, x0, y0);
    let lh = tower_mul(poly, unit, x0, y1);
    let hl = tower_mul(poly, unit, x1, y0);
    let hh = tower_mul(poly, unit, x1, y1);
    lemma_tower_mul_elem(poly, unit, x0, y0, k);
    lemma_tower_mul_elem(poly, unit, x0, y1, k);
    lemma_tower_mul_elem(poly, unit, x1, y0, k);
    lemma_tower_mul_elem(poly, unit, x1, y1, k);
    let ss = limbs_add(limbs_add(ll, lh), limbs_add(hl, hh));
    assert(limbs_add(limbs_add(ss, ll), hh) =~~= limbs_add(lh, hl));
}

/// The product by three half-size products at every level is the product
/// that the tower's relation defines.
pub proof fn lemma_tower_mul_is_schoolbook(
    poly: Seq<bool>,
    unit: Seq<bool>,
    x: Seq<Seq<bool>>,
    y: Seq<Seq<bool>>,
    h: nat,
)
    requires
        field_shape(poly, unit),
        power_of_two(h),
        elem(poly.len(), x, h),
        elem(poly.len(), y, h),
    ensures
        tower_mul(poly, unit, x, y) == schoolbook_mul(poly, unit, x, y),
    decreases h,
{
    if h >= 2 {
        let n = poly.len();
        let k = h / 2;
        let ki = k as int;
        lemma_halves_elem(n, x, k);
        lemma_halves_elem(n, y, k);
        lemma_tower_mul_by_halves(poly, unit, x, y, h);
        lemma_tower_mul_is_schoolbook(poly, unit, x.take(ki), y.take(ki), k);
        lemma_tower_mul_is_schoolbook(poly, unit, x.take(ki), y.skip(ki), k);
        lemma_tower_mul_is_schoolbook(poly, unit, x.skip(ki), y.take(ki), k);
        lemma_tower_mul_is_schoolbook(poly, unit, x.skip(ki), y.skip(ki), k);
    }
}

/// The product with the basis element is the product with one element of
/// the level: `b(x * y) = b(x) * y`.
pub proof fn lemma_basis_mul_of_product(
    poly: Seq<bool>,
    unit: Seq<bool>,
    x: Seq<Seq<bool>>,
    y: Seq<Seq<bool>>,
    h: nat,
)
    requires
        field_shape(poly, unit),
        power_of_two(h),
        elem(poly.len(), x, h),
        elem(poly.len(), y, h),
    ensures
        basis_mul(poly, unit, tower_mul(poly, unit, x, y)) == tower_mul(
            poly,
            unit,
            basis_mul(poly, unit, x),
            y,
        ),
    decreases h,
{
    let n = poly.len();
    if h == 1 {
        lemma_mul_associative(poly, x[0], unit, y[0]);
        lemma_mul_commutative(poly, unit, y[0]);
        lemma_mul_associative(poly, x[0], y[0], unit);
        assert(basis_mul(poly, unit, tower_mul(poly, unit, x, y)) =~= tower_mul(
            poly,
            unit,
            basis_mul(poly, unit, x),
            y,
        ));
    } else {
        let k = h / 2;
        let ki = k as int;
        lemma_halves_elem(n, x, k);
        lemma_halves_elem(n, y, k);
        let (x0, x1) = (x.take(ki), x.skip(ki));
        let (y0, y1) = (y.take(ki), y.skip(ki));
        let ll = tower_mul(poly, unit, x0, y0);
        let lh = tower_mul(poly, unit, x0, y1);
        let hl = tower_mul(poly, unit, x1, y0);
        let hh = tower_mul(poly, unit, x1, y1);
        lemma_tower_mul_elem(poly, unit, x0, y0, k);
        lemma_tower_mul_elem(poly, unit, x0, y1, k);
        lemma_tower_mul_elem(poly, unit, x1, y0, k);
        lemma_tower_mul_elem(poly, unit, x1, y1, k);
        let bhh = basis_mul(poly, unit, hh);
        let bhl = basis_mul(poly, unit, hl);
        let blh = basis_mul(poly, unit, lh);
        let bbhh = basis_mul(poly, unit, bhh);
        lemma_basis_mul_elem(poly, unit, hh, k);
        lemma_basis_mul_elem(poly, unit, hl, k);
        lemma_basis_mul_elem(poly, unit, lh, k);
        lemma_basis_mul_elem(poly, unit, bhh, k);
        // The left side: the product, then the basis element.
        lemma_tower_mul_by_halves(poly, unit, x, y, h);
        let p = limbs_add(ll, hh);
        let q = limbs_add(limbs_add(lh, hl), bhh);
        lemma_concat_elem(n, p, q, k);
        lemma_basis_mul_add(poly, unit, limbs_add(lh, hl), bhh, k);
        lemma_basis_mul_add(poly, unit, lh, hl, k);
        let left = q + limbs_add(limbs_add(limbs_add(blh, bhl), bbhh), p);
        assert(basis_mul(poly, unit, tower_mul(poly, unit, x, y)) == left);
        // The right side: the basis element, then the product.
        let bx1 = basis_mul(poly, unit, x1);
        lemma_basis_mul_elem(poly, unit, x1, k);
        let t0 = x1;
        let t1 = limbs_add(bx1, x0);
        lemma_concat_elem(n, t0, t1, k);
        lemma_tower_mul_by_halves(poly, unit, t0 + t1, y, h);
        lemma_tower_mul_distributive_left(poly, unit, bx1, x0, y1, k);
        lemma_tower_mul_distributive_left(poly, unit, bx1, x0, y0, k);
        lemma_basis_mul_of_product(poly, unit, x1, y1, k);
        lemma_basis_mul_of_product(poly, unit, x1, y0, k);
        lemma_basis_mul_add(poly, unit, bhh, lh, k);
        let right = limbs_add(hl, limbs_add(bhh, lh)) + limbs_add(
            limbs_add(hh, limbs_add(bhl, ll)),
            limbs_add(bbhh, blh),
        );
        assert(tower_mul(poly, unit, basis_mul(poly, unit, x), y) == right);
        assert(limbs_add(hl, limbs_add(bhh, lh)) =~~= q);
        assert(limbs_add(hh, limbs_add(bhl, ll)) =~~= limbs_add(limbs_add(ll, hh), bhl));
        assert(limbs_add(limbs_add(hh, limbs_add(bhl, ll)), limbs_add(bbhh, blh)) =~~= limbs_add(
            limbs_add(limbs_add(blh, bhl), bbhh),
            p,
        ));
    }
}

/// `b(0) = 0`.
pub proof fn lemma_basis_mul_zero(poly: Seq<bool>, unit: Seq<bool>, h: nat)
    requires
        field_shape(poly, unit),
        power_of_two(h),
    ensures
        basis_mul(poly, unit, tower_zero(poly.len(), h)) == tower_zero(poly.len(), h),
    decreases h,
{
    let n = poly.len();
    let z = tower_zero(n, h);
    if h == 1 {
        lemma_mul_commutative(poly, zeros(n), unit);
        lemma_mul_zero(poly, unit);
        assert(basis_mul(poly, unit, z) =~= z);
    } else {
        let k = h / 2;
        let zk = tower_zero(n, k);
        assert(z.take(k as int) =~= zk);
        assert(z.skip(k as int) =~= zk);
        lemma_basis_mul_zero(poly, unit, k);
        assert(limbs_add(zk, zk) =~~= zk);
        assert(zk + zk =~= z);
    }
}

/// `x * 0 = 0`.
pub proof fn lemma_tower_mul_zero(poly: Seq<bool>, unit: Seq<bool>, x: Seq<Seq<bool>>, h: nat)
    requires
        field_shape(poly, unit),
        power_of_two(h),
        elem(poly.len(), x, h),
    ensures
        tower_mul(poly, unit, x, tower_zero(poly.len(), h)) == tower_zero(poly.len(), h),
    decreases h,
{
    let n = poly.len();
    let z = tower_zero(n, h);
    if h == 1 {
        lemma_mul_zero(poly, x[0]);
        assert(tower_mul(poly, unit, x, z) =~= z);
    } else {
        let k = h / 2;
        let ki = k as int;
        let zk = tower_zero(n, k);
        lemma_halves_elem(n, x, k);
        assert(z.take(ki) =~= zk);
        assert(z.skip(ki) =~= zk);
        assert(limbs_add(zk, zk) =~~= zk);
        lemma_tower_mul_zero(poly, unit, x.take(ki), k);
        lemma_tower_mul_zero(poly, unit, x.skip(ki), k);
        lemma_tower_mul_zero(poly, unit, limbs_add(x.take(ki), x.skip(ki)), k);
        lemma_basis_mul_zero(poly, unit, k);
        assert(zk + zk =~= z);
    }
}

/// `x * 1 = x`.
pub proof fn lemma_tower_mul_one(poly: Seq<bool>, unit: Seq<bool>, x: Seq<Seq<bool>>, h: nat)
    requires
        field_shape(poly, unit),
        power_of_two(h),
        elem(poly.len(), x, h),
    ensures
        tower_mul(poly, unit, x, tower_one(poly.len(), h)) == x,
    decreases h,
{
    let n = poly.len();
    let one = tower_one(n, h);
    if h == 1 {
        lemma_mul_one(poly, x[0]);
        assert(tower_mul(poly, unit, x, one) =~= x);
    } else {
        let k = h / 2;
        let ki = k as int;
        let zk = tower_zero(n, k);
        let ok = tower_one(n, k);
        lemma_halves_elem(n, x, k);
        let (x0, x1) = (x.take(ki), x.skip(ki));
        assert(one.take(ki) =~= ok);
        assert(one.skip(ki) =~= zk);
        assert(limbs_add(ok, zk) =~~= ok);
        lemma_tower_mul_one(poly, unit, x0, k);
        lemma_tower_mul_zero(poly, unit, x1, k);
        lemma_tower_mul_one(poly, unit, limbs_add(x0, x1), k);
        lemma_basis_mul_zero(poly, unit, k);
        assert(limbs_add(x0, zk) =~~= x0);
        assert(limbs_add(limbs_add(limbs_add(x0, x1), x0), zk) =~~= x1);
        assert(limbs_add(x1, zk) =~~= x1);
    }
}

/// `x * b(y) = b(x * y)`.
pub proof fn lemma_basis_mul_of_product_right(
    poly: Seq<bool>,
    unit: Seq<bool>,
    x: Seq<Seq<bool>>,
    y: Seq<Seq<bool>>,
    h: nat,
)
    requires
        field_shape(poly, unit),
        power_of_two(h),
        elem(poly.len(), x, h),
        elem(poly.len(), y, h),
    ensures
        tower_mul(poly, unit, x, basis_mul(poly, unit, y)) == basis_mul(
            poly,
            unit,
            tower_mul(poly, unit, x, y),
        ),
{
    lemma_basis_mul_elem(poly, unit, y, h);
    lemma_tower_mul_commutative(poly, unit, x, basis_mul(poly, unit, y), h);
    lemma_basis_mul_of_product(poly, unit, y, x, h);
    lemma_tower_mul_commutative(poly, unit, y, x, h);
}

/// A product of three factors in terms of the eight products of their
/// halves: `m_ijk` stands for the product of half `i` of the first, half
/// `j` of the second and half `k` of the third factor.
pub open spec fn triple_product(
    poly: Seq<bool>,
    unit: Seq<bool>,
    m000: Seq<Seq<bool>>,
    m001: Seq<Seq<bool>>,
    m010: Seq<Seq<bool>>,
    m011: Seq<Seq<bool>>,
    m100: Seq<Seq<bool>>,
    m101: Seq<Seq<bool>>,
    m110: Seq<Seq<bool>>,
    m111: Seq<Seq<bool>>,
) -> Seq<Seq<bool>> {
    let b011 = basis_mul(poly, unit, m011);
    let b101 = basis_mul(poly, unit, m101);
    let b110 = basis_mul(poly, unit, m110);
    let b111 = basis_mul(poly, unit, m111);
    let bb111 = basis_mul(poly, unit, b111);
    let low = limbs_add(limbs_add(limbs_add(limbs_add(m000, m110), m011), m101), b111);
    let high = limbs_add(
        limbs_add(
            limbs_add(
                limbs_add(limbs_add(limbs_add(limbs_add(m001, m111), m010), m100), b110),
                b011,
            ),
            b101,
        ),
        bb111,
    );
    low + high
}

/// `(a * b) * c` in terms of the products `(a_i * b_j) * c_k` of the halves.
proof fn lemma_triple_product_left(
    poly: Seq<bool>,
    unit: Seq<bool>,
    a: Seq<Seq<bool>>,
    b: Seq<Seq<bool>>,
    c: Seq<Seq<bool>>,
    h: nat,
)
    requires
        field_shape(poly, unit),
        power_of_two(h),
        h >= 2,
        elem(poly.len(), a, h),
        elem(poly.len(), b, h),
        elem(poly.len(), c, h),
    ensures
        ({
            let k = (h / 2) as int;
            let (a0, a1) = (a.take(k), a.skip(k));
            let (b0, b1) = (b.take(k), b.skip(k));
            let (c0, c1) = (c.take(k), c.skip(k));
            tower_mul(poly, unit, tower_mul(poly, unit, a, b), c) == triple_product(
                poly,
                unit,
                tower_mul(poly, unit, tower_mul(poly, unit, a0, b0), c0),
                tower_mul(poly, unit, tower_mul(poly, unit, a0, b0), c1),
                tower_mul(poly, unit, tower_mul(poly, unit, a0, b1), c0),
                tower_mul(poly, unit, tower_mul(poly, unit, a0, b1), c1),
                tower_mul(poly, unit, tower_mul(poly, unit, a1, b0), c0),
                tower_mul(poly, unit, tower_mul(poly, unit, a1, b0), c1),
                tower_mul(poly, unit, tower_mul(poly, unit, a1, b1), c0),
                tower_mul(poly, unit, tower_mul(poly, unit, a1, b1), c1),
            )
        }),
{
    let n = poly.len();
    let k = h / 2;
    let ki = k as int;
    lemma_halves_elem(n, a, k);
    lemma_halves_elem(n, b, k);
    lemma_halves_elem(n, c, k);
    let (a0, a1) = (a.take(ki), a.skip(ki));
    let (b0, b1) = (b.take(ki), b.skip(ki));
    let (c0, c1) = (c.take(ki), c.skip(ki));
    let ll = tower_mul(poly, unit, a0, b0);
    let lh = tower_mul(poly, unit, a0, b1);
    let hl = tower_mul(poly, unit, a1, b0);
    let hh = tower_mul(poly, unit, a1, b1);
    lemma_tower_mul_elem(poly, unit, a0, b0, k);
    lemma_tower_mul_elem(poly, unit, a0, b1, k);
    lemma_tower_mul_elem(poly, unit, a1, b0, k);
    lemma_tower_mul_elem(poly, unit, a1, b1, k);
    let bhh = basis_mul(poly, unit, hh);
    lemma_basis_mul_elem(poly, unit, hh, k);
    lemma_tower_mul_by_halves(poly, unit, a, b, h);
    let p = limbs_add(ll, hh);
    let q = limbs_add(limbs_add(lh, hl), bhh);
    lemma_concat_elem(n, p, q, k);
    lemma_tower_mul_by_halves(poly, unit, p + q, c, h);
    let m000 = tower_mul(poly, unit, ll, c0);
    let m001 = tower_mul(poly, unit, ll, c1);
    let m010 = tower_mul(poly, unit, lh, c0);
    let m011 = tower_mul(poly, unit, lh, c1);
    let m100 = tower_mul(poly, unit, hl, c0);
    let m101 = tower_mul(poly, unit, hl, c1);
    let m110 = tower_mul(poly, unit, hh, c0);
    let m111 = tower_mul(poly, unit, hh, c1);
    lemma_tower_mul_elem(poly, unit, ll, c0, k);
    lemma_tower_mul_elem(poly, unit, ll, c1, k);
    lemma_tower_mul_elem(poly, unit, lh, c0, k);
    lemma_tower_mul_elem(poly, unit, lh, c1, k);
    lemma_tower_mul_elem(poly, unit, hl, c0, k);
    lemma_tower_mul_elem(poly, unit, hl, c1, k);
    lemma_tower_mul_elem(poly, unit, hh, c0, k);
    lemma_tower_mul_elem(poly, unit, hh, c1, k);
    // p * c0, p * c1
    lemma_tower_mul_distributive_left(poly, unit, ll, hh, c0, k);
    lemma_tower_mul_distributive_left(poly, unit, ll, hh, c1, k);
    // q * c0, q * c1
    lemma_tower_mul_distributive_left(poly, unit, limbs_add(lh, hl), bhh, c0, k);
    lemma_tower_mul_distributive_left(poly, unit, limbs_add(lh, hl), bhh, c1, k);
    lemma_tower_mul_distributive_left(poly, unit, lh, hl, c0, k);
    lemma_tower_mul_distributive_left(poly, unit, lh, hl, c1, k);
    lemma_basis_mul_of_product(poly, unit, hh, c0, k);
    lemma_basis_mul_of_product(poly, unit, hh, c1, k);
    let b110 = basis_mul(poly, unit, m110);
    let b111 = basis_mul(poly, unit, m111);
    let b011 = basis_mul(poly, unit, m011);
    let b101 = basis_mul(poly, unit, m101);
    let bb111 = basis_mul(poly, unit, b111);
    lemma_basis_mul_elem(poly, unit, m110, k);
    lemma_basis_mul_elem(poly, unit, m111, k);
    lemma_basis_mul_elem(poly, unit, m011, k);
    lemma_basis_mul_elem(poly, unit, m101, k);
    lemma_basis_mul_elem(poly, unit, b111, k);
    let pc0 = limbs_add(m000, m110);
    let pc1 = limbs_add(m001, m111);
    let qc0 = limbs_add(limbs_add(m010, m100), b110);
    let qc1 = limbs_add(limbs_add(m011, m101), b111);
    assert(tower_mul(poly, unit, p, c0) == pc0);
    assert(tower_mul(poly, unit, p, c1) == pc1);
    assert(tower_mul(poly, unit, q, c0) == qc0);
    assert(tower_mul(poly, unit, q, c1) == qc1);
    // b(q * c1)
    lemma_basis_mul_add(poly, unit, limbs_add(m011, m101), b111, k);
    lemma_basis_mul_add(poly, unit, m011, m101, k);
    let bqc1 = limbs_add(limbs_add(b011, b101), bb111);
    assert(basis_mul(poly, unit, qc1) == bqc1);
    let low = limbs_add(pc0, qc1);
    let high = limbs_add(limbs_add(pc1, qc0), bqc1);
    assert(tower_mul(poly, unit, p + q, c) == low + high);
    assert(low =~~= limbs_add(limbs_add(limbs_add(limbs_add(m000, m110), m011), m101), b111));
    assert(high =~~= limbs_add(
        limbs_add(
            limbs_add(
                limbs_add(limbs_add(limbs_add(limbs_add(m001, m111), m010), m100), b110),
                b011,
            ),
            b101,
        ),
        bb111,
    ));
}

/// `a * (b * c)` in terms of the products `a_i * (b_j * c_k)` of the halves.
proof fn lemma_triple_product_right(
    poly: Seq<bool>,
    unit: Seq<bool>,
    a: Seq<Seq<bool>>,
    b: Seq<Seq<bool>>,
    c: Seq<Seq<bool>>,
    h: nat,
)
    requires
        field_shape(poly, unit),
        power_of_two(h),
        h >= 2,
        elem(poly.len(), a, h),
        elem(poly.len(), b, h),
        elem(poly.len(), c, h),
    ensures
        ({
            let k = (h / 2) as int;
            let (a0, a1) = (a.take(k), a.skip(k));
            let (b0, b1) = (b.take(k), b.skip(k));
            let (c0, c1) = (c.take(k), c.skip(k));
            tower_mul(poly, unit, a, tower_mul(poly, unit, b, c)) == triple_product(
                poly,
                unit,
                tower_mul(poly, unit, a0, tower_mul(poly, unit, b0, c0)),
                tower_mul(poly, unit, a0, tower_mul(poly, unit, b0, c1)),
                tower_mul(poly, unit, a0, tower_mul(poly, unit, b1, c0)),
                tower_mul(poly, unit, a0, tower_mul(poly, unit, b1, c1)),
                tower_mul(poly, unit, a1, tower_mul(poly, unit, b0, c0)),
                tower_mul(poly, unit, a1, tower_mul(poly, unit, b0, c1)),
                tower_mul(poly, unit, a1, tower_mul(poly, unit, b1, c0)),
                tower_mul(poly, unit, a1, tower_mul(poly, unit, b1, c1)),
            )
        }),
{
    let n = poly.len();
    let k = h / 2;
    let ki = k as int;
    lemma_halves_elem(n, a, k);
    lemma_halves_elem(n, b, k);
    lemma_halves_elem(n, c, k);
    let (a0, a1) = (a.take(ki), a.skip(ki));
    let (b0, b1) = (b.take(ki), b.skip(ki));
    let (c0, c1) = (c.take(ki), c.skip(ki));
    let ll = tower_mul(poly, unit, b0, c0);
    let lh = tower_mul(poly, unit, b0, c1);
    let hl = tower_mul(poly, unit, b1, c0);
    let hh = tower_mul(poly, unit, b1, c1);
    lemma_tower_mul_elem(poly, unit, b0, c0, k);
    lemma_tower_mul_elem(poly, unit, b0, c1, k);
    lemma_tower_mul_elem(poly, unit, b1, c0, k);
    lemma_tower_mul_elem(poly, unit, b1, c1, k);
    let bhh = basis_mul(poly, unit, hh);
    lemma_basis_mul_elem(poly, unit, hh, k);
    lemma_tower_mul_by_halves(poly, unit, b, c, h);
    let s = limbs_add(ll, hh);
    let t = limbs_add(limbs_add(lh, hl), bhh);
    lemma_concat_elem(n, s, t, k);
    lemma_tower_mul_by_halves(poly, unit, a, s + t, h);
    let m000 = tower_mul(poly, unit, a0, ll);
    let m001 = tower_mul(poly, unit, a0, lh);
    let m010 = tower_mul(poly, unit, a0, hl);
    let m011 = tower_mul(poly, unit, a0, hh);
    let m100 = tower_mul(poly, unit, a1, ll);
    let m101 = tower_mul(poly, unit, a1, lh);
    let m110 = tower_mul(poly, unit, a1, hl);
    let m111 = tower_mul(poly, unit, a1, hh);
    lemma_tower_mul_elem(poly, unit, a0, ll, k);
    lemma_tower_mul_elem(poly, unit, a0, lh, k);
    lemma_tower_mul_elem(poly, unit, a0, hl, k);
    lemma_tower_mul_elem(poly, unit, a0, hh, k);
    lemma_tower_mul_elem(poly, unit, a1, ll, k);
    lemma_tower_mul_elem(poly, unit, a1, lh, k);
    lemma_tower_mul_elem(poly, unit, a1, hl, k);
    lemma_tower_mul_elem(poly, unit, a1, hh, k);
    // a0 * s, a1 * s
    lemma_tower_mul_distributive(poly, unit, a0, ll, hh, k);
    lemma_tower_mul_distributive(poly, unit, a1, ll, hh, k);
    // a0 * t, a1 * t
    lemma_tower_mul_distributive(poly, unit, a0, limbs_add(lh, hl), bhh, k);
    lemma_tower_mul_distributive(poly, unit, a1, limbs_add(lh, hl), bhh, k);
    lemma_tower_mul_distributive(poly, unit, a0, lh, hl, k);
    lemma_tower_mul_distributive(poly, unit, a1, lh, hl, k);
    lemma_basis_mul_of_product_right(poly, unit, a0, hh, k);
    lemma_basis_mul_of_product_right(poly, unit, a1, hh, k);
    let b011 = basis_mul(poly, unit, m011);
    let b111 = basis_mul(poly, unit, m111);
    let b101 = basis_mul(poly, unit, m101);
    let b110 = basis_mul(poly, unit, m110);
    let bb111 = basis_mul(poly, unit, b111);
    lemma_basis_mul_elem(poly, unit, m011, k);
    lemma_basis_mul_elem(poly, unit, m111, k);
    lemma_basis_mul_elem(poly, unit, m101, k);
    lemma_basis_mul_elem(poly, unit, m110, k);
    lemma_basis_mul_elem(poly, unit, b111, k);
    let a0s = limbs_add(m000, m011);
    let a1s = limbs_add(m100, m111);
    let a0t = limbs_add(limbs_add(m001, m010), b011);
    let a1t = limbs_add(limbs_add(m101, m110), b111);
    assert(tower_mul(poly, unit, a0, s) == a0s);
    assert(tower_mul(poly, unit, a1, s) == a1s);
    assert(tower_mul(poly, unit, a0, t) == a0t);
    assert(tower_mul(poly, unit, a1, t) == a1t);
    // b(a1 * t)
    lemma_basis_mul_add(poly, unit, limbs_add(m101, m110), b111, k);
    lemma_basis_mul_add(poly, unit, m101, m110, k);
    let ba1t = limbs_add(limbs_add(b101, b110), bb111);
    assert(basis_mul(poly, unit, a1t) == ba1t);
    let low = limbs_add(a0s, a1t);
    let high = limbs_add(limbs_add(a0t, a1s), ba1t);
    assert(tower_mul(poly, unit, a, s + t) == low + high);
    assert(low =~~= limbs_add(limbs_add(limbs_add(limbs_add(m000, m110), m011), m101), b111));
    assert(high =~~= limbs_add(
        limbs_add(
            limbs_add(
                limbs_add(limbs_add(limbs_add(limbs_add(m001, m111), m010), m100), b110),
                b011,
            ),
            b101,
        ),
        bb111,
    ));
}

/// `(a * b) * c = a * (b * c)`.
pub proof fn lemma_tower_mul_associative(
    poly: Seq<bool>,
    unit: Seq<bool>,
    a: Seq<Seq<bool>>,
    b: Seq<Seq<bool>>,
    c: Seq<Seq<bool>>,
    h: nat,
)
    requires
        field_shape(poly, unit),
        power_of_two(h),
        elem(poly.len(), a, h),
        elem(poly.len(), b, h),
        elem(poly.len(), c, h),
    ensures
        tower_mul(poly, unit, tower_mul(poly, unit, a, b), c) == tower_mul(
            poly,
            unit,
            a,
            tower_mul(poly, unit, b, c),
        ),
    decreases h,
{
    let n = poly.len();
    if h == 1 {
        lemma_mul_associative(poly, a[0], b[0], c[0]);
        assert(tower_mul(poly, unit, a, b)[0] == field_mul(poly, a[0], b[0]));
        assert(tower_mul(poly, unit, b, c)[0] == field_mul(poly, b[0], c[0]));
    } else {
        let k = h / 2;
        let ki = k as int;
        lemma_halves_elem(n, a, k);
        lemma_halves_elem(n, b, k);
        lemma_halves_elem(n, c, k);
        let (a0, a1) = (a.take(ki), a.skip(ki));
        let (b0, b1) = (b.take(ki), b.skip(ki));
        let (c0, c1) = (c.take(ki), c.skip(ki));
        lemma_tower_mul_associative(poly, unit, a0, b0, c0, k);
        lemma_tower_mul_associative(poly, unit, a0, b0, c1, k);
        lemma_tower_mul_associative(poly, unit, a0, b1, c0, k);
        lemma_tower_mul_associative(poly, unit, a0, b1, c1, k);
        lemma_tower_mul_associative(poly, unit, a1, b0, c0, k);
        lemma_tower_mul_associative(poly, unit, a1, b0, c1, k);
        lemma_tower_mul_associative(poly, unit, a1, b1, c0, k);
        lemma_tower_mul_associative(poly, unit, a1, b1, c1, k);
        lemma_triple_product_left(poly, unit, a, b, c, h);
        lemma_triple_product_right(poly, unit, a, b, c, h);
    }
}

/// The product with the basis element is the product of the level with
/// the level's basis element.
pub proof fn lemma_basis_mul_is_product(
    poly: Seq<bool>,
    unit: Seq<bool>,
    x: Seq<Seq<bool>>,
    h: nat,
)
    requires
        field_shape(poly, unit),
        power_of_two(h),
        elem(poly.len(), x, h),
    ensures
        basis_mul(poly, unit, x) == tower_mul(poly, unit, x, tower_basis(unit, h)),
{
    let n = poly.len();
    let y = tower_basis(unit, h);
    if h == 1 {
        assert(tower_mul(poly, unit, x, y) =~= basis_mul(poly, unit, x));
    } else {
        let k = h / 2;
        let ki = k as int;
        lemma_halves_elem(n, x, k);
        let (x0, x1) = (x.take(ki), x.skip(ki));
        let zk = tower_zero(n, k);
        let ok = tower_one(n, k);
        assert(y.take(ki) =~= zk);
        assert(y.skip(ki) =~= ok);
        lemma_tower_mul_by_halves(poly, unit, x, y, h);
        lemma_tower_mul_zero(poly, unit, x0, k);
        lemma_tower_mul_zero(poly, unit, x1, k);
        lemma_tower_mul_one(poly, unit, x0, k);
        lemma_tower_mul_one(poly, unit, x1, k);
        lemma_basis_mul_elem(poly, unit, x1, k);
        let bx1 = basis_mul(poly, unit, x1);
        assert(limbs_add(zk, x1) =~~= x1);
        assert(limbs_add(limbs_add(x0, zk), bx1) =~~= limbs_add(bx1, x0));
    }
}

/// The relation that defines the tower: the basis element `y` of a level
/// above 0 squares to `1 + b y`, where `b` is the basis element one level
/// down. In limbs, the lower half of `y y` is the one and the upper half
/// is `b`.
pub proof fn lemma_basis_square(poly: Seq<bool>, unit: Seq<bool>, h: nat)
    requires
        field_shape(poly, unit),
        power_of_two(h),
        h >= 2,
    ensures
        tower_mul(poly, unit, tower_basis(unit, h), tower_basis(unit, h)) == tower_one(
            poly.len(),
            h / 2,
        ) + tower_basis(unit, h / 2),
{
    let n = poly.len();
    let k = h / 2;
    let ki = k as int;
    let y = tower_basis(unit, h);
    let b = tower_basis(unit, k);
    let ok = tower_one(n, k);
    let zk = tower_zero(n, k);
    assert(elem(n, y, h));
    assert(elem(n, b, k));
    lemma_basis_mul_is_product(poly, unit, y, h);
    assert(y.take(ki) =~= zk);
    assert(y.skip(ki) =~= ok);
    lemma_basis_mul_is_product(poly, unit, ok, k);
    lemma_tower_mul_commutative(poly, unit, ok, b, k);
    lemma_tower_mul_one(poly, unit, b, k);
    assert(limbs_add(b, zk) =~~= b);
}

} // verus!
