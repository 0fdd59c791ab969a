//! The laws of the tower across levels. An element of a lower level counts
//! as the element of a higher level with the same lower limbs and zero
//! upper limbs; with that, `ring_add` and `ring_mul` are the sum and the
//! product of one commutative ring that holds every level.
use crate::bits::zeros;
use crate::tower_laws::{
    lemma_basis_mul_zero, lemma_halves_elem, lemma_tower_mul_associative,
    lemma_tower_mul_commutative, lemma_tower_mul_distributive, lemma_tower_mul_elem,
    lemma_tower_mul_by_halves, lemma_tower_mul_one, lemma_tower_mul_zero,
};
use crate::tower_model::{
    chunked_mul, elem, field_shape, limbs_add, power_of_two, ring_add, ring_mul, shaped,
    tower_mul, tower_one, tower_zero,
};
use crate::tower::lemma_power_of_two_divides;
use vstd::prelude::*;

verus! {

/// `x` is an element of some level: a power of two of limbs of `n`
/// coefficients each.
pub open spec fn well_formed(n: nat, x: Seq<Seq<bool>>) -> bool {
    power_of_two(x.len()) && shaped(x, n)
}

/// `x` as an element of the level with `h` limbs: zero limbs are added
/// above its own.
pub open spec fn pad(n: nat, x: Seq<Seq<bool>>, h: nat) -> Seq<Seq<bool>> {
    Seq::new(h, |i: int| if i < x.len() { x[i] } else { zeros(n) })
}

/// The larger of two numbers of limbs.
pub open spec fn longer(a: nat, b: nat) -> nat {
    if a <= b {
        b
    } else {
        a
    }
}

/// Of two powers of two the smaller is at most half the larger.
proof fn lemma_power_of_two_half(s: nat, h: nat)
    requires
        power_of_two(s),
        power_of_two(h),
        s < h,
    ensures
        h % 2 == 0,
        s <= h / 2,
        power_of_two(h / 2),
{
    lemma_power_of_two_divides(s, h);
    assert(s <= h / 2) by (nonlinear_arith)
        requires
            h % s == 0,
            0 < s < h,
    {
        let q = h / s;
        assert(h == s * q);
        assert(q >= 2);
    }
}

/// Padding keeps the limbs, fills with zeros, and can be done in steps.
pub proof fn lemma_pad(n: nat, x: Seq<Seq<bool>>, k: nat, h: nat)
    requires
        shaped(x, n),
        x.len() <= k <= h,
    ensures
        elem(n, pad(n, x, h), h),
        pad(n, x, x.len()) == x,
        pad(n, pad(n, x, k), h) == pad(n, x, h),
{
    assert(pad(n, x, x.len()) =~= x);
    assert(pad(n, pad(n, x, k), h) =~= pad(n, x, h));
}

/// Two elements of one length that agree after padding are equal.
pub proof fn lemma_pad_injective(n: nat, x: Seq<Seq<bool>>, y: Seq<Seq<bool>>, h: nat)
    requires
        x.len() == y.len(),
        x.len() <= h,
        pad(n, x, h) == pad(n, y, h),
    ensures
        x == y,
{
    assert forall|i: int| 0 <= i < x.len() implies x[i] == y[i] by {
        assert(pad(n, x, h)[i] == x[i]);
        assert(pad(n, y, h)[i] == y[i]);
    }
    assert(x =~= y);
}

/// The halves of a padded element: the element padded to half the length,
/// and zero.
proof fn lemma_pad_halves(n: nat, x: Seq<Seq<bool>>, k: nat)
    requires
        x.len() <= k,
    ensures
        pad(n, x, 2 * k).take(k as int) == pad(n, x, k),
        pad(n, x, 2 * k).skip(k as int) == tower_zero(n, k),
{
    assert(pad(n, x, 2 * k).take(k as int) =~= pad(n, x, k));
    assert(pad(n, x, 2 * k).skip(k as int) =~= tower_zero(n, k));
}

/// The sum of two elements, padded, is the limb-wise sum of the padded
/// elements.
pub proof fn lemma_pad_of_sum(n: nat, a: Seq<Seq<bool>>, b: Seq<Seq<bool>>, h: nat)
    requires
        well_formed(n, a),
        well_formed(n, b),
        a.len() <= h,
        b.len() <= h,
    ensures
        well_formed(n, ring_add(a, b)),
        ring_add(a, b).len() == longer(a.len(), b.len()),
        pad(n, ring_add(a, b), h) == limbs_add(pad(n, a, h), pad(n, b, h)),
{
    assert(pad(n, ring_add(a, b), h) =~~= limbs_add(pad(n, a, h), pad(n, b, h)));
}

/// The product of two elements of one level, padded, is the product of the
/// padded elements.
proof fn lemma_pad_of_tower_mul(
    poly: Seq<bool>,
    unit: Seq<bool>,
    x: Seq<Seq<bool>>,
    y: Seq<Seq<bool>>,
    h: nat,
)
    requires
        field_shape(poly, unit),
        power_of_two(h),
        well_formed(poly.len(), x),
        well_formed(poly.len(), y),
        x.len() == y.len(),
        x.len() <= h,
    ensures
        tower_mul(poly, unit, pad(poly.len(), x, h), pad(poly.len(), y, h)) == pad(
            poly.len(),
            tower_mul(poly, unit, x, y),
            h,
        ),
    decreases h,
{
    let n = poly.len();
    let s = x.len();
    lemma_tower_mul_elem(poly, unit, x, y, s);
    let product = tower_mul(poly, unit, x, y);
    if s == h {
        lemma_pad(n, x, h, h);
        lemma_pad(n, y, h, h);
        lemma_pad(n, product, h, h);
    } else {
        lemma_power_of_two_half(s, h);
        let k = h / 2;
        let ki = k as int;
        let (px, py) = (pad(n, x, h), pad(n, y, h));
        let (qx, qy) = (pad(n, x, k), pad(n, y, k));
        let zk = tower_zero(n, k);
        lemma_pad(n, x, k, h);
        lemma_pad(n, y, k, h);
        lemma_pad_halves(n, x, k);
        lemma_pad_halves(n, y, k);
        lemma_pad_of_tower_mul(poly, unit, x, y, k);
        lemma_tower_mul_by_halves(poly, unit, px, py, h);
        lemma_tower_mul_zero(poly, unit, qx, k);
        lemma_tower_mul_zero(poly, unit, zk, k);
        lemma_tower_mul_commutative(poly, unit, zk, qy, k);
        lemma_tower_mul_zero(poly, unit, qy, k);
        lemma_basis_mul_zero(poly, unit, k);
        lemma_tower_mul_elem(poly, unit, qx, qy, k);
        let low = tower_mul(poly, unit, qx, qy);
        assert(limbs_add(low, zk) =~~= low);
        assert(limbs_add(limbs_add(zk, zk), zk) =~~= zk);
        lemma_pad(n, product, k, h);
        assert(pad(n, product, k) + zk =~= pad(n, product, h));
    }
}

/// A chunked product of two runs put together is put together from the
/// chunked products of the runs, where the first run ends at a chunk's end.
proof fn lemma_chunked_mul_concat(
    poly: Seq<bool>,
    unit: Seq<bool>,
    x: Seq<Seq<bool>>,
    y: Seq<Seq<bool>>,
    short: Seq<Seq<bool>>,
)
    requires
        short.len() >= 1,
        x.len() % short.len() == 0,
    ensures
        chunked_mul(poly, unit, x + y, short) == chunked_mul(poly, unit, x, short) + chunked_mul(
            poly,
            unit,
            y,
            short,
        ),
    decreases x.len(),
{
    let s = short.len();
    let si = s as int;
    if x.len() == 0 {
        assert(x + y =~= y);
        assert(chunked_mul(poly, unit, x, short) =~= Seq::<Seq<bool>>::empty());
        assert(Seq::<Seq<bool>>::empty() + chunked_mul(poly, unit, y, short) =~= chunked_mul(
            poly,
            unit,
            y,
            short,
        ));
    } else {
        let len = x.len() as int;
        assert(len >= si) by (nonlinear_arith)
            requires
                len > 0,
                si >= 1,
                len % si == 0,
        ;
        assert((len - si) % si == 0) by (nonlinear_arith)
            requires
                len >= si,
                si >= 1,
                len % si == 0,
        ;
        assert((x + y).take(si) =~= x.take(si));
        assert((x + y).skip(si) =~= x.skip(si) + y);
        lemma_chunked_mul_concat(poly, unit, x.skip(si), y, short);
        let first = tower_mul(poly, unit, x.take(si), short);
        let rx = chunked_mul(poly, unit, x.skip(si), short);
        let ry = chunked_mul(poly, unit, y, short);
        assert(first + (rx + ry) =~= (first + rx) + ry);
    }
}

/// The chunked product is the product with the shorter factor padded to
/// the level of the longer.
proof fn lemma_chunked_mul_is_padded(
    poly: Seq<bool>,
    unit: Seq<bool>,
    long: Seq<Seq<bool>>,
    short: Seq<Seq<bool>>,
)
    requires
        field_shape(poly, unit),
        well_formed(poly.len(), long),
        well_formed(poly.len(), short),
        short.len() <= long.len(),
    ensures
        chunked_mul(poly, unit, long, short) == tower_mul(
            poly,
            unit,
            long,
            pad(poly.len(), short, long.len()),
        ),
    decreases long.len(),
{
    let n = poly.len();
    let s = short.len();
    let h = long.len();
    if s == h {
        lemma_pad(n, short, h, h);
        assert(long.take(s as int) =~= long);
        assert(chunked_mul(poly, unit, long.skip(s as int), short) =~= Seq::<Seq<bool>>::empty());
        let product = tower_mul(poly, unit, long, short);
        assert(product + Seq::<Seq<bool>>::empty() =~= product);
    } else {
        lemma_power_of_two_half(s, h);
        let k = h / 2;
        let ki = k as int;
        lemma_halves_elem(n, long, k);
        let (l0, l1) = (long.take(ki), long.skip(ki));
        lemma_power_of_two_divides(s, k);
        lemma_chunked_mul_concat(poly, unit, l0, l1, short);
        lemma_chunked_mul_is_padded(poly, unit, l0, short);
        lemma_chunked_mul_is_padded(poly, unit, l1, short);
        let p = pad(n, short, h);
        let q = pad(n, short, k);
        let zk = tower_zero(n, k);
        lemma_pad(n, short, k, h);
        lemma_pad_halves(n, short, k);
        lemma_tower_mul_by_halves(poly, unit, long, p, h);
        lemma_tower_mul_zero(poly, unit, l0, k);
        lemma_tower_mul_zero(poly, unit, l1, k);
        lemma_basis_mul_zero(poly, unit, k);
        lemma_tower_mul_elem(poly, unit, l0, q, k);
        lemma_tower_mul_elem(poly, unit, l1, q, k);
        let c0 = tower_mul(poly, unit, l0, q);
        let c1 = tower_mul(poly, unit, l1, q);
        assert(limbs_add(c0, zk) =~~= c0);
        assert(limbs_add(limbs_add(zk, c1), zk) =~~= c1);
    }
}

/// The product of two elements of any levels, padded, is the product of
/// the padded elements.
pub proof fn lemma_pad_of_product(
    poly: Seq<bool>,
    unit: Seq<bool>,
    a: Seq<Seq<bool>>,
    b: Seq<Seq<bool>>,
    h: nat,
)
    requires
        field_shape(poly, unit),
        power_of_two(h),
        well_formed(poly.len(), a),
        well_formed(poly.len(), b),
        a.len() <= h,
        b.len() <= h,
    ensures
        well_formed(poly.len(), ring_mul(poly, unit, a, b)),
        ring_mul(poly, unit, a, b).len() == longer(a.len(), b.len()),
        pad(poly.len(), ring_mul(poly, unit, a, b), h) == tower_mul(
            poly,
            unit,
            pad(poly.len(), a, h),
            pad(poly.len(), b, h),
        ),
{
    let n = poly.len();
    if a.len() == b.len() {
        lemma_tower_mul_elem(poly, unit, a, b, a.len());
        lemma_pad_of_tower_mul(poly, unit, a, b, h);
    } else if a.len() < b.len() {
        let m = b.len();
        let pa = pad(n, a, m);
        lemma_pad(n, a, m, h);
        lemma_chunked_mul_is_padded(poly, unit, b, a);
        lemma_tower_mul_elem(poly, unit, b, pa, m);
        lemma_tower_mul_commutative(poly, unit, b, pa, m);
        lemma_pad_of_tower_mul(poly, unit, pa, b, h);
    } else {
        let m = a.len();
        let pb = pad(n, b, m);
        lemma_pad(n, b, m, h);
        lemma_chunked_mul_is_padded(poly, unit, a, b);
        lemma_tower_mul_elem(poly, unit, a, pb, m);
        lemma_pad_of_tower_mul(poly, unit, a, pb, h);
    }
}

/// A padded element and the length of the level that holds three elements.
proof fn lemma_common_level(n: nat, a: Seq<Seq<bool>>, b: Seq<Seq<bool>>, c: Seq<Seq<bool>>)
    requires
        well_formed(n, a),
        well_formed(n, b),
        well_formed(n, c),
    ensures
        ({
            let h = longer(longer(a.len(), b.len()), c.len());
            &&& power_of_two(h)
            &&& elem(n, pad(n, a, h), h)
            &&& elem(n, pad(n, b, h), h)
            &&& elem(n, pad(n, c, h), h)
        }),
{
    let h = longer(longer(a.len(), b.len()), c.len());
    lemma_pad(n, a, h, h);
    lemma_pad(n, b, h, h);
    lemma_pad(n, c, h, h);
}

/// Sum: `a + b = b + a`.
pub proof fn lemma_ring_add_commutative(n: nat, a: Seq<Seq<bool>>, b: Seq<Seq<bool>>)
    requires
        shaped(a, n),
        shaped(b, n),
    ensures
        ring_add(a, b) == ring_add(b, a),
{
    assert(ring_add(a, b) =~~= ring_add(b, a));
}

/// Sum: `(a + b) + c = a + (b + c)`.
pub proof fn lemma_ring_add_associative(
    n: nat,
    a: Seq<Seq<bool>>,
    b: Seq<Seq<bool>>,
    c: Seq<Seq<bool>>,
)
    requires
        shaped(a, n),
        shaped(b, n),
        shaped(c, n),
    ensures
        ring_add(ring_add(a, b), c) == ring_add(a, ring_add(b, c)),
{
    assert(ring_add(ring_add(a, b), c) =~~= ring_add(a, ring_add(b, c)));
}

/// Sum: `a + 0 = a`, with the zero of any level up to that of `a`.
pub proof fn lemma_ring_add_zero(n: nat, a: Seq<Seq<bool>>, k: nat)
    requires
        shaped(a, n),
        k <= a.len(),
    ensures
        ring_add(a, tower_zero(n, k)) == a,
{
    assert(ring_add(a, tower_zero(n, k)) =~~= a);
}

/// Sum: `a + a = 0`.
pub proof fn lemma_ring_add_self(n: nat, a: Seq<Seq<bool>>)
    requires
        shaped(a, n),
    ensures
        ring_add(a, a) == tower_zero(n, a.len()),
{
    assert(ring_add(a, a) =~~= tower_zero(n, a.len()));
}

/// Product: `a * b = b * a`.
pub proof fn lemma_ring_mul_commutative(
    poly: Seq<bool>,
    unit: Seq<bool>,
    a: Seq<Seq<bool>>,
    b: Seq<Seq<bool>>,
)
    requires
        field_shape(poly, unit),
        well_formed(poly.len(), a),
        well_formed(poly.len(), b),
    ensures
        ring_mul(poly, unit, a, b) == ring_mul(poly, unit, b, a),
{
    if a.len() == b.len() {
        lemma_tower_mul_commutative(poly, unit, a, b, a.len());
    }
}

/// Product: `(a * b) * c = a * (b * c)`.
pub proof fn lemma_ring_mul_associative(
    poly: Seq<bool>,
    unit: Seq<bool>,
    a: Seq<Seq<bool>>,
    b: Seq<Seq<bool>>,
    c: Seq<Seq<bool>>,
)
    requires
        field_shape(poly, unit),
        well_formed(poly.len(), a),
        well_formed(poly.len(), b),
        well_formed(poly.len(), c),
    ensures
        ring_mul(poly, unit, ring_mul(poly, unit, a, b), c) == ring_mul(
            poly,
            unit,
            a,
            ring_mul(poly, unit, b, c),
        ),
{
    let n = poly.len();
    let h = longer(longer(a.len(), b.len()), c.len());
    lemma_common_level(n, a, b, c);
    let ab = ring_mul(poly, unit, a, b);
    let bc = ring_mul(poly, unit, b, c);
    lemma_pad_of_product(poly, unit, a, b, h);
    lemma_pad_of_product(poly, unit, ab, c, h);
    lemma_pad_of_product(poly, unit, b, c, h);
    lemma_pad_of_product(poly, unit, a, bc, h);
    lemma_tower_mul_associative(poly, unit, pad(n, a, h), pad(n, b, h), pad(n, c, h), h);
    lemma_pad_injective(
        n,
        ring_mul(poly, unit, ab, c),
        ring_mul(poly, unit, a, bc),
        h,
    );
}

/// Product and sum: `a * (b + c) = a * b + a * c`.
pub proof fn lemma_ring_mul_distributive(
    poly: Seq<bool>,
    unit: Seq<bool>,
    a: Seq<Seq<bool>>,
    b: Seq<Seq<bool>>,
    c: Seq<Seq<bool>>,
)
    requires
        field_shape(poly, unit),
        well_formed(poly.len(), a),
        well_formed(poly.len(), b),
        well_formed(poly.len(), c),
    ensures
        ring_mul(poly, unit, a, ring_add(b, c)) == ring_add(
            ring_mul(poly, unit, a, b),
            ring_mul(poly, unit, a, c),
        ),
{
    let n = poly.len();
    let h = longer(longer(a.len(), b.len()), c.len());
    lemma_common_level(n, a, b, c);
    let ab = ring_mul(poly, unit, a, b);
    let ac = ring_mul(poly, unit, a, c);
    lemma_pad_of_sum(n, b, c, h);
    lemma_pad_of_product(poly, unit, a, ring_add(b, c), h);
    lemma_pad_of_product(poly, unit, a, b, h);
    lemma_pad_of_product(poly, unit, a, c, h);
    lemma_pad_of_sum(n, ab, ac, h);
    lemma_tower_mul_distributive(poly, unit, pad(n, a, h), pad(n, b, h), pad(n, c, h), h);
    lemma_pad_injective(n, ring_mul(poly, unit, a, ring_add(b, c)), ring_add(ab, ac), h);
}

/// Product: `a * 1 = a`, with the one of any level up to that of `a`.
pub proof fn lemma_ring_mul_one(poly: Seq<bool>, unit: Seq<bool>, a: Seq<Seq<bool>>, k: nat)
    requires
        field_shape(poly, unit),
        well_formed(poly.len(), a),
        power_of_two(k),
        k <= a.len(),
    ensures
        ring_mul(poly, unit, a, tower_one(poly.len(), k)) == a,
{
    let n = poly.len();
    let h = a.len();
    let one = tower_one(n, k);
    lemma_pad_of_product(poly, unit, a, one, h);
    lemma_pad(n, a, h, h);
    assert(pad(n, one, h) =~= tower_one(n, h));
    lemma_tower_mul_one(poly, unit, a, h);
    lemma_pad_injective(n, ring_mul(poly, unit, a, one), a, h);
}

/// Chunk `c` of a chunked product is the product of chunk `c`.
proof fn lemma_chunked_mul_chunk(
    poly: Seq<bool>,
    unit: Seq<bool>,
    long: Seq<Seq<bool>>,
    short: Seq<Seq<bool>>,
    c: nat,
)
    requires
        field_shape(poly, unit),
        power_of_two(short.len()),
        shaped(long, poly.len()),
        shaped(short, poly.len()),
        (c + 1) * short.len() <= long.len(),
    ensures
        chunked_mul(poly, unit, long, short).len() >= (c + 1) * short.len(),
        ({
            let from = (c * short.len()) as int;
            let to = ((c + 1) * short.len()) as int;
            chunked_mul(poly, unit, long, short).subrange(from, to) == tower_mul(
                poly,
                unit,
                long.subrange(from, to),
                short,
            )
        }),
    decreases c,
{
    let s = short.len();
    let si = s as int;
    assert((c + 1) * s == c * s + s) by (nonlinear_arith);
    assert(c * s >= 0) by (nonlinear_arith);
    let first = tower_mul(poly, unit, long.take(si), short);
    let rest = chunked_mul(poly, unit, long.skip(si), short);
    lemma_tower_mul_elem(poly, unit, long.take(si), short, s);
    assert(chunked_mul(poly, unit, long, short) == first + rest);
    if c == 0 {
        assert(c * s == 0 && (c + 1) * s == s) by (nonlinear_arith)
            requires
                c == 0,
        ;
        assert(long.subrange(0, si) =~= long.take(si));
        assert((first + rest).subrange(0, si) =~= first);
    } else {
        let d = (c - 1) as nat;
        assert((d + 1) * s == d * s + s) by (nonlinear_arith);
        assert(d * s >= 0) by (nonlinear_arith);
        assert(c * s == d * s + s);
        lemma_chunked_mul_chunk(poly, unit, long.skip(si), short, d);
        let (from, to) = ((c * s) as int, ((c + 1) * s) as int);
        assert(long.skip(si).subrange(from - s, to - s) =~= long.subrange(from, to));
        assert((first + rest).subrange(from, to) =~= rest.subrange(from - s, to - s));
    }
}

/// The product of a longer by a shorter element is made chunk by chunk:
/// the chunk of the product at position `c` is the product of the chunk of
/// the longer element at that position and the shorter element, whichever
/// of the two factors comes first.
pub proof fn lemma_ring_mul_chunk(
    poly: Seq<bool>,
    unit: Seq<bool>,
    long: Seq<Seq<bool>>,
    short: Seq<Seq<bool>>,
    c: nat,
)
    requires
        field_shape(poly, unit),
        power_of_two(short.len()),
        shaped(long, poly.len()),
        shaped(short, poly.len()),
        (c + 1) * short.len() <= long.len(),
    ensures
        short.len() < long.len() ==> ring_mul(poly, unit, short, long) == ring_mul(
            poly,
            unit,
            long,
            short,
        ),
        ({
            let from = (c * short.len()) as int;
            let to = ((c + 1) * short.len()) as int;
            ring_mul(poly, unit, long, short).subrange(from, to) == tower_mul(
                poly,
                unit,
                long.subrange(from, to),
                short,
            )
        }),
{
    let s = short.len();
    assert(s <= long.len()) by (nonlinear_arith)
        requires
            (c + 1) * s <= long.len(),
    ;
    if s == long.len() {
        assert(c == 0) by (nonlinear_arith)
            requires
                (c + 1) * s <= s,
                s >= 1,
        ;
        assert(c * s == 0 && (c + 1) * s == s) by (nonlinear_arith)
            requires
                c == 0,
        ;
        lemma_tower_mul_elem(poly, unit, long, short, s);
        assert(long.subrange(0, s as int) =~= long);
        let product = tower_mul(poly, unit, long, short);
        assert(product.subrange(0, s as int) =~= product);
    } else {
        lemma_chunked_mul_chunk(poly, unit, long, short, c);
    }
}


} // verus!
