//! The mathematical model of the tower: an element of level `l` is a
//! sequence of `2^l` base-field elements, the constant coordinate first.
use crate::bits::{field_mul, int_bit, unit, xor_bits, zeros};
use vstd::prelude::*;

verus! {

/// `n` is one of 1, 2, 4, 8, ...
pub open spec fn power_of_two(n: nat) -> bool
    decreases n,
{
    n == 1 || (n > 1 && n % 2 == 0 && power_of_two(n / 2))
}

/// The largest `l` with `2^l <= n`, and 0 for `n == 0`.
pub open spec fn log2_floor(n: nat) -> nat
    decreases n,
{
    if n <= 1 {
        0
    } else {
        1 + log2_floor(n / 2)
    }
}

/// Every limb of `a` has `n` coefficients.
pub open spec fn shaped(a: Seq<Seq<bool>>, n: nat) -> bool {
    forall|i: int| 0 <= i < a.len() ==> (#[trigger] a[i]).len() == n
}

/// `x` has `h` limbs of `n` coefficients each.
pub open spec fn elem(n: nat, x: Seq<Seq<bool>>, h: nat) -> bool {
    x.len() == h && shaped(x, n)
}

/// The two constants describe a field: both have the field's width, which
/// is at least one.
pub open spec fn field_shape(poly: Seq<bool>, unit: Seq<bool>) -> bool {
    1 <= poly.len() && unit.len() == poly.len()
}

/// The zero of a level.
pub open spec fn tower_zero(n: nat, h: nat) -> Seq<Seq<bool>> {
    Seq::new(h, |i: int| zeros(n))
}

/// The one of a level: the one of the field in the constant coordinate.
pub open spec fn tower_one(n: nat, h: nat) -> Seq<Seq<bool>> {
    Seq::new(h, |i: int| if i == 0 { unit(n) } else { zeros(n) })
}

/// The basis element of a level: the element adjoined by the level's
/// extension step. At level 0 it is the field's constant `unit`; above, it
/// is the one of the level below in the upper half.
pub open spec fn tower_basis(unit: Seq<bool>, h: nat) -> Seq<Seq<bool>> {
    if h <= 1 {
        seq![unit]
    } else {
        Seq::new(
            h,
            |i: int|
                if i == h / 2 {
                    crate::bits::unit(unit.len())
                } else {
                    zeros(unit.len())
                },
        )
    }
}

/// Limb-wise sum of `a` and `b`, as long as the shorter of the two.
pub open spec fn limbs_add(a: Seq<Seq<bool>>, b: Seq<Seq<bool>>) -> Seq<Seq<bool>> {
    Seq::new(if a.len() <= b.len() { a.len() } else { b.len() }, |i: int| xor_bits(a[i], b[i]))
}

/// The sum of two tower elements. The shorter one counts as an element of
/// the longer one's level whose upper limbs are zero.
pub open spec fn ring_add(a: Seq<Seq<bool>>, b: Seq<Seq<bool>>) -> Seq<Seq<bool>> {
    Seq::new(
        if a.len() <= b.len() { b.len() } else { a.len() },
        |i: int|
            if i < a.len() && i < b.len() {
                xor_bits(a[i], b[i])
            } else if i < a.len() {
                a[i]
            } else {
                b[i]
            },
    )
}

/// The product of `a` and the basis element of its level. With `a` split
/// into a lower half `lo` and an upper half `hi`, and `y` the basis element,
/// `(lo + hi y) y = hi + (lo + hi z) y`, where `z` is the basis element one
/// level down; at level 0 the multiplier is the field's constant `unit`.
pub open spec fn basis_mul(poly: Seq<bool>, unit: Seq<bool>, a: Seq<Seq<bool>>) -> Seq<Seq<bool>>
    decreases a.len(),
{
    if a.len() <= 1 {
        seq![field_mul(poly, a[0], unit)]
    } else {
        let h = (a.len() / 2) as int;
        let lo = a.take(h);
        let hi = a.skip(h);
        hi + limbs_add(basis_mul(poly, unit, hi), lo)
    }
}

/// The product of two elements of the same level, by three products of
/// half the size.
pub open spec fn tower_mul(
    poly: Seq<bool>,
    unit: Seq<bool>,
    a: Seq<Seq<bool>>,
    b: Seq<Seq<bool>>,
) -> Seq<Seq<bool>>
    decreases a.len(),
{
    if a.len() <= 1 {
        seq![field_mul(poly, a[0], b[0])]
    } else {
        let h = (a.len() / 2) as int;
        let ll = tower_mul(poly, unit, a.take(h), b.take(h));
        let hh = tower_mul(poly, unit, a.skip(h), b.skip(h));
        let ss = tower_mul(
            poly,
            unit,
            limbs_add(a.take(h), a.skip(h)),
            limbs_add(b.take(h), b.skip(h)),
        );
        let mid = limbs_add(limbs_add(ss, ll), hh);
        limbs_add(ll, hh) + limbs_add(mid, basis_mul(poly, unit, hh))
    }
}

/// The product of two elements of the same level, from the relation that
/// defines the tower: with the factors split into halves, `x = x0 + x1 y`
/// and `z = z0 + z1 y`, and `y y = 1 + b y` for the basis element `b` one
/// level down, `x z = (x0 z0 + x1 z1) + (x0 z1 + x1 z0 + b x1 z1) y`.
pub open spec fn schoolbook_mul(
    poly: Seq<bool>,
    unit: Seq<bool>,
    a: Seq<Seq<bool>>,
    b: Seq<Seq<bool>>,
) -> Seq<Seq<bool>>
    decreases a.len(),
{
    if a.len() <= 1 {
        seq![field_mul(poly, a[0], b[0])]
    } else {
        let h = (a.len() / 2) as int;
        let ll = schoolbook_mul(poly, unit, a.take(h), b.take(h));
        let lh = schoolbook_mul(poly, unit, a.take(h), b.skip(h));
        let hl = schoolbook_mul(poly, unit, a.skip(h), b.take(h));
        let hh = schoolbook_mul(poly, unit, a.skip(h), b.skip(h));
        limbs_add(ll, hh) + limbs_add(limbs_add(lh, hl), basis_mul(poly, unit, hh))
    }
}

/// `long` cut into consecutive chunks as long as `short`, each multiplied
/// by `short`, and the products put together in the same order.
pub open spec fn chunked_mul(
    poly: Seq<bool>,
    unit: Seq<bool>,
    long: Seq<Seq<bool>>,
    short: Seq<Seq<bool>>,
) -> Seq<Seq<bool>>
    decreases long.len(),
{
    if short.len() == 0 || long.len() < short.len() {
        Seq::empty()
    } else {
        tower_mul(poly, unit, long.take(short.len() as int), short) + chunked_mul(
            poly,
            unit,
            long.skip(short.len() as int),
            short,
        )
    }
}

/// The product of two tower elements of any two levels.
pub open spec fn ring_mul(
    poly: Seq<bool>,
    unit: Seq<bool>,
    a: Seq<Seq<bool>>,
    b: Seq<Seq<bool>>,
) -> Seq<Seq<bool>> {
    if a.len() == b.len() {
        tower_mul(poly, unit, a, b)
    } else if a.len() < b.len() {
        chunked_mul(poly, unit, b, a)
    } else {
        chunked_mul(poly, unit, a, b)
    }
}

/// Bit `q` of a byte string read from its last byte to its first, each
/// byte from its lowest bit up.
pub open spec fn stream_bit(bytes: Seq<u8>, q: int) -> bool {
    int_bit(bytes[bytes.len() - 1 - q / 8] as nat, (q % 8) as nat)
}

/// The first `l * n` bits of the stream, cut into `l` limbs of `n` bits.
pub open spec fn bytes_limbs(bytes: Seq<u8>, l: nat, n: nat) -> Seq<Seq<bool>> {
    Seq::new(l, |j: int| Seq::new(n, |i: int| stream_bit(bytes, j * n + i)))
}

} // verus!
