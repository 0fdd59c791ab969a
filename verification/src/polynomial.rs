//! Multilinear polynomials over the tower, given by their values on the
//! boolean hypercube.
use crate::binary_field::BinaryFieldConfig;
use crate::extension_laws::{all_well_formed, extension, lemma_eval_is_extension};
use crate::ring_laws::well_formed;
use crate::tower::{is_power_of_two, lemma_limbs_elem, Ring};
use crate::tower_model::{field_shape, log2_floor, power_of_two, ring_add, ring_mul};
use std::ops::{Add, Mul, Sub};
use vstd::prelude::*;

verus! {

/// A multilinear polynomial in `d` variables: its `2^d` values on the
/// points of the hypercube, the first variable being the lowest bit of the
/// index.
pub struct Polynomial<P: BinaryFieldConfig> {
    pub evaluations: Vec<Ring<P>>,
}

/// The limb sequences of a run of tower elements.
pub open spec fn rings<P: BinaryFieldConfig>(s: Seq<Ring<P>>) -> Seq<Seq<Seq<bool>>> {
    Seq::new(s.len(), |i: int| s[i]@)
}

/// Every element of the run is a well-formed tower element.
pub open spec fn rings_wf<P: BinaryFieldConfig>(s: Seq<Ring<P>>) -> bool {
    forall|i: int| 0 <= i < s.len() ==> (#[trigger] s[i]).wf()
}

/// The value at `r` of the line through `left` (at 0) and `right` (at 1).
pub open spec fn interpolate(
    poly: Seq<bool>,
    unit: Seq<bool>,
    left: Seq<Seq<bool>>,
    right: Seq<Seq<bool>>,
    r: Seq<Seq<bool>>,
) -> Seq<Seq<bool>> {
    ring_add(left, ring_mul(poly, unit, r, ring_add(right, left)))
}

/// The table with its first variable fixed to `r`: half as many values.
pub open spec fn fold_pairs(
    poly: Seq<bool>,
    unit: Seq<bool>,
    table: Seq<Seq<Seq<bool>>>,
    r: Seq<Seq<bool>>,
) -> Seq<Seq<Seq<bool>>> {
    Seq::new(
        table.len() / 2,
        |b: int| interpolate(poly, unit, table[2 * b], table[2 * b + 1], r),
    )
}

/// The value of the multilinear polynomial with the given table at
/// `point`: the variables are fixed one after the other.
pub open spec fn multilinear_eval(
    poly: Seq<bool>,
    unit: Seq<bool>,
    table: Seq<Seq<Seq<bool>>>,
    point: Seq<Seq<Seq<bool>>>,
) -> Seq<Seq<bool>>
    decreases point.len(),
{
    if point.len() == 0 {
        table[0]
    } else {
        multilinear_eval(poly, unit, fold_pairs(poly, unit, table, point[0]), point.skip(1))
    }
}

/// The limb sequences of well-formed tower elements are elements of the
/// levels of the tower over the field of `P`.
pub proof fn lemma_rings_well_formed<P: BinaryFieldConfig>(s: Seq<Ring<P>>)
    requires
        rings_wf(s),
    ensures
        field_shape(P::poly(), P::imag_unit()),
        P::poly().len() == P::N,
        all_well_formed(P::N as nat, rings(s)),
{
    P::lemma_shape();
    assert forall|i: int| 0 <= i < s.len() implies well_formed(
        P::N as nat,
        #[trigger] rings(s)[i],
    ) by {
        assert(s[i].wf());
        lemma_limbs_elem(s[i].elements@);
    }
}

impl<P: BinaryFieldConfig> Polynomial<P> {
    /// The table is a full hypercube of well-formed values.
    pub open spec fn wf(&self) -> bool {
        power_of_two(self.evaluations@.len()) && rings_wf(self.evaluations@)
    }

    /// Whether the number of values is a power of two.
    pub fn is_power_of_two(&self) -> (r: bool)
        ensures
            r == power_of_two(self.evaluations@.len()),
    {
        is_power_of_two(self.evaluations.len())
    }

    /// Whether `evaluate` takes the point `x`: the table is a full
    /// hypercube of well-formed values, and `x` has one well-formed
    /// coordinate for each variable.
    pub fn accepts(&self, x: &[Ring<P>]) -> (r: bool)
        ensures
            r == (self.wf() && rings_wf(x@) && x@.len() == log2_floor(self.evaluations@.len())),
    {
        let len: usize = self.evaluations.len();
        if !is_power_of_two(len) {
            return false;
        }
        let mut dim: usize = 0;
        let mut rest: usize = len;
        while rest > 1
            invariant
                rest >= 1,
                dim + log2_floor(rest as nat) == log2_floor(len as nat),
                dim + rest <= len,
            decreases rest,
        {
            rest = rest / 2;
            dim = dim + 1;
        }
        if x.len() != dim {
            return false;
        }
        let mut i: usize = 0;
        while i < len
            invariant
                i <= len,
                len == self.evaluations@.len(),
                forall|k: int| 0 <= k < i ==> (#[trigger] self.evaluations@[k]).wf(),
            decreases len - i,
        {
            if !self.evaluations[i].is_well_formed() {
                return false;
            }
            i += 1;
        }
        let mut j: usize = 0;
        while j < x.len()
            invariant
                j <= x@.len(),
                forall|k: int| 0 <= k < j ==> (#[trigger] x@[k]).wf(),
            decreases x@.len() - j,
        {
            if !x[j].is_well_formed() {
                return false;
            }
            j += 1;
        }
        true
    }

    /// The value of the polynomial at the point `x`, one coordinate for
    /// each variable: the multilinear extension of the table at `x`,
    /// computed by fixing one variable after the other.
    pub fn evaluate(&self, x: &[Ring<P>]) -> (r: Ring<P>)
        requires
            self.wf(),
            rings_wf(x@),
            x@.len() == log2_floor(self.evaluations@.len()),
        ensures
            r.wf(),
            r@ == multilinear_eval(P::poly(), P::imag_unit(), rings(self.evaluations@), rings(x@)),
            r@ == extension(P::poly(), P::imag_unit(), rings(self.evaluations@), rings(x@)),
    {
        proof {
            lemma_rings_well_formed(self.evaluations@);
            lemma_rings_well_formed(x@);
            lemma_eval_is_extension(
                P::poly(),
                P::imag_unit(),
                rings(self.evaluations@),
                rings(x@),
            );
        }
        let dim: usize = x.len();
        let mut poly: Vec<Ring<P>> = Vec::new();
        let mut k: usize = 0;
        while k < self.evaluations.len()
            invariant
                k <= self.evaluations@.len(),
                rings_wf(self.evaluations@),
                poly@.len() == k,
                rings_wf(poly@),
                forall|q: int| 0 <= q < k ==> (#[trigger] poly@[q])@ == self.evaluations@[q]@,
            decreases self.evaluations@.len() - k,
        {
            poly.push(self.evaluations[k].clone());
            k += 1;
        }
        assert(rings(poly@) =~= rings(self.evaluations@));
        let mut width: usize = poly.len();
        let mut i: usize = 0;
        proof {
            assert(rings(poly@).take(width as int) =~= rings(poly@));
            assert(rings(x@).skip(0) =~= rings(x@));
        }
        while i < dim
            invariant
                dim == x@.len(),
                i <= dim,
                1 <= width <= poly@.len(),
                power_of_two(width as nat),
                log2_floor(width as nat) == dim - i,
                rings_wf(x@),
                rings_wf(poly@),
                multilinear_eval(
                    P::poly(),
                    P::imag_unit(),
                    rings(poly@).take(width as int),
                    rings(x@).skip(i as int),
                ) == multilinear_eval(
                    P::poly(),
                    P::imag_unit(),
                    rings(self.evaluations@),
                    rings(x@),
                ),
            decreases dim - i,
        {
            let r = &x[i];
            let half: usize = width / 2;
            let ghost before = rings(poly@).take(width as int);
            let mut b: usize = 0;
            while b < half
                invariant
                    b <= half,
                    half * 2 == width,
                    width <= poly@.len(),
                    r.wf(),
                    rings_wf(poly@),
                    before.len() == width,
                    forall|q: int|
                        0 <= q < b ==> (#[trigger] poly@[q])@ == interpolate(
                            P::poly(),
                            P::imag_unit(),
                            before[2 * q],
                            before[2 * q + 1],
                            r@,
                        ),
                    forall|q: int| b <= q < width ==> (#[trigger] poly@[q])@ == before[q],
                decreases half - b,
            {
                let left = &poly[2 * b];
                let right = &poly[2 * b + 1];
                let difference = right.sub(left);
                let scaled = r.mul(&difference);
                let value = left.add(&scaled);
                poly.set(b, value);
                b += 1;
            }
            proof {
                assert(rings(poly@).take(half as int) =~= fold_pairs(
                    P::poly(),
                    P::imag_unit(),
                    before,
                    r@,
                ));
                let rest = rings(x@).skip(i as int);
                assert(rest[0] == r@);
                assert(rest.skip(1) =~= rings(x@).skip(i + 1));
            }
            width = half;
            i += 1;
        }
        poly[0].clone()
    }
}

} // verus!
