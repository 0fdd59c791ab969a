//! Elements of the tower over a base field, and their arithmetic.
use crate::binary_field::{BinaryField, BinaryFieldConfig};
use crate::bits::{field_mul, lemma_byte_bit, unit, xor_bits, zeros};
use crate::tower_laws::lemma_tower_mul_is_schoolbook;
use crate::tower_model::{
    basis_mul, bytes_limbs, chunked_mul, elem, field_shape, limbs_add, log2_floor, power_of_two,
    ring_add, ring_mul, schoolbook_mul, stream_bit, tower_mul,
};
use std::marker::PhantomData;
use std::ops::{Add, AddAssign, Mul, MulAssign, Sub, SubAssign};
use vstd::prelude::*;
use vstd::slice::slice_subrange;
use vstd::std_specs::cmp::PartialEqSpecImpl;
use vstd::std_specs::ops::{AddSpecImpl, MulSpecImpl, SubSpecImpl};

verus! {

/// An element of the tower: `elements[0]` is the constant coordinate, and
/// the number of limbs is two to the element's level.
#[derive(Debug)]
pub struct Ring<F: BinaryFieldConfig> {
    pub elements: Vec<BinaryField<F>>,
}

/// The coefficient sequences of a run of limbs.
pub open spec fn limbs<F: BinaryFieldConfig>(s: Seq<BinaryField<F>>) -> Seq<Seq<bool>> {
    Seq::new(s.len(), |i: int| s[i]@)
}

/// Every limb of the run holds exactly `N` coefficients.
pub open spec fn limbs_wf<F: BinaryFieldConfig>(s: Seq<BinaryField<F>>) -> bool {
    forall|i: int| 0 <= i < s.len() ==> (#[trigger] s[i]).wf()
}

/// The coefficient sequences of well-formed limbs are an element of a
/// level of the tower over the field of `F`.
pub proof fn lemma_limbs_elem<F: BinaryFieldConfig>(s: Seq<BinaryField<F>>)
    requires
        limbs_wf(s),
    ensures
        field_shape(F::poly(), F::imag_unit()),
        F::poly().len() == F::N,
        elem(F::N as nat, limbs(s), s.len()),
{
    F::lemma_shape();
    assert forall|i: int| 0 <= i < s.len() implies (#[trigger] limbs(s)[i]).len() == F::N by {
        assert(s[i].wf());
    }
}

proof fn lemma_limbs_subrange<F: BinaryFieldConfig>(s: Seq<BinaryField<F>>, i: int, j: int)
    requires
        0 <= i <= j <= s.len(),
    ensures
        limbs(s.subrange(i, j)) == limbs(s).subrange(i, j),
        limbs_wf(s) ==> limbs_wf(s.subrange(i, j)),
{
    assert(limbs(s.subrange(i, j)) =~= limbs(s).subrange(i, j));
}

proof fn lemma_limbs_concat<F: BinaryFieldConfig>(s: Seq<BinaryField<F>>, t: Seq<BinaryField<F>>)
    ensures
        limbs(s + t) == limbs(s) + limbs(t),
        limbs_wf(s) && limbs_wf(t) ==> limbs_wf(s + t),
{
    assert(limbs(s + t) =~= limbs(s) + limbs(t));
}

/// A power of two divides every power of two that is not smaller.
pub proof fn lemma_power_of_two_divides(a: nat, b: nat)
    requires
        power_of_two(a),
        power_of_two(b),
        a <= b,
    ensures
        b % a == 0,
    decreases a,
{
    if a == 1 {
        assert(b % 1 == 0);
    } else {
        lemma_power_of_two_divides(a / 2, b / 2);
        assert(b % a == 0) by (nonlinear_arith)
            requires
                a > 1,
                a % 2 == 0,
                b % 2 == 0,
                (b / 2) % (a / 2) == 0,
        {
            let h = b / 2;
            let g = a / 2;
            assert(b == 2 * h);
            assert(a == 2 * g);
            assert(h == g * (h / g));
            assert(b == a * (h / g));
        }
    }
}

/// Whether `n` is a power of two.
pub fn is_power_of_two(n: usize) -> (r: bool)
    ensures
        r == power_of_two(n as nat),
{
    if n == 0 {
        return false;
    }
    let mut rest: usize = n;
    while rest % 2 == 0
        invariant
            rest >= 1,
            power_of_two(rest as nat) == power_of_two(n as nat),
        decreases rest,
    {
        rest = rest / 2;
    }
    rest == 1
}

impl<F: BinaryFieldConfig> View for Ring<F> {
    type V = Seq<Seq<bool>>;

    open spec fn view(&self) -> Seq<Seq<bool>> {
        limbs(self.elements@)
    }
}

impl<F: BinaryFieldConfig> Ring<F> {
    /// Every limb holds exactly `N` coefficients.
    pub open spec fn wf_limbs(&self) -> bool {
        limbs_wf(self.elements@)
    }

    /// The number of limbs is a power of two, and every limb is well formed.
    pub open spec fn wf(&self) -> bool {
        power_of_two(self.elements@.len()) && limbs_wf(self.elements@)
    }

    /// Whether the number of limbs is a power of two and every limb holds
    /// exactly `N` coefficients.
    pub fn is_well_formed(&self) -> (r: bool)
        ensures
            r == self.wf(),
    {
        if !is_power_of_two(self.elements.len()) {
            return false;
        }
        let mut i: usize = 0;
        while i < self.elements.len()
            invariant
                i <= self.elements@.len(),
                forall|k: int| 0 <= k < i ==> (#[trigger] self.elements@[k]).wf(),
            decreases self.elements@.len() - i,
        {
            if !self.elements[i].is_well_formed() {
                return false;
            }
            i += 1;
        }
        true
    }

    /// The zero of level 0.
    pub fn zero() -> (r: Self)
        ensures
            r.wf(),
            r@ == seq![zeros(F::N as nat)],
    {
        Self::default()
    }

    /// The one of level 0.
    pub fn one() -> (r: Self)
        ensures
            r.wf(),
            r@ == seq![unit(F::N as nat)],
    {
        let mut elements: Vec<BinaryField<F>> = Vec::new();
        elements.push(BinaryField::<F>::one());
        let r = Ring { elements };
        assert(r@ =~= seq![unit(F::N as nat)]);
        r
    }

    /// The level: the base-two logarithm of the number of limbs.
    pub fn get_level(&self) -> (r: usize)
        requires
            self.elements@.len() >= 1,
        ensures
            r == log2_floor(self.elements@.len()),
    {
        let len: usize = self.get_len();
        let mut rest: usize = len;
        let mut level: usize = 0;
        while rest > 1
            invariant
                rest >= 1,
                len == self.elements@.len(),
                level + log2_floor(rest as nat) == log2_floor(len as nat),
                level + rest <= len,
            decreases rest,
        {
            rest = rest / 2;
            level = level + 1;
        }
        level
    }

    /// The number of limbs.
    pub fn get_len(&self) -> (r: usize)
        ensures
            r == self.elements@.len(),
    {
        self.elements.len()
    }
}

impl<F: BinaryFieldConfig> Default for Ring<F> {
    fn default() -> (r: Self)
        ensures
            r.wf(),
            r@ == seq![zeros(F::N as nat)],
    {
        let mut elements: Vec<BinaryField<F>> = Vec::new();
        elements.push(BinaryField::<F>::default());
        let r = Ring { elements };
        assert(r@ =~= seq![zeros(F::N as nat)]);
        r
    }
}

impl<F: BinaryFieldConfig> Clone for Ring<F> {
    fn clone(&self) -> (r: Self)
        ensures
            r@ == self@,
            self.wf_limbs() ==> r.wf_limbs(),
            self.wf() ==> r.wf(),
    {
        Ring { elements: clone_limbs(self.elements.as_slice()) }
    }
}

impl<F: BinaryFieldConfig> PartialEqSpecImpl for Ring<F> {
    open spec fn obeys_eq_spec() -> bool {
        true
    }

    open spec fn eq_spec(&self, other: &Ring<F>) -> bool {
        self@ == other@
    }
}

impl<F: BinaryFieldConfig> PartialEq for Ring<F> {
    /// Two elements are equal where they have the same limbs.
    fn eq(&self, other: &Ring<F>) -> (r: bool) {
        if self.elements.len() != other.elements.len() {
            assert(self@.len() != other@.len());
            return false;
        }
        let mut i: usize = 0;
        while i < self.elements.len()
            invariant
                i <= self.elements@.len(),
                self.elements@.len() == other.elements@.len(),
                forall|k: int| 0 <= k < i ==> #[trigger] self@[k] == other@[k],
            decreases self.elements@.len() - i,
        {
            if !self.elements[i].eq(&other.elements[i]) {
                assert(self@[i as int] != other@[i as int]);
                return false;
            }
            i += 1;
        }
        assert(self@ =~= other@);
        true
    }
}

impl<F: BinaryFieldConfig> Eq for Ring<F> {

}

impl<F: BinaryFieldConfig> AddSpecImpl<&Ring<F>> for &Ring<F> {
    open spec fn obeys_add_spec() -> bool {
        false
    }

    open spec fn add_req(self, rhs: &Ring<F>) -> bool {
        self.wf_limbs() && rhs.wf_limbs()
    }

    open spec fn add_spec(self, rhs: &Ring<F>) -> Ring<F> {
        arbitrary()
    }
}

impl<F: BinaryFieldConfig> Add<&Ring<F>> for &Ring<F> {
    type Output = Ring<F>;

    /// Limb-wise sum; the limbs that only the longer operand has are copied.
    fn add(self, rhs: &Ring<F>) -> (r: Ring<F>)
        ensures
            r.wf_limbs(),
            self.wf() && rhs.wf() ==> r.wf(),
            r@ == ring_add(self@, rhs@),
    {
        let a_len: usize = self.elements.len();
        let b_len: usize = rhs.elements.len();
        let len: usize = if a_len <= b_len {
            b_len
        } else {
            a_len
        };
        let mut res: Vec<BinaryField<F>> = Vec::new();
        let mut i: usize = 0;
        while i < len
            invariant
                i <= len,
                a_len == self.elements@.len(),
                b_len == rhs.elements@.len(),
                len == if a_len <= b_len {
                    b_len
                } else {
                    a_len
                },
                self.wf_limbs(),
                rhs.wf_limbs(),
                limbs_wf(res@),
                res@.len() == i,
                forall|k: int| 0 <= k < i ==> (#[trigger] res@[k])@ == ring_add(self@, rhs@)[k],
            decreases len - i,
        {
            let limb = if i < a_len && i < b_len {
                (&self.elements[i]).add(&rhs.elements[i])
            } else if i < a_len {
                self.elements[i].clone()
            } else {
                rhs.elements[i].clone()
            };
            res.push(limb);
            i += 1;
        }
        let r = Ring { elements: res };
        assert(r@ =~= ring_add(self@, rhs@));
        r
    }
}

impl<F: BinaryFieldConfig> AddAssign<&Ring<F>> for Ring<F> {
    fn add_assign(&mut self, rhs: &Ring<F>)
        requires
            old(self).wf_limbs(),
            rhs.wf_limbs(),
        ensures
            final(self).wf_limbs(),
            old(self).wf() && rhs.wf() ==> final(self).wf(),
            final(self)@ == ring_add(old(self)@, rhs@),
    {
        let sum = (&*self).add(rhs);
        *self = sum;
    }
}

impl<F: BinaryFieldConfig> SubSpecImpl<&Ring<F>> for &Ring<F> {
    open spec fn obeys_sub_spec() -> bool {
        false
    }

    open spec fn sub_req(self, rhs: &Ring<F>) -> bool {
        self.wf_limbs() && rhs.wf_limbs()
    }

    open spec fn sub_spec(self, rhs: &Ring<F>) -> Ring<F> {
        arbitrary()
    }
}

impl<F: BinaryFieldConfig> Sub<&Ring<F>> for &Ring<F> {
    type Output = Ring<F>;

    /// In characteristic two a difference is the sum.
    fn sub(self, rhs: &Ring<F>) -> (r: Ring<F>)
        ensures
            r.wf_limbs(),
            self.wf() && rhs.wf() ==> r.wf(),
            r@ == ring_add(self@, rhs@),
    {
        self.add(rhs)
    }
}

impl<F: BinaryFieldConfig> SubAssign<&Ring<F>> for Ring<F> {
    fn sub_assign(&mut self, rhs: &Ring<F>)
        requires
            old(self).wf_limbs(),
            rhs.wf_limbs(),
        ensures
            final(self).wf_limbs(),
            old(self).wf() && rhs.wf() ==> final(self).wf(),
            final(self)@ == ring_add(old(self)@, rhs@),
    {
        let difference = (&*self).sub(rhs);
        *self = difference;
    }
}

/// The product of `long`, cut into chunks as long as `short`, by `short`.
fn chunked_product<F: BinaryFieldConfig>(long: &[BinaryField<F>], short: &[BinaryField<F>]) -> (r:
    Vec<BinaryField<F>>)
    requires
        power_of_two(short@.len()),
        long@.len() % short@.len() == 0,
        limbs_wf(long@),
        limbs_wf(short@),
    ensures
        limbs_wf(r@),
        r@.len() == long@.len(),
        limbs(r@) == chunked_mul(F::poly(), F::imag_unit(), limbs(long@), limbs(short@)),
{
    let long_len: usize = long.len();
    let short_len: usize = short.len();
    let mut res: Vec<BinaryField<F>> = Vec::new();
    let mut start: usize = 0;
    proof {
        assert(limbs(long@).skip(0) =~= limbs(long@));
        assert(limbs(res@) + limbs(long@) =~= limbs(long@));
        assert(Seq::<Seq<bool>>::empty() + chunked_mul(
            F::poly(),
            F::imag_unit(),
            limbs(long@),
            limbs(short@),
        ) =~= chunked_mul(F::poly(), F::imag_unit(), limbs(long@), limbs(short@)));
        assert(limbs(res@) =~= Seq::<Seq<bool>>::empty());
    }
    while start < long_len
        invariant
            long_len == long@.len(),
            short_len == short@.len(),
            short_len >= 1,
            power_of_two(short@.len()),
            start <= long_len,
            (long_len - start) % (short_len as int) == 0,
            limbs_wf(long@),
            limbs_wf(short@),
            limbs_wf(res@),
            res@.len() == start,
            limbs(res@) + chunked_mul(
                F::poly(),
                F::imag_unit(),
                limbs(long@).skip(start as int),
                limbs(short@),
            ) == chunked_mul(F::poly(), F::imag_unit(), limbs(long@), limbs(short@)),
        decreases long_len - start,
    {
        assert(long_len - start >= short_len) by (nonlinear_arith)
            requires
                long_len - start > 0,
                short_len >= 1,
                (long_len - start) % (short_len as int) == 0,
        ;
        assert((long_len - start - short_len) % (short_len as int) == 0) by (nonlinear_arith)
            requires
                long_len - start >= short_len,
                short_len >= 1,
                (long_len - start) % (short_len as int) == 0,
        ;
        let chunk = slice_subrange(long, start, start + short_len);
        proof {
            lemma_limbs_subrange(long@, start as int, start + short_len);
        }
        let mut product = recursive_mul(chunk, short);
        proof {
            let rest = limbs(long@).skip(start as int);
            assert(rest.take(short_len as int) =~= limbs(long@).subrange(
                start as int,
                start + short_len,
            ));
            assert(rest.skip(short_len as int) =~= limbs(long@).skip(start + short_len));
            lemma_limbs_concat(res@, product@);
            assert(limbs(res@) + (limbs(product@) + chunked_mul(
                F::poly(),
                F::imag_unit(),
                rest.skip(short_len as int),
                limbs(short@),
            )) =~= (limbs(res@) + limbs(product@)) + chunked_mul(
                F::poly(),
                F::imag_unit(),
                rest.skip(short_len as int),
                limbs(short@),
            ));
        }
        res.append(&mut product);
        start = start + short_len;
    }
    proof {
        assert(limbs(long@).skip(start as int).len() == 0);
        assert(limbs(res@) + Seq::<Seq<bool>>::empty() =~= limbs(res@));
    }
    res
}

impl<F: BinaryFieldConfig> MulSpecImpl<&Ring<F>> for &Ring<F> {
    open spec fn obeys_mul_spec() -> bool {
        false
    }

    open spec fn mul_req(self, rhs: &Ring<F>) -> bool {
        self.wf() && rhs.wf()
    }

    open spec fn mul_spec(self, rhs: &Ring<F>) -> Ring<F> {
        arbitrary()
    }
}

impl<F: BinaryFieldConfig> Mul<&Ring<F>> for &Ring<F> {
    type Output = Ring<F>;

    /// The product in the tower. Operands of one level are multiplied
    /// directly; otherwise the longer one is cut into chunks of the
    /// shorter one's length, and each chunk is multiplied by the shorter.
    fn mul(self, rhs: &Ring<F>) -> (r: Ring<F>)
        ensures
            r.wf(),
            r@.len() == if self@.len() <= rhs@.len() {
                rhs@.len()
            } else {
                self@.len()
            },
            r@ == ring_mul(F::poly(), F::imag_unit(), self@, rhs@),
    {
        if self.get_len() != rhs.get_len() {
            let long = if self.get_len() < rhs.get_len() {
                rhs
            } else {
                self
            };
            let short = if self.get_len() < rhs.get_len() {
                self
            } else {
                rhs
            };
            proof {
                lemma_power_of_two_divides(short.elements@.len(), long.elements@.len());
            }
            let res = chunked_product(long.elements.as_slice(), short.elements.as_slice());
            Ring { elements: res }
        } else {
            let res = recursive_mul(self.elements.as_slice(), rhs.elements.as_slice());
            Ring { elements: res }
        }
    }
}

impl<F: BinaryFieldConfig> MulAssign<&Ring<F>> for Ring<F> {
    fn mul_assign(&mut self, rhs: &Ring<F>)
        requires
            old(self).wf(),
            rhs.wf(),
        ensures
            final(self).wf(),
            final(self)@ == ring_mul(F::poly(), F::imag_unit(), old(self)@, rhs@),
    {
        let product = (&*self).mul(rhs);
        *self = product;
    }
}

impl<F: BinaryFieldConfig> Ring<F> {
    /// Decodes `l` limbs from a byte string. The bits are taken from the
    /// last byte to the first, each byte from its lowest bit up; every limb
    /// takes the next `N` of them, its lowest coefficient first.
    pub fn from_bytes(l: usize, value: &[u8]) -> (r: Self)
        requires
            l * F::N <= 8 * value@.len(),
        ensures
            r.wf_limbs(),
            power_of_two(l as nat) ==> r.wf(),
            r@ == bytes_limbs(value@, l as nat, F::N as nat),
    {
        let n: usize = F::N;
        let mut elements: Vec<BinaryField<F>> = Vec::new();
        // The next bit of the stream is bit `bit` of the byte `used` places
        // before the last one.
        let mut used: usize = 0;
        let mut bit: usize = 0;
        let mut j: usize = 0;
        while j < l
            invariant
                n == F::N,
                j <= l,
                l * n <= 8 * value@.len(),
                bit < 8,
                8 * used + bit == j * n,
                limbs_wf(elements@),
                elements@.len() == j,
                forall|k: int|
                    0 <= k < j ==> (#[trigger] elements@[k])@ == bytes_limbs(
                        value@,
                        l as nat,
                        n as nat,
                    )[k],
            decreases l - j,
        {
            let mut data: Vec<bool> = Vec::new();
            let mut i: usize = 0;
            assert(j * n + n <= l * n) by (nonlinear_arith)
                requires
                    j < l,
            ;
            while i < n
                invariant
                    n == F::N,
                    i <= n,
                    j < l,
                    j * n + n <= l * n,
                    l * n <= 8 * value@.len(),
                    bit < 8,
                    8 * used + bit == j * n + i,
                    data@.len() == i,
                    forall|k: int|
                        0 <= k < i ==> #[trigger] data@[k] == stream_bit(value@, j * n + k),
                decreases n - i,
            {
                let byte: u8 = value[value.len() - 1 - used];
                let b: bool = (byte >> (bit as u8)) & 1 == 1;
                proof {
                    let q = j * n + i;
                    assert(q / 8 == used && q % 8 == bit);
                    lemma_byte_bit(byte, bit as u8);
                }
                data.push(b);
                bit = bit + 1;
                if bit == 8 {
                    bit = 0;
                    used = used + 1;
                }
                i += 1;
            }
            let limb = BinaryField::<F> { data, marker: PhantomData };
            assert(limb@ =~= bytes_limbs(value@, l as nat, n as nat)[j as int]);
            elements.push(limb);
            assert((j + 1) * n == j * n + n) by (nonlinear_arith);
            j += 1;
        }
        let r = Ring { elements };
        assert(r@ =~= bytes_limbs(value@, l as nat, F::N as nat));
        r
    }
}

/// Limb-wise sum of two runs of limbs, as long as the shorter run.
pub fn add_limbs_helper<F: BinaryFieldConfig>(a: &[BinaryField<F>], b: &[BinaryField<F>]) -> (r:
    Vec<BinaryField<F>>)
    requires
        limbs_wf(a@),
        limbs_wf(b@),
    ensures
        limbs_wf(r@),
        r@.len() == if a@.len() <= b@.len() {
            a@.len()
        } else {
            b@.len()
        },
        limbs(r@) == limbs_add(limbs(a@), limbs(b@)),
{
    let len: usize = if a.len() <= b.len() {
        a.len()
    } else {
        b.len()
    };
    let mut res: Vec<BinaryField<F>> = Vec::new();
    let mut i: usize = 0;
    while i < len
        invariant
            i <= len,
            len <= a.len(),
            len <= b.len(),
            limbs_wf(a@),
            limbs_wf(b@),
            limbs_wf(res@),
            res@.len() == i,
            forall|k: int| 0 <= k < i ==> (#[trigger] res@[k])@ == xor_bits(a@[k]@, b@[k]@),
        decreases len - i,
    {
        let sum = (&a[i]).add(&b[i]);
        res.push(sum);
        i += 1;
    }
    assert(limbs(res@) =~= limbs_add(limbs(a@), limbs(b@)));
    res
}

/// The product of a run of limbs, read as one tower element, and the basis
/// element of its level.
pub fn mul_by_imag_unit<F: BinaryFieldConfig>(a: &[BinaryField<F>]) -> (r: Vec<BinaryField<F>>)
    requires
        power_of_two(a@.len()),
        limbs_wf(a@),
    ensures
        limbs_wf(r@),
        r@.len() == a@.len(),
        limbs(r@) == basis_mul(F::poly(), F::imag_unit(), limbs(a@)),
    decreases a@.len(),
{
    let len: usize = a.len();
    if len == 1 {
        let mut res: Vec<BinaryField<F>> = Vec::new();
        res.push(a[0].mul_by_imag_unit());
        assert(limbs(res@) =~= basis_mul(F::poly(), F::imag_unit(), limbs(a@)));
        return res;
    }
    let half_len: usize = len / 2;
    proof {
        lemma_limbs_subrange(a@, half_len as int, len as int);
        lemma_limbs_subrange(a@, 0, half_len as int);
    }
    if len == 2 {
        let shift = a[1].mul_by_imag_unit();
        let high = (&a[0]).add(&shift);
        let low = a[1].clone();
        let mut res: Vec<BinaryField<F>> = Vec::new();
        res.push(low);
        res.push(high);
        proof {
            let m = limbs(a@);
            let hi = m.skip(1);
            assert(basis_mul(F::poly(), F::imag_unit(), hi) =~= seq![
                field_mul(F::poly(), hi[0], F::imag_unit()),
            ]);
            assert(xor_bits(a@[0]@, shift@) =~= xor_bits(shift@, a@[0]@));
            assert(limbs(res@) =~= hi + limbs_add(
                basis_mul(F::poly(), F::imag_unit(), hi),
                m.take(1),
            ));
        }
        res
    } else {
        let upper = slice_subrange(a, half_len, len);
        let shift = mul_by_imag_unit(upper);
        let mut sum = add_limbs_helper(shift.as_slice(), slice_subrange(a, 0, half_len));
        let mut res = clone_limbs(upper);
        proof {
            lemma_limbs_concat(res@, sum@);
        }
        res.append(&mut sum);
        res
    }
}

/// The product of two runs of limbs of the same length, read as tower
/// elements of one level: three products of half the length, combined.
/// It is the product that the tower's defining relation gives.
pub fn recursive_mul<F: BinaryFieldConfig>(a: &[BinaryField<F>], b: &[BinaryField<F>]) -> (r:
    Vec<BinaryField<F>>)
    requires
        a@.len() == b@.len(),
        power_of_two(a@.len()),
        limbs_wf(a@),
        limbs_wf(b@),
    ensures
        limbs_wf(r@),
        r@.len() == a@.len(),
        limbs(r@) == tower_mul(F::poly(), F::imag_unit(), limbs(a@), limbs(b@)),
        limbs(r@) == schoolbook_mul(F::poly(), F::imag_unit(), limbs(a@), limbs(b@)),
    decreases a@.len(),
{
    proof {
        lemma_limbs_elem(a@);
        lemma_limbs_elem(b@);
        lemma_tower_mul_is_schoolbook(
            F::poly(),
            F::imag_unit(),
            limbs(a@),
            limbs(b@),
            a@.len(),
        );
    }
    let len: usize = a.len();
    if len == 1 {
        let mut res: Vec<BinaryField<F>> = Vec::new();
        res.push((&a[0]).mul(&b[0]));
        assert(limbs(res@) =~= tower_mul(F::poly(), F::imag_unit(), limbs(a@), limbs(b@)));
        return res;
    }
    let half_len: usize = len / 2;
    proof {
        lemma_limbs_subrange(a@, 0, half_len as int);
        lemma_limbs_subrange(a@, half_len as int, len as int);
        lemma_limbs_subrange(b@, 0, half_len as int);
        lemma_limbs_subrange(b@, half_len as int, len as int);
    }
    let a_low = slice_subrange(a, 0, half_len);
    let a_high = slice_subrange(a, half_len, len);
    let b_low = slice_subrange(b, 0, half_len);
    let b_high = slice_subrange(b, half_len, len);

    let a_sum = add_limbs_helper(a_low, a_high);
    let b_sum = add_limbs_helper(b_low, b_high);

    let a_low_times_b_low = recursive_mul(a_low, b_low);
    let a_high_times_b_high = recursive_mul(a_high, b_high);
    let a_sum_times_b_sum = recursive_mul(a_sum.as_slice(), b_sum.as_slice());

    let mid_term = add_limbs_helper(a_sum_times_b_sum.as_slice(), a_low_times_b_low.as_slice());
    let mid_term = add_limbs_helper(mid_term.as_slice(), a_high_times_b_high.as_slice());

    let shift = mul_by_imag_unit(a_high_times_b_high.as_slice());
    let mut high_term = add_limbs_helper(mid_term.as_slice(), shift.as_slice());

    let mut res = add_limbs_helper(a_low_times_b_low.as_slice(), a_high_times_b_high.as_slice());
    proof {
        lemma_limbs_concat(res@, high_term@);
    }
    res.append(&mut high_term);
    res
}

/// A copy of a run of limbs.
fn clone_limbs<F: BinaryFieldConfig>(a: &[BinaryField<F>]) -> (r: Vec<BinaryField<F>>)
    ensures
        r@.len() == a@.len(),
        limbs(r@) == limbs(a@),
        limbs_wf(a@) ==> limbs_wf(r@),
{
    let mut res: Vec<BinaryField<F>> = Vec::new();
    let mut i: usize = 0;
    while i < a.len()
        invariant
            i <= a.len(),
            res@.len() == i,
            forall|k: int| 0 <= k < i ==> (#[trigger] res@[k])@ == a@[k]@,
        decreases a.len() - i,
    {
        res.push(a[i].clone());
        i += 1;
    }
    assert(limbs(res@) =~= limbs(a@));
    assert(limbs_wf(a@) ==> limbs_wf(res@)) by {
        if limbs_wf(a@) {
            assert forall|k: int| 0 <= k < res@.len() implies (#[trigger] res@[k]).wf() by {
                assert(a@[k].wf());
            }
        }
    }
    res
}

} // verus!
