//! The base field GF(2^N): elements, their configuration and arithmetic.
use crate::bits::{
    conv, conv_term, field_mul, fold_bit, fold_down, int_bit, int_bits, unit, xor_bits, xor_sum,
    zeros,
};
use std::fmt::Debug;
use std::marker::PhantomData;
use std::ops::{Add, AddAssign, Mul, MulAssign, Sub, SubAssign};
use vstd::prelude::*;
use vstd::slice::slice_to_vec;
use vstd::std_specs::cmp::PartialEqSpecImpl;
use vstd::std_specs::convert::TryFromSpecImpl;
use vstd::std_specs::ops::{AddSpecImpl, MulSpecImpl, SubSpecImpl};

verus! {

/// The identity of a base field: its width `N`, the `N` low coefficients of
/// its reduction polynomial, highest degree first, and the constant by which
/// the tower's first extension step multiplies.
pub trait BinaryFieldConfig: Clone + Debug + PartialEq + Eq {
    const N: usize;

    /// The coefficients that `get_poly` returns.
    spec fn poly() -> Seq<bool>;

    /// The coefficients that `get_imag_unit` returns.
    spec fn imag_unit() -> Seq<bool>;

    /// Every field has at least one coefficient, and both constants have
    /// exactly `N`. For a concrete field this is also how the value of
    /// `N` is learned where the field is used.
    proof fn lemma_shape()
        ensures
            1 <= Self::N,
            2 * Self::N <= usize::MAX,
            Self::poly().len() == Self::N,
            Self::imag_unit().len() == Self::N,
    ;

    fn get_poly<'a>() -> (r: &'a [bool])
        ensures
            r@ == Self::poly(),
    ;

    fn get_imag_unit<'a>() -> (r: &'a [bool])
        ensures
            r@ == Self::imag_unit(),
    ;
}

/// An element of GF(2^N): `data[i]` is the coefficient of `x^i`.
#[derive(Debug)]
pub struct BinaryField<F: BinaryFieldConfig> {
    pub data: Vec<bool>,
    pub marker: PhantomData<F>,
}

/// GF(2^8) modulo `x^8 + x^4 + x^3 + x + 1`.
#[derive(Debug, Clone, PartialEq, Eq)]
pub struct AESPoly;

impl BinaryFieldConfig for AESPoly {
    const N: usize = 8;

    open spec fn poly() -> Seq<bool> {
        seq![false, false, false, true, true, false, true, true]
    }

    open spec fn imag_unit() -> Seq<bool> {
        seq![true, true, false, false, true, false, true, true]
    }

    proof fn lemma_shape() {
    }

    fn get_poly<'a>() -> (r: &'a [bool]) {
        let r: &'a [bool] = &[false, false, false, true, true, false, true, true];
        assert(r@ =~= Self::poly());
        r
    }

    fn get_imag_unit<'a>() -> (r: &'a [bool]) {
        let r: &'a [bool] = &[true, true, false, false, true, false, true, true];
        assert(r@ =~= Self::imag_unit());
        r
    }
}

/// The field of two elements.
#[derive(Debug, Clone, PartialEq, Eq)]
pub struct F2;

impl BinaryFieldConfig for F2 {
    const N: usize = 1;

    open spec fn poly() -> Seq<bool> {
        seq![false]
    }

    open spec fn imag_unit() -> Seq<bool> {
        seq![true]
    }

    proof fn lemma_shape() {
    }

    fn get_poly<'a>() -> (r: &'a [bool]) {
        let r: &'a [bool] = &[false];
        assert(r@ =~= Self::poly());
        r
    }

    fn get_imag_unit<'a>() -> (r: &'a [bool]) {
        let r: &'a [bool] = &[true];
        assert(r@ =~= Self::imag_unit());
        r
    }
}

impl<F: BinaryFieldConfig> View for BinaryField<F> {
    type V = Seq<bool>;

    open spec fn view(&self) -> Seq<bool> {
        self.data@
    }
}

impl<F: BinaryFieldConfig> BinaryField<F> {
    /// An element holds exactly `N` coefficients.
    pub open spec fn wf(&self) -> bool {
        self.data@.len() == F::N
    }

    /// Whether the element holds exactly `N` coefficients.
    pub fn is_well_formed(&self) -> (r: bool)
        ensures
            r == self.wf(),
    {
        self.data.len() == F::N
    }

    pub fn zero() -> (r: Self)
        ensures
            r.wf(),
            r@ == zeros(F::N as nat),
    {
        Self::default()
    }

    pub fn one() -> (r: Self)
        ensures
            r.wf(),
            r@ == unit(F::N as nat),
    {
        proof {
            F::lemma_shape();
        }
        let mut res = Self::default();
        res.data.set(0, true);
        assert(res@ =~= unit(F::N as nat));
        res
    }
}

impl<F: BinaryFieldConfig> Default for BinaryField<F> {
    fn default() -> (r: Self)
        ensures
            r.wf(),
            r@ == zeros(F::N as nat),
    {
        let mut data: Vec<bool> = Vec::new();
        let mut i: usize = 0;
        while i < F::N
            invariant
                i <= F::N,
                data@ =~= zeros(i as nat),
            decreases F::N - i,
        {
            data.push(false);
            i += 1;
        }
        BinaryField { data, marker: PhantomData }
    }
}

impl<F: BinaryFieldConfig> Clone for BinaryField<F> {
    fn clone(&self) -> (r: Self)
        ensures
            r@ == self@,
    {
        BinaryField { data: self.data.clone(), marker: PhantomData }
    }
}

impl<F: BinaryFieldConfig> PartialEqSpecImpl for BinaryField<F> {
    open spec fn obeys_eq_spec() -> bool {
        true
    }

    open spec fn eq_spec(&self, other: &BinaryField<F>) -> bool {
        self@ == other@
    }
}

impl<F: BinaryFieldConfig> PartialEq for BinaryField<F> {
    /// Two elements are equal where they hold the same coefficients.
    fn eq(&self, other: &BinaryField<F>) -> (r: bool) {
        if self.data.len() != other.data.len() {
            return false;
        }
        let mut i: usize = 0;
        while i < self.data.len()
            invariant
                i <= self.data@.len(),
                self.data@.len() == other.data@.len(),
                forall|k: int| 0 <= k < i ==> self@[k] == other@[k],
            decreases self.data@.len() - i,
        {
            if self.data[i] != other.data[i] {
                return false;
            }
            i += 1;
        }
        assert(self@ =~= other@);
        true
    }
}

impl<F: BinaryFieldConfig> Eq for BinaryField<F> {

}

impl<F: BinaryFieldConfig> AddSpecImpl<&BinaryField<F>> for &BinaryField<F> {
    open spec fn obeys_add_spec() -> bool {
        false
    }

    open spec fn add_req(self, rhs: &BinaryField<F>) -> bool {
        self.wf() && rhs.wf()
    }

    open spec fn add_spec(self, rhs: &BinaryField<F>) -> BinaryField<F> {
        arbitrary()
    }
}

impl<F: BinaryFieldConfig> Add<&BinaryField<F>> for &BinaryField<F> {
    type Output = BinaryField<F>;

    fn add(self, rhs: &BinaryField<F>) -> (r: BinaryField<F>)
        ensures
            r.wf(),
            r@ == xor_bits(self@, rhs@),
    {
        let mut res = BinaryField::<F>::default();
        let mut i: usize = 0;
        while i < F::N
            invariant
                i <= F::N,
                self.wf(),
                rhs.wf(),
                res.wf(),
                forall|k: int| 0 <= k < i ==> res@[k] == (self@[k] ^ rhs@[k]),
            decreases F::N - i,
        {
            res.data.set(i, self.data[i] ^ rhs.data[i]);
            i += 1;
        }
        assert(res@ =~= xor_bits(self@, rhs@));
        res
    }
}

impl<F: BinaryFieldConfig> AddAssign<&BinaryField<F>> for BinaryField<F> {
    fn add_assign(&mut self, rhs: &BinaryField<F>)
        requires
            old(self).wf(),
            rhs.wf(),
        ensures
            final(self).wf(),
            final(self)@ == xor_bits(old(self)@, rhs@),
    {
        let mut i: usize = 0;
        while i < F::N
            invariant
                i <= F::N,
                self.wf(),
                rhs.wf(),
                self@.len() == old(self)@.len(),
                forall|k: int| 0 <= k < i ==> #[trigger] self@[k] == (old(self)@[k] ^ rhs@[k]),
                forall|k: int| i <= k < F::N ==> #[trigger] self@[k] == old(self)@[k],
            decreases F::N - i,
        {
            let bit = self.data[i] ^ rhs.data[i];
            self.data.set(i, bit);
            i += 1;
        }
        assert(self@ =~= xor_bits(old(self)@, rhs@));
    }
}

/// An integer has more bits than the field has coefficients.
#[derive(Debug, Clone, Copy, PartialEq, Eq)]
pub struct WidthError {
    /// The number of bits of the integer.
    pub bits: usize,
    /// The number of coefficients of the field.
    pub width: usize,
}

impl<F: BinaryFieldConfig> BinaryField<F> {
    /// The element whose coefficients are the low `bits` bits of `value`,
    /// lowest bit first, and zero above them.
    fn from_low_bits(value: u128, bits: usize) -> (r: Result<Self, WidthError>)
        requires
            bits <= 128,
        ensures
            r is Ok <==> bits <= F::N,
            r is Ok ==> r->Ok_0.wf() && r->Ok_0@ == int_bits(
                value as nat,
                bits as nat,
                F::N as nat,
            ),
            r is Err ==> r->Err_0 == (WidthError { bits, width: F::N }),
    {
        if F::N < bits {
            return Err(WidthError { bits, width: F::N });
        }
        let mut res = Self::default();
        let mut rest: u128 = value;
        let mut i: usize = 0;
        while i < bits
            invariant
                i <= bits <= F::N,
                bits <= 128,
                res.wf(),
                forall|k: int| 0 <= k < i ==> #[trigger] res@[k] == int_bit(value as nat, k as nat),
                forall|k: int| i <= k < F::N ==> !(#[trigger] res@[k]),
                forall|k: nat| #[trigger]
                    int_bit(rest as nat, k) == int_bit(value as nat, (k + i) as nat),
            decreases bits - i,
        {
            let bit = rest & 1 == 1;
            assert((rest & 1 == 1) == (rest % 2 == 1)) by (bit_vector);
            assert(rest >> 1 == rest / 2) by (bit_vector);
            assert forall|k: nat| #[trigger]
                int_bit((rest / 2) as nat, k) == int_bit(value as nat, (k + i + 1) as nat) by {
                assert(int_bit(rest as nat, k + 1) == int_bit((rest / 2) as nat, k));
            }
            assert(int_bit(rest as nat, 0) == bit);
            let ghost before = res@;
            res.data.set(i, bit);
            assert(res@ == before.update(i as int, bit));
            rest = rest >> 1;
            i += 1;
        }
        assert(res@ =~= int_bits(value as nat, bits as nat, F::N as nat));
        Ok(res)
    }
}

impl<F: BinaryFieldConfig> TryFromSpecImpl<u8> for BinaryField<F> {
    open spec fn obeys_try_from_spec() -> bool {
        false
    }

    open spec fn try_from_spec(v: u8) -> Result<Self, WidthError> {
        arbitrary()
    }
}

impl<F: BinaryFieldConfig> TryFrom<u8> for BinaryField<F> {
    type Error = WidthError;

    fn try_from(value: u8) -> (r: Result<Self, WidthError>)
        ensures
            r is Ok <==> 8 <= F::N,
            r is Ok ==> r->Ok_0.wf() && r->Ok_0@ == int_bits(value as nat, 8, F::N as nat),
            r is Err ==> r->Err_0 == (WidthError { bits: 8, width: F::N }),
    {
        let r = Self::from_low_bits(value as u128, 8);
        r
    }
}

impl<F: BinaryFieldConfig> TryFromSpecImpl<u16> for BinaryField<F> {
    open spec fn obeys_try_from_spec() -> bool {
        false
    }

    open spec fn try_from_spec(v: u16) -> Result<Self, WidthError> {
        arbitrary()
    }
}

impl<F: BinaryFieldConfig> TryFrom<u16> for BinaryField<F> {
    type Error = WidthError;

    fn try_from(value: u16) -> (r: Result<Self, WidthError>)
        ensures
            r is Ok <==> 16 <= F::N,
            r is Ok ==> r->Ok_0.wf() && r->Ok_0@ == int_bits(value as nat, 16, F::N as nat),
            r is Err ==> r->Err_0 == (WidthError { bits: 16, width: F::N }),
    {
        let r = Self::from_low_bits(value as u128, 16);
        r
    }
}

impl<F: BinaryFieldConfig> TryFromSpecImpl<u32> for BinaryField<F> {
    open spec fn obeys_try_from_spec() -> bool {
        false
    }

    open spec fn try_from_spec(v: u32) -> Result<Self, WidthError> {
        arbitrary()
    }
}

impl<F: BinaryFieldConfig> TryFrom<u32> for BinaryField<F> {
    type Error = WidthError;

    fn try_from(value: u32) -> (r: Result<Self, WidthError>)
        ensures
            r is Ok <==> 32 <= F::N,
            r is Ok ==> r->Ok_0.wf() && r->Ok_0@ == int_bits(value as nat, 32, F::N as nat),
            r is Err ==> r->Err_0 == (WidthError { bits: 32, width: F::N }),
    {
        let r = Self::from_low_bits(value as u128, 32);
        r
    }
}

impl<F: BinaryFieldConfig> TryFromSpecImpl<u64> for BinaryField<F> {
    open spec fn obeys_try_from_spec() -> bool {
        false
    }

    open spec fn try_from_spec(v: u64) -> Result<Self, WidthError> {
        arbitrary()
    }
}

impl<F: BinaryFieldConfig> TryFrom<u64> for BinaryField<F> {
    type Error = WidthError;

    fn try_from(value: u64) -> (r: Result<Self, WidthError>)
        ensures
            r is Ok <==> 64 <= F::N,
            r is Ok ==> r->Ok_0.wf() && r->Ok_0@ == int_bits(value as nat, 64, F::N as nat),
            r is Err ==> r->Err_0 == (WidthError { bits: 64, width: F::N }),
    {
        let r = Self::from_low_bits(value as u128, 64);
        r
    }
}

impl<F: BinaryFieldConfig> TryFromSpecImpl<u128> for BinaryField<F> {
    open spec fn obeys_try_from_spec() -> bool {
        false
    }

    open spec fn try_from_spec(v: u128) -> Result<Self, WidthError> {
        arbitrary()
    }
}

impl<F: BinaryFieldConfig> TryFrom<u128> for BinaryField<F> {
    type Error = WidthError;

    fn try_from(value: u128) -> (r: Result<Self, WidthError>)
        ensures
            r is Ok <==> 128 <= F::N,
            r is Ok ==> r->Ok_0.wf() && r->Ok_0@ == int_bits(value as nat, 128, F::N as nat),
            r is Err ==> r->Err_0 == (WidthError { bits: 128, width: F::N }),
    {
        let r = Self::from_low_bits(value, 128);
        r
    }
}

impl<F: BinaryFieldConfig> AddSpecImpl<BinaryField<F>> for BinaryField<F> {
    open spec fn obeys_add_spec() -> bool {
        false
    }

    open spec fn add_req(self, rhs: BinaryField<F>) -> bool {
        self.wf() && rhs.wf()
    }

    open spec fn add_spec(self, rhs: BinaryField<F>) -> BinaryField<F> {
        arbitrary()
    }
}

impl<F: BinaryFieldConfig> Add<BinaryField<F>> for BinaryField<F> {
    type Output = BinaryField<F>;

    fn add(self, rhs: BinaryField<F>) -> (r: BinaryField<F>)
        ensures
            r.wf(),
            r@ == xor_bits(self@, rhs@),
    {
        (&self).add(&rhs)
    }
}

impl<F: BinaryFieldConfig> SubSpecImpl<&BinaryField<F>> for &BinaryField<F> {
    open spec fn obeys_sub_spec() -> bool {
        false
    }

    open spec fn sub_req(self, rhs: &BinaryField<F>) -> bool {
        self.wf() && rhs.wf()
    }

    open spec fn sub_spec(self, rhs: &BinaryField<F>) -> BinaryField<F> {
        arbitrary()
    }
}

impl<F: BinaryFieldConfig> Sub<&BinaryField<F>> for &BinaryField<F> {
    type Output = BinaryField<F>;

    /// In characteristic two a difference is the sum.
    fn sub(self, rhs: &BinaryField<F>) -> (r: BinaryField<F>)
        ensures
            r.wf(),
            r@ == xor_bits(self@, rhs@),
    {
        self.add(rhs)
    }
}

impl<F: BinaryFieldConfig> SubAssign<&BinaryField<F>> for BinaryField<F> {
    fn sub_assign(&mut self, rhs: &BinaryField<F>)
        requires
            old(self).wf(),
            rhs.wf(),
        ensures
            final(self).wf(),
            final(self)@ == xor_bits(old(self)@, rhs@),
    {
        self.add_assign(rhs)
    }
}

impl<F: BinaryFieldConfig> MulSpecImpl<&BinaryField<F>> for &BinaryField<F> {
    open spec fn obeys_mul_spec() -> bool {
        false
    }

    open spec fn mul_req(self, rhs: &BinaryField<F>) -> bool {
        self.wf() && rhs.wf()
    }

    open spec fn mul_spec(self, rhs: &BinaryField<F>) -> BinaryField<F> {
        arbitrary()
    }
}

impl<F: BinaryFieldConfig> Mul<&BinaryField<F>> for &BinaryField<F> {
    type Output = BinaryField<F>;

    /// Carry-less product of the two coefficient sequences, then reduction
    /// modulo the field's polynomial from the highest coefficient down.
    fn mul(self, rhs: &BinaryField<F>) -> (r: BinaryField<F>)
        ensures
            r.wf(),
            r@ == field_mul(F::poly(), self@, rhs@),
    {
        proof {
            F::lemma_shape();
        }
        let n: usize = F::N;
        let mut temp: Vec<bool> = vec![false; 2 * n - 1];
        let mut i: usize = 0;
        while i < n
            invariant
                n == F::N,
                i <= n,
                2 * n <= usize::MAX,
                self.wf(),
                rhs.wf(),
                temp@.len() == 2 * n - 1,
                forall|k: int|
                    0 <= k < 2 * n - 1 ==> #[trigger] temp@[k] == xor_sum(
                        conv_term(self@, rhs@, k),
                        i as nat,
                    ),
            decreases n - i,
        {
            let mut j: usize = 0;
            while j < n
                invariant
                    n == F::N,
                    i < n,
                    j <= n,
                    2 * n <= usize::MAX,
                    self.wf(),
                    rhs.wf(),
                    temp@.len() == 2 * n - 1,
                    forall|k: int|
                        0 <= k < 2 * n - 1 ==> #[trigger] temp@[k] == (xor_sum(
                            conv_term(self@, rhs@, k),
                            i as nat,
                        ) ^ (i <= k < i + j && self@[i as int] && rhs@[k - i])),
                decreases n - j,
            {
                let bit = temp[i + j] ^ (self.data[i] && rhs.data[j]);
                temp.set(i + j, bit);
                j += 1;
            }
            i += 1;
        }
        assert(temp@ =~= conv(self@, rhs@));
        let poly = F::get_poly();
        let mut i: usize = 2 * n - 1;
        while i > n
            invariant
                n == F::N,
                n <= i <= 2 * n - 1,
                poly@ == F::poly(),
                poly@.len() == n,
                temp@.len() == 2 * n - 1,
                fold_down(poly@, temp@, i as nat) == fold_down(
                    poly@,
                    conv(self@, rhs@),
                    (2 * n - 1) as nat,
                ),
            decreases i,
        {
            i -= 1;
            let ghost before = temp@;
            if temp[i] {
                temp.set(i, false);
                let mut j: usize = 0;
                while j < n
                    invariant
                        n == F::N,
                        n <= i < 2 * n - 1,
                        j <= n,
                        poly@.len() == n,
                        temp@.len() == 2 * n - 1,
                        before.len() == 2 * n - 1,
                        forall|k: int|
                            0 <= k < 2 * n - 1 ==> #[trigger] temp@[k] == (if k == i {
                                false
                            } else if i - j <= k < i {
                                before[k] ^ poly@[i - 1 - k]
                            } else {
                                before[k]
                            }),
                    decreases n - j,
                {
                    let bit = temp[i - 1 - j] ^ poly[j];
                    temp.set(i - 1 - j, bit);
                    j += 1;
                }
            }
            assert(temp@ =~= fold_bit(poly@, before, i as int));
        }
        temp.truncate(n);
        assert(temp@ =~= field_mul(F::poly(), self@, rhs@));
        BinaryField { data: temp, marker: PhantomData }
    }
}

impl<F: BinaryFieldConfig> MulAssign<&BinaryField<F>> for BinaryField<F> {
    fn mul_assign(&mut self, rhs: &BinaryField<F>)
        requires
            old(self).wf(),
            rhs.wf(),
        ensures
            final(self).wf(),
            final(self)@ == field_mul(F::poly(), old(self)@, rhs@),
    {
        let product = (&*self).mul(rhs);
        *self = product;
    }
}

impl<F: BinaryFieldConfig> BinaryField<F> {
    /// Multiplies by the constant that seeds the tower's extensions.
    pub fn mul_by_imag_unit(&self) -> (r: BinaryField<F>)
        requires
            self.wf(),
        ensures
            r.wf(),
            r@ == field_mul(F::poly(), self@, F::imag_unit()),
    {
        proof {
            F::lemma_shape();
        }
        let imag_unit = BinaryField::<F> {
            data: slice_to_vec(F::get_imag_unit()),
            marker: PhantomData,
        };
        self.mul(&imag_unit)
    }
}

/// The standard generator of the `rand` crate. Its state is opaque here.
#[verifier::external_type_specification]
#[verifier::external_body]
pub struct ExStdRng(rand::rngs::StdRng);

/// One bit drawn from the generator, by `rand::Rng::gen::<bool>`. The call
/// advances the generator and never fails; nothing is claimed of the bit.
#[verifier::external_body]
fn draw_bit(rng: &mut rand::rngs::StdRng) -> bool {
    rand::Rng::gen::<bool>(rng)
}

impl<F: BinaryFieldConfig> BinaryField<F> {
    /// An element whose `N` coefficients are drawn from `rng` one after the
    /// other, the lowest first.
    pub fn sample(rng: &mut rand::rngs::StdRng) -> (r: BinaryField<F>)
        ensures
            r.wf(),
    {
        let mut data: Vec<bool> = Vec::new();
        let mut i: usize = 0;
        while i < F::N
            invariant
                i <= F::N,
                data@.len() == i,
            decreases F::N - i,
        {
            data.push(draw_bit(rng));
            i += 1;
        }
        BinaryField { data, marker: PhantomData }
    }
}

} // verus!
