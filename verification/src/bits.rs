//! The mathematical model of the base field: polynomials over GF(2) as
//! sequences of coefficients, lowest degree first.
use vstd::prelude::*;

verus! {

/// Coefficient `i` of `s`; every coefficient outside the sequence is zero.
pub open spec fn bit_at(s: Seq<bool>, i: int) -> bool {
    0 <= i < s.len() && s[i]
}

/// The sum over GF(2) of `f(0), ..., f(n - 1)`.
pub open spec fn xor_sum(f: spec_fn(int) -> bool, n: nat) -> bool
    decreases n,
{
    if n == 0 {
        false
    } else {
        xor_sum(f, (n - 1) as nat) ^ f(n - 1)
    }
}

/// The all-zero sequence of `n` coefficients.
pub open spec fn zeros(n: nat) -> Seq<bool> {
    Seq::new(n, |i: int| false)
}

/// The polynomial `1` written on `n` coefficients.
pub open spec fn unit(n: nat) -> Seq<bool> {
    Seq::new(n, |i: int| i == 0)
}

/// Coefficient-wise sum of two polynomials of the same length.
pub open spec fn xor_bits(a: Seq<bool>, b: Seq<bool>) -> Seq<bool> {
    Seq::new(a.len(), |i: int| a[i] ^ b[i])
}

/// The products `a[i] * b[k - i]` whose sum is coefficient `k` of `a * b`.
pub open spec fn conv_term(a: Seq<bool>, b: Seq<bool>, k: int) -> spec_fn(int) -> bool {
    |i: int| bit_at(a, i) && bit_at(b, k - i)
}

/// Coefficient `k` of the carry-less product of `a` and `b`.
pub open spec fn conv_bit(a: Seq<bool>, b: Seq<bool>, k: int) -> bool {
    xor_sum(conv_term(a, b, k), a.len())
}

/// The carry-less product of two non-empty polynomials.
pub open spec fn conv(a: Seq<bool>, b: Seq<bool>) -> Seq<bool> {
    Seq::new((a.len() + b.len() - 1) as nat, |k: int| conv_bit(a, b, k))
}

/// One step of the reduction modulo `x^N + poly[0] x^(N-1) + ... + poly[N-1]`:
/// if coefficient `i` of `t` is set, clear it and add the `N` low
/// coefficients of the modulus just below it.
pub open spec fn fold_bit(poly: Seq<bool>, t: Seq<bool>, i: int) -> Seq<bool> {
    if bit_at(t, i) {
        Seq::new(
            t.len(),
            |k: int|
                if k == i {
                    false
                } else if i - poly.len() <= k < i {
                    t[k] ^ poly[i - 1 - k]
                } else {
                    t[k]
                },
        )
    } else {
        t
    }
}

/// `t` after the reduction steps at `m - 1`, `m - 2`, ..., `N`, in that order.
pub open spec fn fold_down(poly: Seq<bool>, t: Seq<bool>, m: nat) -> Seq<bool>
    decreases m,
{
    if m <= poly.len() {
        t
    } else {
        fold_down(poly, fold_bit(poly, t, m - 1), (m - 1) as nat)
    }
}

/// The remainder of `t` modulo the polynomial that `poly` stands for.
pub open spec fn reduce(poly: Seq<bool>, t: Seq<bool>) -> Seq<bool> {
    fold_down(poly, t, t.len()).take(poly.len() as int)
}

/// The product of `a` and `b` in GF(2)[x] modulo the polynomial of `poly`.
pub open spec fn field_mul(poly: Seq<bool>, a: Seq<bool>, b: Seq<bool>) -> Seq<bool> {
    reduce(poly, conv(a, b))
}

/// Bit `i` of the binary expansion of `v`.
pub open spec fn int_bit(v: nat, i: nat) -> bool
    decreases i,
{
    if i == 0 {
        v % 2 == 1
    } else {
        int_bit(v / 2, (i - 1) as nat)
    }
}

/// The `n` coefficients that hold the low `bits` bits of `v`, lowest bit
/// first, and zero above them.
pub open spec fn int_bits(v: nat, bits: nat, n: nat) -> Seq<bool> {
    Seq::new(n, |i: int| i < bits && int_bit(v, i as nat))
}

/// Bit `k` of a byte, read by shifting, is bit `k` of its binary expansion.
pub proof fn lemma_byte_bit(byte: u8, k: u8)
    requires
        k < 8,
    ensures
        ((byte >> k) & 1 == 1) == int_bit(byte as nat, k as nat),
    decreases k,
{
    if k == 0 {
        assert(((byte >> 0u8) & 1 == 1) == (byte % 2 == 1)) by (bit_vector);
    } else {
        let half: u8 = byte / 2;
        let below: u8 = (k - 1) as u8;
        lemma_byte_bit(half, below);
        assert((half >> below) == (byte >> k)) by (bit_vector)
            requires
                1 <= k < 8,
                below == k - 1,
                half == byte / 2,
        ;
    }
}

} // verus!
