//! The field of `AESPoly` is the field of the classical byte arithmetic:
//! its product is the shift-and-add product that doubles a byte by a shift
//! and adds `0x1b` where the top bit fell out.
use crate::binary_field::{AESPoly, BinaryFieldConfig};
use crate::bits::{field_mul, int_bit, int_bits, lemma_byte_bit, xor_bits, zeros};
use crate::field_laws::{
    horner, lemma_mul_commutative, lemma_mul_is_horner, lemma_times_x_pow_len, times_x,
    times_x_pow,
};
use vstd::prelude::*;

verus! {

/// The eight coefficients of a byte, lowest bit first.
pub open spec fn byte_bits(v: u8) -> Seq<bool> {
    int_bits(v as nat, 8, 8)
}

/// A byte doubled: shifted up by one bit, with `0x1b` added where the top
/// bit was set.
pub open spec fn xtime(a: u8) -> u8 {
    if a & 0x80 != 0 {
        (a << 1) ^ 0x1b
    } else {
        a << 1
    }
}

/// The shift-and-add product over the low `rounds` bits of `b`: for each
/// set bit of `b`, from the lowest up, `a` is added, and `a` is doubled
/// after each bit.
pub open spec fn shift_and_add(a: u8, b: u8, rounds: nat) -> u8
    decreases rounds,
{
    if rounds == 0 {
        0
    } else {
        let rest = shift_and_add(xtime(a), b >> 1, (rounds - 1) as nat);
        if b & 1 == 1 {
            a ^ rest
        } else {
            rest
        }
    }
}

/// The sum of the `b[i] * x^i * a` modulo the polynomial, over `from <= i
/// < to`, the lowest term first.
pub open spec fn horner_range(
    poly: Seq<bool>,
    b: Seq<bool>,
    a: Seq<bool>,
    from: nat,
    to: nat,
) -> Seq<bool>
    decreases to - from,
{
    if from >= to {
        zeros(poly.len())
    } else {
        let rest = horner_range(poly, b, a, from + 1, to);
        if b[from as int] {
            xor_bits(times_x_pow(poly, a, from), rest)
        } else {
            rest
        }
    }
}

proof fn lemma_horner_range_len(poly: Seq<bool>, b: Seq<bool>, a: Seq<bool>, from: nat, to: nat)
    requires
        a.len() == poly.len(),
    ensures
        horner_range(poly, b, a, from, to).len() == poly.len(),
    decreases to - from,
{
    if from < to {
        lemma_horner_range_len(poly, b, a, from + 1, to);
        lemma_times_x_pow_len(poly, a, from);
    }
}

/// A range of terms with its highest term taken off.
proof fn lemma_horner_range_top(poly: Seq<bool>, b: Seq<bool>, a: Seq<bool>, from: nat, to: nat)
    requires
        a.len() == poly.len(),
        from < to,
    ensures
        horner_range(poly, b, a, from, to) == if b[to - 1] {
            xor_bits(
                horner_range(poly, b, a, from, (to - 1) as nat),
                times_x_pow(poly, a, (to - 1) as nat),
            )
        } else {
            horner_range(poly, b, a, from, (to - 1) as nat)
        },
    decreases to - from,
{
    let w = poly.len();
    let below = (to - 1) as nat;
    lemma_times_x_pow_len(poly, a, from);
    lemma_times_x_pow_len(poly, a, below);
    if from + 1 == to {
        assert(horner_range(poly, b, a, from + 1, to) == zeros(w));
        assert(horner_range(poly, b, a, from, below) == zeros(w));
        let t = times_x_pow(poly, a, from);
        assert(xor_bits(t, zeros(w)) =~= t);
        assert(xor_bits(zeros(w), t) =~= t);
    } else {
        lemma_horner_range_top(poly, b, a, from + 1, to);
        lemma_horner_range_len(poly, b, a, from + 1, below);
        let inner = horner_range(poly, b, a, from + 1, below);
        let first = times_x_pow(poly, a, from);
        let last = times_x_pow(poly, a, below);
        assert(xor_bits(first, xor_bits(inner, last)) =~= xor_bits(xor_bits(first, inner), last));
    }
}

/// The terms summed from the lowest up are the terms summed from the
/// highest down.
proof fn lemma_horner_is_range(poly: Seq<bool>, b: Seq<bool>, a: Seq<bool>, n: nat)
    requires
        a.len() == poly.len(),
    ensures
        horner(poly, b, a, n) == horner_range(poly, b, a, 0, n),
    decreases n,
{
    if n > 0 {
        lemma_horner_is_range(poly, b, a, (n - 1) as nat);
        lemma_horner_range_top(poly, b, a, 0, n);
    }
}

/// Doubling a byte multiplies its coefficients by `x` in the field.
proof fn lemma_xtime_bits(a: u8)
    ensures
        byte_bits(xtime(a)) == times_x(AESPoly::poly(), byte_bits(a)),
{
    let d = xtime(a);
    let poly = AESPoly::poly();
    assert forall|k: int| 0 <= k < 8 implies byte_bits(d)[k] == times_x(poly, byte_bits(a))[k] by {
        let s: u8 = k as u8;
        lemma_byte_bit(d, s);
        lemma_byte_bit(a, 7);
        if k >= 1 {
            lemma_byte_bit(a, (k - 1) as u8);
        }
        assert(((d >> s) & 1 == 1) == ((s >= 1 && ((a >> ((s - 1) as u8)) & 1 == 1)) ^ (((a >> 7)
            & 1 == 1) && ((0x1bu8 >> s) & 1 == 1)))) by (bit_vector)
            requires
                s < 8,
                d == (if a & 0x80 != 0 {
                    (a << 1) ^ 0x1b
                } else {
                    a << 1
                }),
        ;
        assert(poly[7 - k] == ((0x1bu8 >> s) & 1 == 1)) by {
            assert(((0x1bu8 >> 0u8) & 1 == 1) && ((0x1bu8 >> 1u8) & 1 == 1) && !((0x1bu8 >> 2u8) & 1
                == 1) && ((0x1bu8 >> 3u8) & 1 == 1) && ((0x1bu8 >> 4u8) & 1 == 1) && !((0x1bu8
                >> 5u8) & 1 == 1) && !((0x1bu8 >> 6u8) & 1 == 1) && !((0x1bu8 >> 7u8) & 1 == 1))
                by (bit_vector);
        }
    }
    assert(byte_bits(d) =~= times_x(poly, byte_bits(a)));
}

/// The coefficients of the sum of two bytes are the sums of their
/// coefficients.
proof fn lemma_xor_bits_of_bytes(x: u8, y: u8)
    ensures
        byte_bits(x ^ y) == xor_bits(byte_bits(x), byte_bits(y)),
{
    assert forall|k: int| 0 <= k < 8 implies byte_bits(x ^ y)[k] == (byte_bits(x)[k] ^ byte_bits(
        y,
    )[k]) by {
        let s: u8 = k as u8;
        lemma_byte_bit(x ^ y, s);
        lemma_byte_bit(x, s);
        lemma_byte_bit(y, s);
        assert((((x ^ y) >> s) & 1 == 1) == (((x >> s) & 1 == 1) ^ ((y >> s) & 1 == 1)))
            by (bit_vector)
            requires
                s < 8,
        ;
    }
    assert(byte_bits(x ^ y) =~= xor_bits(byte_bits(x), byte_bits(y)));
}

/// The shift-and-add product from bit `from` on: with `a` the byte
/// doubled `from` times and `b` the byte shifted down `from` times, the
/// remaining rounds add the terms from `from` up.
proof fn lemma_shift_and_add_range(a: u8, b: u8, a0: u8, b0: u8, from: nat, rounds: nat)
    requires
        from + rounds <= 8,
        byte_bits(a) == times_x_pow(AESPoly::poly(), byte_bits(a0), from),
        forall|i: nat| #[trigger] int_bit(b as nat, i) == int_bit(b0 as nat, i + from),
    ensures
        byte_bits(shift_and_add(a, b, rounds)) == horner_range(
            AESPoly::poly(),
            byte_bits(b0),
            byte_bits(a0),
            from,
            from + rounds,
        ),
    decreases rounds,
{
    let poly = AESPoly::poly();
    if rounds == 0 {
        assert(byte_bits(0u8) =~= zeros(8)) by {
            assert forall|k: int| 0 <= k < 8 implies !byte_bits(0u8)[k] by {
                lemma_byte_bit(0u8, k as u8);
                let s: u8 = k as u8;
                assert(!((0u8 >> s) & 1 == 1)) by (bit_vector);
            }
        }
    } else {
        let next = xtime(a);
        let down: u8 = b >> 1;
        lemma_xtime_bits(a);
        assert(down == b / 2) by (bit_vector)
            requires
                down == b >> 1,
        ;
        assert forall|i: nat| #[trigger]
            int_bit(down as nat, i) == int_bit(b0 as nat, i + from + 1) by {
            assert(int_bit(b as nat, i + 1) == int_bit(down as nat, i));
        }
        lemma_shift_and_add_range(next, down, a0, b0, from + 1, (rounds - 1) as nat);
        let rest = shift_and_add(next, down, (rounds - 1) as nat);
        assert((b & 1 == 1) == (b % 2 == 1)) by (bit_vector);
        assert(int_bit(b as nat, 0) == (b % 2 == 1));
        assert(byte_bits(b0)[from as int] == int_bit(b0 as nat, from));
        lemma_xor_bits_of_bytes(a, rest);
    }
}

/// The product in the field of `AESPoly` is the shift-and-add product of
/// the classical byte arithmetic.
pub proof fn lemma_aes_product(a: u8, b: u8)
    ensures
        field_mul(AESPoly::poly(), byte_bits(a), byte_bits(b)) == byte_bits(
            shift_and_add(a, b, 8),
        ),
{
    let poly = AESPoly::poly();
    lemma_mul_commutative(poly, byte_bits(a), byte_bits(b));
    lemma_mul_is_horner(poly, byte_bits(b), byte_bits(a));
    lemma_horner_is_range(poly, byte_bits(b), byte_bits(a), 8);
    lemma_shift_and_add_range(a, b, a, b, 0, 8);
}

} // verus!
