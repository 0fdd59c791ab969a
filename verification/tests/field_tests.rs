use binary_tower::binary_field::{AESPoly, BinaryField, BinaryFieldConfig, WidthError, F2};
use rand::Rng;
use rand::rngs::StdRng;
use rand_chacha::rand_core::SeedableRng;
use rand_chacha::ChaCha20Rng;
use std::ops::{Add, Mul, Sub};

fn shift_and_add(mut a: u8, mut b: u8) -> u8 {
    let mut sum = 0u8;

    for _ in 0..8 {
        if b & 1 == 1 {
            sum ^= a;
        }
        b >>= 1;

        let h = a & 0x80 != 0;
        a <<= 1;
        if h {
            a ^= 0x1b;
        }
    }

    sum
}

fn aes(value: u8) -> BinaryField<AESPoly> {
    BinaryField::<AESPoly>::try_from(value).unwrap()
}

#[test]
fn test_aes_field_mul() {
    let mut prng = ChaCha20Rng::seed_from_u64(0);

    for _ in 0..100 {
        let a: u8 = prng.gen();
        let b: u8 = prng.gen();

        let expected = shift_and_add(a, b);

        let a_bf = BinaryField::<AESPoly>::try_from(a).unwrap();
        let b_bf = BinaryField::<AESPoly>::try_from(b).unwrap();

        let result = a_bf.mul(&b_bf);
        let expected_bf = BinaryField::<AESPoly>::try_from(expected).unwrap();
        assert_eq!(result, expected_bf);
    }
}

#[test]
fn aes_field_mul_matches_shift_and_add_on_all_byte_pairs() {
    for a in 0..=255u8 {
        for b in 0..=255u8 {
            let result = (&aes(a)).mul(&aes(b));
            assert_eq!(result, aes(shift_and_add(a, b)));
        }
    }
}

#[test]
fn aes_field_mul_known_products() {
    assert_eq!((&aes(0x57)).mul(&aes(0x83)), aes(0xc1));
    assert_eq!((&aes(0x57)).mul(&aes(0x13)), aes(0xfe));
    assert_eq!((&aes(0x02)).mul(&aes(0x80)), aes(0x1b));
    assert_eq!((&aes(0x53)).mul(&aes(0xca)), aes(0x01));
}

#[test]
fn zero_and_one_have_the_expected_coefficients() {
    let zero = BinaryField::<AESPoly>::zero();
    let one = BinaryField::<AESPoly>::one();
    assert_eq!(zero.data, vec![false; 8]);
    assert_eq!(one.data, vec![true, false, false, false, false, false, false, false]);
    assert_eq!(BinaryField::<AESPoly>::default(), zero);
    assert_eq!(BinaryField::<F2>::zero().data, vec![false]);
    assert_eq!(BinaryField::<F2>::one().data, vec![true]);
    assert_eq!(one, aes(1));
    assert_eq!(zero, aes(0));
}

#[test]
fn integer_conversion_is_least_significant_bit_first() {
    let x = aes(0b1010_0110);
    assert_eq!(x.data, vec![false, true, true, false, false, true, false, true]);
}

#[test]
fn integer_conversion_rejects_an_integer_wider_than_the_field() {
    assert_eq!(
        BinaryField::<F2>::try_from(1u8),
        Err(WidthError { bits: 8, width: 1 })
    );
    assert_eq!(
        BinaryField::<AESPoly>::try_from(1u16),
        Err(WidthError { bits: 16, width: 8 })
    );
    assert_eq!(
        BinaryField::<AESPoly>::try_from(1u32),
        Err(WidthError { bits: 32, width: 8 })
    );
    assert_eq!(
        BinaryField::<AESPoly>::try_from(1u64),
        Err(WidthError { bits: 64, width: 8 })
    );
    assert_eq!(
        BinaryField::<AESPoly>::try_from(1u128),
        Err(WidthError { bits: 128, width: 8 })
    );
    assert!(BinaryField::<AESPoly>::try_from(0xffu8).is_ok());
}

#[test]
fn field_addition_is_xor() {
    assert_eq!((&aes(0x57)).add(&aes(0x83)), aes(0x57 ^ 0x83));
    assert_eq!(aes(0x57) + aes(0x83), aes(0xd4));
    assert_eq!((&aes(0x57)).sub(&aes(0x83)), aes(0xd4));
    let mut x = aes(0x0f);
    x += &aes(0xf1);
    assert_eq!(x, aes(0xfe));
    x -= &aes(0xf1);
    assert_eq!(x, aes(0x0f));
    x *= &aes(0x02);
    assert_eq!(x, aes(0x1e));
}

#[test]
fn field_ring_axioms_on_sample_values() {
    let values = [0x00u8, 0x01, 0x02, 0x53, 0x80, 0xca, 0xff];
    let zero = BinaryField::<AESPoly>::zero();
    let one = BinaryField::<AESPoly>::one();
    for &a in values.iter() {
        let fa = aes(a);
        assert_eq!((&fa).add(&zero), fa);
        assert_eq!((&fa).add(&fa), zero);
        assert_eq!((&fa).mul(&one), fa);
        for &b in values.iter() {
            let fb = aes(b);
            assert_eq!((&fa).add(&fb), (&fb).add(&fa));
            assert_eq!((&fa).mul(&fb), (&fb).mul(&fa));
            for &c in values.iter() {
                let fc = aes(c);
                assert_eq!((&(&fa).add(&fb)).add(&fc), (&fa).add(&(&fb).add(&fc)));
                assert_eq!((&(&fa).mul(&fb)).mul(&fc), (&fa).mul(&(&fb).mul(&fc)));
                assert_eq!(
                    (&fa).mul(&(&fb).add(&fc)),
                    (&(&fa).mul(&fb)).add(&(&fa).mul(&fc))
                );
            }
        }
    }
}

#[test]
fn two_element_field_arithmetic() {
    let zero = BinaryField::<F2>::zero();
    let one = BinaryField::<F2>::one();
    assert_eq!((&one).mul(&one), one);
    assert_eq!((&one).mul(&zero), zero);
    assert_eq!((&one).add(&one), zero);
    assert_eq!(one.mul_by_imag_unit(), one);
    assert_eq!(zero.mul_by_imag_unit(), zero);
}

#[test]
fn mul_by_imag_unit_multiplies_by_the_constant() {
    let unit = aes(0xd3);
    assert_eq!(unit.data, AESPoly::get_imag_unit().to_vec());
    for a in [0x00u8, 0x01, 0x02, 0x95, 0xff] {
        assert_eq!(aes(a).mul_by_imag_unit(), (&aes(a)).mul(&unit));
    }
    assert_eq!(aes(0x01).mul_by_imag_unit(), aes(0xd3));
    assert_eq!(aes(0x02).mul_by_imag_unit(), aes(0xbd));
}

#[test]
fn clone_keeps_the_coefficients() {
    let x = aes(0x9c);
    assert_eq!(x.clone(), x);
}

#[test]
fn sample_draws_one_bit_for_each_coefficient() {
    let mut rng = StdRng::seed_from_u64(42);
    let mut same = StdRng::seed_from_u64(42);
    for _ in 0..10 {
        let x = BinaryField::<AESPoly>::sample(&mut rng);
        let expected: Vec<bool> = (0..8).map(|_| same.gen()).collect();
        assert_eq!(x.data, expected);
    }
    let y = BinaryField::<F2>::sample(&mut rng);
    assert_eq!(y.data.len(), 1);
}

#[test]
fn sample_gives_different_elements() {
    let mut rng = StdRng::seed_from_u64(3);
    let first = BinaryField::<AESPoly>::sample(&mut rng);
    let mut all_equal = true;
    for _ in 0..50 {
        if BinaryField::<AESPoly>::sample(&mut rng) != first {
            all_equal = false;
        }
    }
    assert!(!all_equal);
}
