use binary_tower::binary_field::{AESPoly, BinaryField, F2};
use binary_tower::tower::{add_limbs_helper, mul_by_imag_unit, recursive_mul, Ring};
use std::ops::{Add, Mul, Sub};

fn aes(value: u8) -> BinaryField<AESPoly> {
    BinaryField::<AESPoly>::try_from(value).unwrap()
}

/// Limbs from bytes, the first byte being limb 0.
fn aes_limbs(bytes: &[u8]) -> Vec<BinaryField<AESPoly>> {
    bytes.iter().map(|b| aes(*b)).collect()
}

fn aes_ring(bytes: &[u8]) -> Ring<AESPoly> {
    Ring { elements: aes_limbs(bytes) }
}

/// Multiplication in the tower straight from its defining relations, with
/// four products of half the size at each level.
fn schoolbook(a: &[BinaryField<AESPoly>], b: &[BinaryField<AESPoly>]) -> Vec<BinaryField<AESPoly>> {
    if a.len() == 1 {
        return vec![(&a[0]).mul(&b[0])];
    }
    let h = a.len() / 2;
    let ll = schoolbook(&a[..h], &b[..h]);
    let lh = schoolbook(&a[..h], &b[h..]);
    let hl = schoolbook(&a[h..], &b[..h]);
    let hh = schoolbook(&a[h..], &b[h..]);
    let mut low = add_limbs_helper(&ll, &hh);
    let cross = add_limbs_helper(&lh, &hl);
    let high = add_limbs_helper(&cross, &mul_by_imag_unit(&hh));
    low.extend(high);
    low
}

#[test]
fn tower_test_simple() {
    let a = Ring::<F2>::from_bytes(4, &[0x02]);
    let b = Ring::<F2>::from_bytes(4, &[0x04]);
    let c = &a * &b;
    assert_eq!(c, Ring::<F2>::from_bytes(4, &[0x08]));

    let a = Ring::<F2>::from_bytes(4, &[0x02]);
    let b = Ring::<F2>::from_bytes(4, &[0x02]);
    let c = &a * &b;
    assert_eq!(c, Ring::<F2>::from_bytes(4, &[0x03]));

    let a = Ring::<F2>::from_bytes(4, &[0x08]);
    let b = Ring::<F2>::from_bytes(4, &[0x08]);
    let c = &a * &b;
    assert_eq!(c, Ring::<F2>::from_bytes(4, &[0x07]));
}

#[test]
fn test_complex() {
    let a = Ring::<AESPoly>::from_bytes(2, &[0x95, 0xf9]);
    let b = Ring::<AESPoly>::from_bytes(2, &[0xcd, 0x19]);
    let c = &a * &b;
    let expected_c = Ring::<AESPoly>::from_bytes(2, &[0x49, 0xc4]);
    assert_eq!(c, expected_c);

    let a = Ring::<AESPoly>::from_bytes(4, &[0xb7, 0x36, 0x28, 0x63]);
    let b = Ring::<AESPoly>::from_bytes(4, &[0x25, 0xdd, 0x21, 0xea]);
    let c = &a * &b;
    let expected_c = Ring::<AESPoly>::from_bytes(4, &[0xa4, 0xfc, 0x16, 0x83]);
    assert_eq!(c, expected_c);

    let a = Ring::<AESPoly>::from_bytes(8, &[0x0d, 0xf0, 0x57, 0xe3, 0xb4, 0xa3, 0x1b, 0x25]);
    let b = Ring::<AESPoly>::from_bytes(8, &[0xb0, 0x6d, 0x02, 0x58, 0x8e, 0x45, 0x21, 0x43]);
    let c = &a * &b;
    let expected_c =
        Ring::<AESPoly>::from_bytes(8, &[0x86, 0x2d, 0x67, 0xe0, 0xcc, 0xcd, 0x37, 0xc6]);
    assert_eq!(c, expected_c);

    let a = Ring::<AESPoly>::from_bytes(
        16,
        &[
            0x3a, 0x24, 0x4a, 0xd6, 0xe1, 0x8b, 0x42, 0xf5, 0x98, 0x3e, 0x40, 0x63, 0x27, 0xe2,
            0x37, 0x53,
        ],
    );
    let b = Ring::<AESPoly>::from_bytes(
        16,
        &[
            0x79, 0x8d, 0x75, 0x51, 0x44, 0x46, 0x1e, 0xf3, 0x58, 0x89, 0x58, 0xf3, 0x49, 0xad,
            0xeb, 0xe4,
        ],
    );
    let c = &a * &b;
    let expected_c = Ring::<AESPoly>::from_bytes(
        16,
        &[
            0x70, 0x57, 0xea, 0x93, 0x10, 0xe6, 0x39, 0x9e, 0x07, 0xe5, 0x8e, 0x18, 0xce, 0x80,
            0xd8, 0xa4,
        ],
    );
    assert_eq!(c, expected_c);
}

#[test]
fn from_bytes_puts_the_last_byte_in_the_first_limb() {
    let r = Ring::<AESPoly>::from_bytes(2, &[0x95, 0xf9]);
    assert_eq!(r, aes_ring(&[0xf9, 0x95]));
    let r = Ring::<AESPoly>::from_bytes(4, &[0x01, 0x02, 0x03, 0x04]);
    assert_eq!(r, aes_ring(&[0x04, 0x03, 0x02, 0x01]));
}

#[test]
fn from_bytes_ignores_the_bits_it_does_not_need() {
    let r = Ring::<AESPoly>::from_bytes(1, &[0xaa, 0xbb, 0xcc]);
    assert_eq!(r, aes_ring(&[0xcc]));
    let r = Ring::<F2>::from_bytes(4, &[0xff, 0x05]);
    let bits: Vec<Vec<bool>> = r.elements.iter().map(|e| e.data.clone()).collect();
    assert_eq!(bits, vec![vec![true], vec![false], vec![true], vec![false]]);
    let r = Ring::<F2>::from_bytes(16, &[0x80, 0x01]);
    let bits: Vec<bool> = r.elements.iter().map(|e| e.data[0]).collect();
    let mut expected = vec![false; 16];
    expected[0] = true;
    expected[15] = true;
    assert_eq!(bits, expected);
    assert_eq!(Ring::<AESPoly>::from_bytes(0, &[]).elements.len(), 0);
}

#[test]
fn level_and_length() {
    for (len, level) in [(1usize, 0usize), (2, 1), (4, 2), (8, 3), (16, 4)] {
        let r = Ring::<AESPoly>::from_bytes(len, &vec![0u8; len]);
        assert_eq!(r.get_len(), len);
        assert_eq!(r.get_level(), level);
    }
    let three = aes_ring(&[1, 2, 3]);
    assert_eq!(three.get_level(), 1);
    assert_eq!(Ring::<AESPoly>::default().get_len(), 1);
    assert_eq!(Ring::<AESPoly>::default().get_level(), 0);
}

#[test]
fn zero_one_and_default() {
    assert_eq!(Ring::<AESPoly>::default(), aes_ring(&[0]));
    assert_eq!(Ring::<AESPoly>::zero(), aes_ring(&[0]));
    assert_eq!(Ring::<AESPoly>::one(), aes_ring(&[1]));
}

#[test]
fn addition_is_limb_wise_and_copies_the_excess_limbs() {
    let a = aes_ring(&[0x01, 0x02, 0x03, 0x04]);
    let b = aes_ring(&[0x10, 0x20, 0x30, 0x40]);
    assert_eq!(&a + &b, aes_ring(&[0x11, 0x22, 0x33, 0x44]));
    assert_eq!(&a - &b, aes_ring(&[0x11, 0x22, 0x33, 0x44]));
    let short = aes_ring(&[0xff, 0x0f]);
    assert_eq!(&a + &short, aes_ring(&[0xfe, 0x0d, 0x03, 0x04]));
    assert_eq!(&short + &a, aes_ring(&[0xfe, 0x0d, 0x03, 0x04]));
    let mut c = a.clone();
    c += &b;
    assert_eq!(c, aes_ring(&[0x11, 0x22, 0x33, 0x44]));
    c -= &b;
    assert_eq!(c, a);
}

#[test]
fn add_limbs_helper_stops_at_the_shorter_run() {
    let sum = add_limbs_helper(&aes_limbs(&[1, 2, 3]), &aes_limbs(&[4, 8]));
    assert_eq!(sum, aes_limbs(&[5, 10]));
}

#[test]
fn basis_multiplication_follows_the_quadratic_relation() {
    // One limb: the field's own constant.
    assert_eq!(mul_by_imag_unit(&aes_limbs(&[0x01])), aes_limbs(&[0xd3]));
    // (lo, hi) -> (hi, lo + hi * 0xd3)
    assert_eq!(mul_by_imag_unit(&aes_limbs(&[0x01, 0x00])), aes_limbs(&[0x00, 0x01]));
    assert_eq!(mul_by_imag_unit(&aes_limbs(&[0x00, 0x01])), aes_limbs(&[0x01, 0xd3]));
    assert_eq!(mul_by_imag_unit(&aes_limbs(&[0x05, 0x02])), aes_limbs(&[0x02, 0x05 ^ 0xbd]));
    // Four limbs: (lo, hi) -> (hi, lo + hi * y1), y1 the basis element below.
    assert_eq!(
        mul_by_imag_unit(&aes_limbs(&[0x01, 0x00, 0x00, 0x00])),
        aes_limbs(&[0x00, 0x00, 0x01, 0x00])
    );
    assert_eq!(
        mul_by_imag_unit(&aes_limbs(&[0x00, 0x00, 0x01, 0x00])),
        aes_limbs(&[0x01, 0x00, 0x00, 0x01])
    );
    assert_eq!(
        mul_by_imag_unit(&aes_limbs(&[0x00, 0x00, 0x00, 0x01])),
        aes_limbs(&[0x00, 0x01, 0x01, 0xd3])
    );
}

#[test]
fn basis_multiplication_is_multiplication_by_the_basis_element() {
    let y = aes_limbs(&[0, 0, 0, 0, 1, 0, 0, 0]);
    let x = aes_limbs(&[0x0d, 0xf0, 0x57, 0xe3, 0xb4, 0xa3, 0x1b, 0x25]);
    assert_eq!(mul_by_imag_unit(&x), recursive_mul(&x, &y));
}

#[test]
fn recursive_multiply_agrees_with_schoolbook_multiplication() {
    let mut state: u32 = 0x1234_5678;
    let mut next = move || {
        state = state.wrapping_mul(1_664_525).wrapping_add(1_013_904_223);
        (state >> 24) as u8
    };
    for len in [1usize, 2, 4, 8, 16] {
        for _ in 0..20 {
            let a: Vec<u8> = (0..len).map(|_| next()).collect();
            let b: Vec<u8> = (0..len).map(|_| next()).collect();
            let (a, b) = (aes_limbs(&a), aes_limbs(&b));
            assert_eq!(recursive_mul(&a, &b), schoolbook(&a, &b));
        }
    }
}

#[test]
fn chunked_multiply_multiplies_each_chunk() {
    let long = aes_ring(&[0xb7, 0x36, 0x28, 0x63, 0x25, 0xdd, 0x21, 0xea]);
    let short = aes_ring(&[0x95, 0xf9]);
    let product = &long * &short;
    assert_eq!(product.get_len(), 8);
    for c in 0..4 {
        let chunk = &long.elements[2 * c..2 * c + 2];
        assert_eq!(
            product.elements[2 * c..2 * c + 2].to_vec(),
            recursive_mul(chunk, &short.elements)
        );
        assert_eq!(
            product.elements[2 * c..2 * c + 2].to_vec(),
            schoolbook(chunk, &short.elements)
        );
    }
    assert_eq!(&short * &long, product);
    let scalar = aes_ring(&[0x02]);
    assert_eq!(&aes_ring(&[0x01, 0x80]) * &scalar, aes_ring(&[0x02, 0x1b]));
}

#[test]
fn multiplication_by_a_lower_level_element_is_multiplication_by_its_embedding() {
    let long = aes_ring(&[0xb7, 0x36, 0x28, 0x63, 0x25, 0xdd, 0x21, 0xea]);
    let short = aes_ring(&[0x95, 0xf9]);
    let embedded = aes_ring(&[0x95, 0xf9, 0, 0, 0, 0, 0, 0]);
    assert_eq!(&long * &short, &long * &embedded);
}

#[test]
fn tower_ring_axioms_on_sample_values() {
    let samples: Vec<Ring<AESPoly>> = vec![
        aes_ring(&[0x00, 0x00, 0x00, 0x00]),
        aes_ring(&[0x01, 0x00, 0x00, 0x00]),
        aes_ring(&[0xb7, 0x36, 0x28, 0x63]),
        aes_ring(&[0x25, 0xdd, 0x21, 0xea]),
        aes_ring(&[0x00, 0x00, 0x01, 0x00]),
        aes_ring(&[0xa4, 0xfc, 0x16, 0x83]),
    ];
    let zero = &samples[0];
    let one = &samples[1];
    for a in samples.iter() {
        assert_eq!(&(a + zero), a);
        assert_eq!(&(a + a), zero);
        assert_eq!(&(a * one), a);
        assert_eq!(&(a * &Ring::<AESPoly>::one()), a);
        for b in samples.iter() {
            assert_eq!(a + b, b + a);
            assert_eq!(a * b, b * a);
            for c in samples.iter() {
                assert_eq!(&(a + b) + c, a + &(b + c));
                assert_eq!(&(a * b) * c, a * &(b * c));
                assert_eq!(a * &(b + c), &(a * b) + &(a * c));
            }
        }
    }
}

#[test]
fn multiply_assign_replaces_the_value() {
    let mut a = Ring::<AESPoly>::from_bytes(2, &[0x95, 0xf9]);
    a *= &Ring::<AESPoly>::from_bytes(2, &[0xcd, 0x19]);
    assert_eq!(a, Ring::<AESPoly>::from_bytes(2, &[0x49, 0xc4]));
}

#[test]
fn binary_tower_over_the_two_element_field() {
    // Level 1 over GF(2) is GF(4): y * y = y + 1.
    let y = Ring::<F2>::from_bytes(2, &[0x02]);
    assert_eq!(&y * &y, Ring::<F2>::from_bytes(2, &[0x03]));
    let one = Ring::<F2>::from_bytes(2, &[0x01]);
    assert_eq!(&y * &one, y);
    assert_eq!(y.sub(&one), y.add(&one));
}

#[test]
fn tower_ring_axioms_across_levels() {
    let samples: Vec<Ring<AESPoly>> = vec![
        aes_ring(&[0x00]),
        aes_ring(&[0x01]),
        aes_ring(&[0xd3]),
        aes_ring(&[0x95, 0xf9]),
        aes_ring(&[0x00, 0x01]),
        aes_ring(&[0xb7, 0x36, 0x28, 0x63]),
        aes_ring(&[0x0d, 0xf0, 0x57, 0xe3, 0xb4, 0xa3, 0x1b, 0x25]),
    ];
    let zero = Ring::<AESPoly>::zero();
    let one = Ring::<AESPoly>::one();
    for a in samples.iter() {
        assert_eq!(&(a + &zero), a);
        assert_eq!(&(a * &one), a);
        assert_eq!(&(&one * a), a);
        for b in samples.iter() {
            assert_eq!(a + b, b + a);
            assert_eq!(a * b, b * a);
            assert_eq!((a * b).get_len(), a.get_len().max(b.get_len()));
            assert_eq!((a + b).get_len(), a.get_len().max(b.get_len()));
            for c in samples.iter() {
                assert_eq!(&(a + b) + c, a + &(b + c));
                assert_eq!(&(a * b) * c, a * &(b * c));
                assert_eq!(a * &(b + c), &(a * b) + &(a * c));
            }
        }
    }
}

#[test]
fn basis_elements_square_to_one_plus_the_lower_basis_element_times_themselves() {
    // Level 1: y * y = 1 + 0xd3 * y.
    let y = aes_ring(&[0x00, 0x01]);
    assert_eq!(&y * &y, aes_ring(&[0x01, 0xd3]));
    // Level 2: z * z = 1 + y * z.
    let z = aes_ring(&[0x00, 0x00, 0x01, 0x00]);
    assert_eq!(&z * &z, aes_ring(&[0x01, 0x00, 0x00, 0x01]));
    // Level 3.
    let w = aes_ring(&[0, 0, 0, 0, 1, 0, 0, 0]);
    assert_eq!(&w * &w, aes_ring(&[1, 0, 0, 0, 0, 0, 1, 0]));
}

#[test]
fn well_formedness_is_checked_at_run_time() {
    assert!(aes_ring(&[1]).is_well_formed());
    assert!(aes_ring(&[1, 2]).is_well_formed());
    assert!(aes_ring(&[1, 2, 3, 4]).is_well_formed());
    assert!(!aes_ring(&[1, 2, 3]).is_well_formed());
    assert!(!aes_ring(&[]).is_well_formed());
    assert!(!aes_ring(&[1, 2, 3, 4, 5, 6]).is_well_formed());
    let mut short_limb = aes_ring(&[1, 2]);
    short_limb.elements[1].data.pop();
    assert!(!short_limb.elements[1].is_well_formed());
    assert!(short_limb.elements[0].is_well_formed());
    assert!(!short_limb.is_well_formed());
    let mut long_limb = aes_ring(&[1, 2]);
    long_limb.elements[0].data.push(false);
    assert!(!long_limb.is_well_formed());
    assert!(Ring::<F2>::from_bytes(8, &[0xa5]).is_well_formed());
    assert!(!Ring::<F2>::from_bytes(5, &[0xa5]).is_well_formed());
}

#[test]
fn equality_compares_limbs() {
    assert!(aes_ring(&[1, 2]) == aes_ring(&[1, 2]));
    assert!(aes_ring(&[1, 2]) != aes_ring(&[1, 3]));
    assert!(aes_ring(&[1, 2]) != aes_ring(&[1, 2, 0, 0]));
    assert!(aes_ring(&[1]) != aes_ring(&[]));
    assert!(aes(7) == aes(7));
    assert!(aes(7) != aes(6));
    let mut longer = aes(7);
    longer.data.push(false);
    assert!(longer != aes(7));
}
