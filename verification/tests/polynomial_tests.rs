use binary_tower::binary_field::{AESPoly, BinaryField};
use binary_tower::polynomial::Polynomial;
use binary_tower::tower::Ring;
use rand::Rng;
use rand::SeedableRng;
use rand_chacha::ChaCha20Rng;

fn random_ring(len: usize, prng: &mut ChaCha20Rng) -> Ring<AESPoly> {
    let bytes: Vec<u8> = (0..len).map(|_| prng.gen()).collect();
    Ring::<AESPoly>::from_bytes(len, &bytes)
}

fn aes_ring(bytes: &[u8]) -> Ring<AESPoly> {
    Ring {
        elements: bytes
            .iter()
            .map(|b| BinaryField::<AESPoly>::try_from(*b).unwrap())
            .collect(),
    }
}

/// The value of the bilinear polynomial with the table `e` at `(r1, r2)`,
/// written out term by term.
fn bilinear(e: &[Ring<AESPoly>], r1: &Ring<AESPoly>, r2: &Ring<AESPoly>) -> Ring<AESPoly> {
    let one_minus_r1 = &Ring::<AESPoly>::one() - r1;
    let one_minus_r2 = &Ring::<AESPoly>::one() - r2;

    let mut expected = Ring::<AESPoly>::zero();
    expected += &(&(&one_minus_r1 * &one_minus_r2) * &e[0]);
    expected += &(&(r1 * &one_minus_r2) * &e[1]);
    expected += &(&(&one_minus_r1 * r2) * &e[2]);
    expected += &(&(r1 * r2) * &e[3]);
    expected
}

#[test]
fn polynomial_test_simple() {
    let mut prng = ChaCha20Rng::seed_from_u64(0);

    let mut evaluations = vec![];
    for _ in 0..4 {
        evaluations.push(random_ring(4, &mut prng));
    }

    let polynomial = Polynomial { evaluations };

    let r1 = random_ring(16, &mut prng);
    let r2 = random_ring(16, &mut prng);

    let one_minus_r1 = &Ring::<AESPoly>::one() - &r1;
    let one_minus_r2 = &Ring::<AESPoly>::one() - &r2;

    let res = polynomial.evaluate(&[r1.clone(), r2.clone()]);

    let mut expected = Ring::<AESPoly>::zero();
    expected += &(&(&one_minus_r1 * &one_minus_r2) * &polynomial.evaluations[0]);
    expected += &(&(&r1 * &one_minus_r2) * &polynomial.evaluations[1]);
    expected += &(&(&one_minus_r1 * &r2) * &polynomial.evaluations[2]);
    expected += &(&(&r1 * &r2) * &polynomial.evaluations[3]);

    assert_eq!(expected, res);
}

#[test]
fn bilinear_formula_holds_at_one_level() {
    let mut prng = ChaCha20Rng::seed_from_u64(7);
    for len in [1usize, 2, 4, 8] {
        for _ in 0..10 {
            let evaluations: Vec<Ring<AESPoly>> =
                (0..4).map(|_| random_ring(len, &mut prng)).collect();
            let r1 = random_ring(len, &mut prng);
            let r2 = random_ring(len, &mut prng);
            let expected = bilinear(&evaluations, &r1, &r2);
            let polynomial = Polynomial { evaluations };
            let mut padded = polynomial.evaluate(&[r1, r2]);
            padded += &Ring::<AESPoly>::zero();
            assert_eq!(padded, expected);
        }
    }
}

#[test]
fn evaluation_at_a_corner_returns_the_table_entry() {
    let table = vec![
        aes_ring(&[0x11, 0x12]),
        aes_ring(&[0x21, 0x22]),
        aes_ring(&[0x31, 0x32]),
        aes_ring(&[0x41, 0x42]),
    ];
    let polynomial = Polynomial { evaluations: table.clone() };
    let zero = aes_ring(&[0, 0]);
    let one = aes_ring(&[1, 0]);
    assert_eq!(polynomial.evaluate(&[zero.clone(), zero.clone()]), table[0]);
    assert_eq!(polynomial.evaluate(&[one.clone(), zero.clone()]), table[1]);
    assert_eq!(polynomial.evaluate(&[zero.clone(), one.clone()]), table[2]);
    assert_eq!(polynomial.evaluate(&[one.clone(), one.clone()]), table[3]);
}

#[test]
fn evaluation_in_one_variable_is_a_line() {
    let left = aes_ring(&[0x57]);
    let right = aes_ring(&[0x83]);
    let polynomial = Polynomial { evaluations: vec![left, right] };
    // 0x57 + 0x02 * (0x83 + 0x57) = 0x57 + 0x02 * 0xd4 = 0x57 + 0xb3
    assert_eq!(polynomial.evaluate(&[aes_ring(&[0x02])]), aes_ring(&[0xe4]));
}

#[test]
fn evaluation_without_variables_returns_the_single_value() {
    let polynomial = Polynomial { evaluations: vec![aes_ring(&[0x9c, 0x01])] };
    assert_eq!(polynomial.evaluate(&[]), aes_ring(&[0x9c, 0x01]));
}

#[test]
fn evaluation_in_three_variables_fixes_the_first_coordinate_first() {
    let table: Vec<Ring<AESPoly>> = (0..8u8).map(|i| aes_ring(&[i + 1])).collect();
    let polynomial = Polynomial { evaluations: table.clone() };
    let zero = aes_ring(&[0]);
    let one = aes_ring(&[1]);
    for index in 0..8usize {
        let bit = |k: usize| if (index >> k) & 1 == 1 { one.clone() } else { zero.clone() };
        let point = [bit(0), bit(1), bit(2)];
        assert_eq!(polynomial.evaluate(&point), table[index]);
    }
}

#[test]
fn is_power_of_two_tells_full_tables_from_others() {
    for len in 0..20usize {
        let polynomial = Polynomial { evaluations: vec![aes_ring(&[0]); len] };
        assert_eq!(polynomial.is_power_of_two(), len.is_power_of_two());
    }
}

/// The weight of the corner `index` at `point`: for each variable, the
/// coordinate where the corner's bit is one, one minus it where not.
fn weight(point: &[Ring<AESPoly>], index: usize) -> Ring<AESPoly> {
    let mut w = Ring::<AESPoly>::one();
    for (i, r) in point.iter().enumerate() {
        let factor = if (index >> i) & 1 == 1 {
            r.clone()
        } else {
            &Ring::<AESPoly>::one() - r
        };
        w = &w * &factor;
    }
    w
}

#[test]
fn evaluation_is_the_sum_over_the_corners() {
    let mut prng = ChaCha20Rng::seed_from_u64(11);
    let shapes = [(0usize, 2usize, 1usize), (1, 1, 4), (3, 2, 2), (3, 4, 1), (4, 1, 2)];
    for (dim, table_len, point_len) in shapes {
        let table: Vec<Ring<AESPoly>> =
            (0..1usize << dim).map(|_| random_ring(table_len, &mut prng)).collect();
        let point: Vec<Ring<AESPoly>> =
            (0..dim).map(|_| random_ring(point_len, &mut prng)).collect();
        let mut expected = Ring::<AESPoly>::zero();
        for (index, value) in table.iter().enumerate() {
            expected += &(&weight(&point, index) * value);
        }
        let polynomial = Polynomial { evaluations: table };
        assert_eq!(polynomial.evaluate(&point), expected);
    }
}

#[test]
fn accepts_tells_which_points_fit_the_table() {
    let table = |len: usize| Polynomial { evaluations: vec![aes_ring(&[1, 2]); len] };
    let point = |len: usize| vec![aes_ring(&[3]); len];
    assert!(table(1).accepts(&point(0)));
    assert!(table(2).accepts(&point(1)));
    assert!(table(4).accepts(&point(2)));
    assert!(table(8).accepts(&point(3)));
    assert!(!table(4).accepts(&point(1)));
    assert!(!table(4).accepts(&point(3)));
    assert!(!table(0).accepts(&point(0)));
    assert!(!table(3).accepts(&point(1)));
    assert!(!table(6).accepts(&point(2)));
    let mut bad_value = table(2);
    bad_value.evaluations[1] = aes_ring(&[1, 2, 3]);
    assert!(!bad_value.accepts(&point(1)));
    let bad_point = vec![aes_ring(&[1, 2, 3])];
    assert!(!table(2).accepts(&bad_point));
}
