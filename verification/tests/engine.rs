use kzg_solvency::field::Scalar;
use kzg_solvency::errors::SolvencyError;
use kzg_solvency::kzg::{g1_add, g1_generator, g1_mul, g2_generator, KZG};
use kzg_solvency::poly::Poly;
use kzg_solvency::witness::{select_evaluations, Domain};

fn engine(degree: usize, tau: u128) -> KZG {
    let mut kzg = KZG::new(g1_generator(), g2_generator(), degree);
    kzg.setup(&Scalar::from_u128(tau));
    kzg
}

#[test]
fn single_open_roundtrip_verifies() {
    let poly = Poly::from_u128s(&vec![3, 1, 4, 1, 5]);
    let kzg = engine(5, 987654321);
    let c = kzg.commit(&poly).unwrap();
    let z = Scalar::from_u128(7);
    let y = poly.eval(&z);
    let pi = kzg.open(&poly, &z, &y).unwrap();
    assert!(kzg.verify(&c, &z, &y, &pi));
}

#[test]
fn single_open_wrong_value_rejected() {
    let poly = Poly::from_u128s(&vec![3, 1, 4, 1, 5]);
    let kzg = engine(5, 987654321);
    let c = kzg.commit(&poly).unwrap();
    let z = Scalar::from_u128(7);
    let y = poly.eval(&z);
    let pi = kzg.open(&poly, &z, &y).unwrap();
    // A different claimed value must not pass against the same proof.
    let y_wrong = Scalar::add(&y, &Scalar::one());
    assert!(!kzg.verify(&c, &z, &y_wrong, &pi));
    // And a proof for a wrong claim is never emitted at all.
    assert_eq!(
        kzg.open(&poly, &z, &y_wrong).err(),
        Some(SolvencyError::NonVanishingRemainder)
    );
}

#[test]
fn interpolation_round_trips_on_domain() {
    let domain = Domain::build(8).unwrap();
    let elements = domain.elements_vec();
    let vals: Vec<u128> = vec![5, 9, 2, 7, 1, 8, 3, 6];
    let values: Vec<Scalar> = vals.iter().map(|v| Scalar::from_u128(*v)).collect();
    let poly = Poly::interpolate(&elements, &values).unwrap();
    for k in 0..8 {
        let e = domain.element(k);
        let got = poly.eval(&e);
        assert!(got.eq(&Scalar::from_u128(vals[k])));
    }
}

#[test]
fn interpolation_dimension_mismatch() {
    let domain = Domain::build(4).unwrap();
    let elements = domain.elements_vec();
    let values: Vec<Scalar> = vec![Scalar::one(), Scalar::one()];
    assert_eq!(
        Poly::interpolate(&elements, &values).err(),
        Some(SolvencyError::DimensionMismatch)
    );
}

#[test]
fn interpolation_duplicate_points_rejected() {
    let dup_domain = vec![
        Scalar::from_u128(3),
        Scalar::from_u128(5),
        Scalar::from_u128(3),
    ];
    let values = vec![Scalar::one(), Scalar::one(), Scalar::one()];
    assert_eq!(
        Poly::interpolate(&dup_domain, &values).err(),
        Some(SolvencyError::InvalidPointSet)
    );
}

#[test]
fn commit_rejects_degree_above_bound() {
    let kzg = engine(2, 424242);
    let poly = Poly::from_u128s(&vec![1, 2, 3, 4]);
    assert_eq!(kzg.commit(&poly).err(), Some(SolvencyError::DegreeExceeded));
}

#[test]
fn multi_open_roundtrip_verifies() {
    let domain = Domain::build(8).unwrap();
    let elements = domain.elements_vec();
    let vals: Vec<u128> = vec![11, 22, 33, 44, 55, 66, 77, 88];
    let values: Vec<Scalar> = vals.iter().map(|v| Scalar::from_u128(*v)).collect();
    let poly = Poly::interpolate(&elements, &values).unwrap();
    let kzg = engine(8, 13371337);
    let c = kzg.commit(&poly).unwrap();
    // Claimed values at slots 2 and 3, zero elsewhere.
    let idxs: Vec<usize> = vec![2, 3];
    let l_values = select_evaluations(&idxs, &domain, &poly);
    let l_poly = Poly::interpolate(&elements, &l_values).unwrap();
    let pts = vec![domain.element(2), domain.element(3)];
    let pi = kzg.multi_open(&poly, &l_poly, &pts).unwrap();
    let z_poly = Poly::vanishing(&pts);
    assert!(kzg.verify_multi_open(&c, &pi, &z_poly, &l_poly));
}

#[test]
fn multi_open_wrong_claim_blocked() {
    let domain = Domain::build(8).unwrap();
    let elements = domain.elements_vec();
    let values: Vec<Scalar> = (0..8).map(|v| Scalar::from_u128(v + 1)).collect();
    let poly = Poly::interpolate(&elements, &values).unwrap();
    let kzg = engine(8, 13371337);
    // A claimed-value polynomial that disagrees at one selected point.
    let mut wrong = select_evaluations(&vec![2, 3], &domain, &poly);
    wrong[2] = Scalar::add(&wrong[2], &Scalar::one());
    let l_poly = Poly::interpolate(&elements, &wrong).unwrap();
    let pts = vec![domain.element(2), domain.element(3)];
    assert_eq!(
        kzg.multi_open(&poly, &l_poly, &pts).err(),
        Some(SolvencyError::NonVanishingRemainder)
    );
}

#[test]
fn encrypted_evaluation_homomorphism() {
    // e1 = y1 * G1, e2 = y2 * G1: the sum of the encryptions verifies as
    // the encryption of the sum, and only against the true evaluation.
    let poly = Poly::from_u128s(&vec![10, 0, 1]);
    let kzg = engine(3, 5550123);
    let c = kzg.commit(&poly).unwrap();
    let z = Scalar::from_u128(6);
    let y = poly.eval(&z); // 10 + 36 = 46
    assert!(y.eq(&Scalar::from_u128(46)));
    let pi = kzg.open(&poly, &z, &y).unwrap();
    let g1 = kzg.g1_point();
    let y1 = Scalar::from_u128(16);
    let y2 = Scalar::from_u128(30);
    let e1 = g1_mul(&g1, &y1);
    let e2 = g1_mul(&g1, &y2);
    let e_sum = g1_add(&e1, &e2);
    // y1 + y2 == P(z), so the combined encryption passes.
    assert!(kzg.verify_from_encrypted_y(&e_sum, &z, &c, &pi));
    // A third share breaks the equality and must fail.
    let e_bad = g1_add(&e_sum, &e1);
    assert!(!kzg.verify_from_encrypted_y(&e_bad, &z, &c, &pi));
}

#[test]
fn scalar_arithmetic_is_modular() {
    let a = Scalar::from_u128(u128::MAX);
    let b = Scalar::from_u128(u128::MAX);
    let s = Scalar::add(&a, &b);
    let m = Scalar::mul(&a, &b);
    // Sanity on the field: subtraction inverts addition, inverse inverts
    // multiplication.
    let back = Scalar::sub(&s, &b);
    assert!(back.eq(&a));
    let inv = Scalar::inv(&b);
    let one = Scalar::mul(&b, &inv);
    assert!(one.eq(&Scalar::one()));
    let quotient = Scalar::mul(&m, &inv);
    assert!(quotient.eq(&a));
}

#[test]
fn division_remainder_is_evaluation() {
    let poly = Poly::from_u128s(&vec![7, 5, 3]);
    let z = Scalar::from_u128(2);
    let (q, rem) = poly.divide_linear(&z);
    // 7 + 5*2 + 3*4 = 29.
    assert!(rem.eq(&Scalar::from_u128(29)));
    assert_eq!(q.len(), 2);
    // Quotient of (P - P(2)) by (X - 2): evaluate the identity at 10:
    // P(10) - 29 == (10 - 2) * Q(10).
    let x = Scalar::from_u128(10);
    let lhs = Scalar::sub(&poly.eval(&x), &rem);
    let rhs = Scalar::mul(&Scalar::sub(&x, &z), &q.eval(&x));
    assert!(lhs.eq(&rhs));
}
