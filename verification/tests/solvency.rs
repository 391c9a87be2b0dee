use kzg_solvency::field::Scalar;
use kzg_solvency::kzg::{g1_add, g1_generator, g1_mul, g2_generator, KZG};
use kzg_solvency::errors::SolvencyError;
use kzg_solvency::poly::Poly;
use kzg_solvency::protocol::{
    derive_challenge, run_audit_session, run_checkpoint_session, run_inclusion_session,
    verify_inclusion_claim,
};
use kzg_solvency::witness::{generate_witness, select_evaluations, Domain, UserRecord};

fn four_users() -> Vec<UserRecord> {
    vec![
        UserRecord { username: "user0".to_string(), balance: 10 },
        UserRecord { username: "user1".to_string(), balance: 20 },
        UserRecord { username: "user2".to_string(), balance: 30 },
        UserRecord { username: "user3".to_string(), balance: 40 },
    ]
}

#[test]
fn inclusion_session_accepts_user_two() {
    let users = four_users();
    let tau = Scalar::from_u128(73003919);
    let verdict = run_inclusion_session(&users, &tau, 2).unwrap();
    assert!(verdict);
}

#[test]
fn inclusion_replay_with_wrong_balance_rejected() {
    // The prover commits to balances [10, 20, 30, 40]; the verifier
    // checks user 2 against a claimed balance of 31 with the old proof.
    let users = four_users();
    let tau = Scalar::from_u128(73003919);
    let (p_table, _) = generate_witness(&users);
    let domain = Domain::build(p_table.len()).unwrap();
    let elements = domain.elements_vec();
    let mut values = p_table;
    while values.len() < domain.size() {
        values.push(Scalar::from_u128(0));
    }
    let p_poly = Poly::interpolate(&elements, &values).unwrap();
    let mut kzg = KZG::new(g1_generator(), g2_generator(), domain.size() - 1);
    kzg.setup(&tau);
    let c_p = kzg.commit(&p_poly).unwrap();
    let idxs: Vec<usize> = vec![4, 5];
    let l_values = select_evaluations(&idxs, &domain, &p_poly);
    let l_poly = Poly::interpolate(&elements, &l_values).unwrap();
    let pts = vec![domain.element(4), domain.element(5)];
    let pi = kzg.multi_open(&p_poly, &l_poly, &pts).unwrap();
    let z_poly = Poly::vanishing(&pts);
    // The honest claim passes.
    assert!(kzg.verify_multi_open(&c_p, &pi, &z_poly, &l_poly));
    // The same proof replayed against balance 31 must be rejected.
    let mut tampered = dup_scalars(&l_values);
    tampered[5] = Scalar::from_u128(31);
    let l_tampered = Poly::interpolate(&elements, &tampered).unwrap();
    assert!(!kzg.verify_multi_open(&c_p, &pi, &z_poly, &l_tampered));
}

fn dup_scalars(v: &Vec<Scalar>) -> Vec<Scalar> {
    v.iter().map(|s| s.dup()).collect()
}

#[test]
fn true_balance_claim_accepted() {
    let users = four_users();
    let tau = Scalar::from_u128(42424242);
    assert!(verify_inclusion_claim(&users, &tau, 2, 30).is_ok());
}

#[test]
fn wrong_balance_claim_is_verification_failure() {
    let users = four_users();
    let tau = Scalar::from_u128(42424242);
    assert_eq!(
        verify_inclusion_claim(&users, &tau, 2, 31).err(),
        Some(SolvencyError::VerificationFailure)
    );
}

#[test]
fn checkpoint_session_accepts_four_users() {
    let users = four_users();
    let tau = Scalar::from_u128(90125);
    let verdict = run_checkpoint_session(&users, &tau).unwrap();
    assert!(verdict);
}

#[test]
fn corrupted_checkpoint_blocks_proof() {
    // Corrupting one table entry before interpolation makes a checkpoint
    // nonzero; the batch opening must then refuse to emit a proof.
    let users = four_users();
    let tau = Scalar::from_u128(90125);
    let (_, mut i_table) = generate_witness(&users);
    i_table[16] = Scalar::from_u128(999);
    let domain = Domain::build(i_table.len()).unwrap();
    let elements = domain.elements_vec();
    let i_poly = Poly::interpolate(&elements, &i_table).unwrap();
    let mut kzg = KZG::new(g1_generator(), g2_generator(), domain.size() - 1);
    kzg.setup(&tau);
    let pts: Vec<Scalar> = (0..4).map(|k| domain.element(16 * k)).collect();
    let zeros: Vec<Scalar> = (0..domain.size()).map(|_| Scalar::from_u128(0)).collect();
    let l_poly = Poly::from_coeffs(zeros);
    assert_eq!(
        kzg.multi_open(&i_poly, &l_poly, &pts).err(),
        Some(SolvencyError::NonVanishingRemainder)
    );
}

#[test]
fn audit_session_accepts_and_relation_holds() {
    let users = four_users();
    let tau = Scalar::from_u128(31415926);
    let verdict = run_audit_session(&users, &tau).unwrap();
    assert!(verdict);
}

#[test]
fn tampered_audit_entry_breaks_relation() {
    // encrypted(I at 16x+14) must equal encrypted(I at 16x+15) plus
    // encrypted(I at 16x-1); bumping one of the three breaks it.
    let users = four_users();
    let (_, mut i_table) = generate_witness(&users);
    let x = 2usize;
    i_table[16 * x + 15] = Scalar::add(&i_table[16 * x + 15], &Scalar::one());
    let domain = Domain::build(i_table.len()).unwrap();
    let elements = domain.elements_vec();
    let i_poly = Poly::interpolate(&elements, &i_table).unwrap();
    let g1 = g1_generator();
    let y1 = i_poly.eval(&domain.element(16 * x + 14));
    let y2 = i_poly.eval(&domain.element(16 * x + 15));
    let y3 = i_poly.eval(&domain.element(16 * x - 1));
    let e1 = g1_mul(&g1, &y1);
    let e23 = g1_add(&g1_mul(&g1, &y2), &g1_mul(&g1, &y3));
    assert!(!e1.eq(&e23));
}

#[test]
fn untampered_audit_relation_holds_on_encrypted_values() {
    let users = four_users();
    let (_, i_table) = generate_witness(&users);
    let x = 2usize;
    let g1 = g1_generator();
    let e1 = g1_mul(&g1, &i_table[16 * x + 14]);
    let e23 = g1_add(
        &g1_mul(&g1, &i_table[16 * x + 15]),
        &g1_mul(&g1, &i_table[16 * x - 1]),
    );
    assert!(e1.eq(&e23));
}

#[test]
fn witness_checkpoints_are_zero_and_balances_placed() {
    let users = four_users();
    let (p_table, i_table) = generate_witness(&users);
    assert_eq!(p_table.len(), 8);
    assert_eq!(i_table.len(), 64);
    let zero = Scalar::from_u128(0);
    for k in 0..4 {
        assert!(i_table[16 * k].eq(&zero));
        let expected = Scalar::from_u128([10u128, 20, 30, 40][k]);
        assert!(i_table[16 * k + 14].eq(&expected));
        assert!(p_table[2 * k + 1].eq(&expected));
    }
}

#[test]
fn challenge_derivation_is_deterministic_and_in_range() {
    let poly = Poly::from_u128s(&vec![1, 2, 3]);
    let mut kzg = KZG::new(g1_generator(), g2_generator(), 4);
    kzg.setup(&Scalar::from_u128(271828));
    let c = kzg.commit(&poly).unwrap();
    let a = derive_challenge(&c, 7);
    let b = derive_challenge(&c, 7);
    assert_eq!(a, b);
    assert!(a < 7);
}
