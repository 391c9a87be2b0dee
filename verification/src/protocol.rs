//! The prover and verifier protocol over the commitment engine.
//!
//! A session interpolates the witness tables, commits to them, issues
//! per-user inclusion proofs, the global checkpoint proof, and randomized
//! audit openings whose challenge index is rederived from the previous
//! proof's transcript bytes. The verifier recomputes each challenge and
//! rebuilds each claimed-value polynomial itself; any false check rejects
//! the whole session.

use vstd::prelude::*;
use crate::errors::SolvencyError;
use crate::field::Scalar;
use crate::kzg::{g1_generator, g2_generator, G1Point, KZG};
use crate::poly::Poly;
use crate::witness::{generate_witness, select_evaluations, Domain, UserRecord};

verus! {

/// The byte sum of a transcript.
pub open spec fn sum_bytes(s: Seq<u8>) -> int
    decreases s.len(),
{
    if s.len() == 0 {
        0
    } else {
        s[0] + sum_bytes(s.drop_first())
    }
}

/// Derives the next challenge index from the previous proof's transcript
/// bytes, reduced into the user range: a lightweight transcript chain, to
/// be recomputed identically by the verifier.
pub fn derive_challenge(prev: &G1Point, n: usize) -> (r: usize)
    requires
        prev.wf(),
        n >= 1,
    ensures
        (r as int) < n,
        r as int == sum_bytes(prev@) % (n as int),
{
    let bytes = prev.to_bytes();
    let mut acc: u64 = 0;
    let mut i: usize = 0;
    while i < bytes.len()
        invariant
            bytes@.len() <= 32,
            0 <= i <= bytes@.len(),
            acc <= 255 * i,
            acc == sum_bytes(bytes@.take(i as int)),
        decreases bytes@.len() - i,
    {
        proof {
            assert(bytes@.take(i + 1).drop_last() =~= bytes@.take(i as int));
            lemma_sum_bytes_last(bytes@.take(i + 1));
        }
        acc = acc + bytes[i] as u64;
        i += 1;
    }
    proof {
        assert(bytes@.take(bytes@.len() as int) =~= bytes@);
    }
    let r = (acc % (n as u64)) as usize;
    proof {
        assert(n as u64 >= 1);
        assert(acc % (n as u64) < n as u64);
    }
    r
}

/// The byte sum peels its last byte.
pub proof fn lemma_sum_bytes_last(s: Seq<u8>)
    requires
        s.len() >= 1,
    ensures
        sum_bytes(s) == sum_bytes(s.drop_last()) + s.last(),
    decreases s.len(),
{
    if s.len() == 1 {
        assert(s.drop_first().len() == 0);
        assert(s.drop_last().len() == 0);
        assert(sum_bytes(s) == s[0] + sum_bytes(s.drop_first()));
        assert(sum_bytes(s.drop_first()) == 0);
        assert(sum_bytes(s.drop_last()) == 0);
        assert(s.last() == s[0]);
    } else {
        lemma_sum_bytes_last(s.drop_first());
        assert(s.drop_first().drop_last() =~= s.drop_last().drop_first());
        assert(s.drop_first().last() == s.last());
        assert(s.drop_last()[0] == s[0]);
        assert(s.drop_last().len() >= 1);
        assert(sum_bytes(s.drop_last()) == s.drop_last()[0] + sum_bytes(
            s.drop_last().drop_first(),
        ));
        assert(sum_bytes(s) == s[0] + sum_bytes(s.drop_first()));
    }
}

/// What a full prover-and-verifier session needs of its inputs. The user
/// cap comes from the field's two-adic reach: sixteen witness slots per
/// user must fit a power-of-two domain of at most 2^28 elements.
pub open spec fn session_inputs_ok(users: Seq<UserRecord>, user_index: int) -> bool {
    &&& 1 <= users.len()
    &&& users.len() <= 0x0100_0000
    &&& 0 <= user_index < users.len()
}

/// A per-user inclusion session: builds both witness tables, commits to
/// the interpolated `P`, proves that the user's hashed identifier and
/// balance sit at slots `2i` and `2i + 1`, and verifies that proof the
/// way an independent verifier would, rebuilding the claimed-value and
/// vanishing polynomials from scratch. Construction cannot fail on these
/// inputs — every step's success is owed — so the session always returns
/// the verifier's verdict.
pub fn run_inclusion_session(users: &Vec<UserRecord>, tau: &Scalar, user_index: usize) -> (r:
    Result<bool, SolvencyError>)
    requires
        tau.wf(),
        session_inputs_ok(users@, user_index as int),
        users@.len() >= 2,
    ensures
        r is Ok,
{
    let (p_table, _i_table) = generate_witness(users);
    let n2 = p_table.len();
    let domain = match Domain::build(n2) {
        Some(d) => d,
        None => {
            return Err(SolvencyError::DimensionMismatch);
        },
    };
    // Pad the table with zeros up to the domain size.
    let mut values = p_table;
    while values.len() < domain.size()
        invariant
            forall|i: int| 0 <= i < values@.len() ==> (#[trigger] values@[i]).wf(),
            values@.len() <= domain.size_spec(),
            domain.wf(),
        decreases domain.size_spec() - values@.len(),
    {
        values.push(Scalar::zero());
    }
    let elements = domain.elements_vec();
    let p_poly = match Poly::interpolate(&elements, &values) {
        Ok(pl) => pl,
        Err(_) => {
            proof {
                domain.lemma_no_dup(elements@);
                assert(false);
            }
            return Err(SolvencyError::InvalidPointSet);
        },
    };
    let degree = domain.size() - 1;
    let mut kzg = KZG::new(g1_generator(), g2_generator(), degree);
    kzg.setup(tau);
    let c_p = match kzg.commit(&p_poly) {
        Ok(c) => c,
        Err(_) => {
            proof {
                assert(false);
            }
            return Err(SolvencyError::DegreeExceeded);
        },
    };
    // Prover side: the claimed-value polynomial interpolates the two
    // claimed slots and is zero elsewhere.
    let mut idxs: Vec<usize> = Vec::new();
    idxs.push(2 * user_index);
    idxs.push(2 * user_index + 1);
    let l_values = select_evaluations(&idxs, &domain, &p_poly);
    let l_poly = match Poly::interpolate(&elements, &l_values) {
        Ok(pl) => pl,
        Err(_) => {
            proof {
                domain.lemma_no_dup(elements@);
                assert(false);
            }
            return Err(SolvencyError::InvalidPointSet);
        },
    };
    let mut pts: Vec<Scalar> = Vec::new();
    pts.push(domain.element(2 * user_index));
    pts.push(domain.element(2 * user_index + 1));
    proof {
        lemma_two_slots_fine(&domain, &p_poly, &l_poly, &elements@, &idxs@, &l_values@,
            pts@, user_index as int);
    }
    let pi = match kzg.multi_open(&p_poly, &l_poly, &pts) {
        Ok(pr) => pr,
        Err(_) => {
            proof {
                assert(false);
            }
            return Err(SolvencyError::NonVanishingRemainder);
        },
    };
    // Verifier side: the proof arrives as wire bytes; decode it, rebuild
    // the vanishing polynomial, and decide.
    let wire = pi.to_bytes();
    let received = match crate::kzg::g1_from_bytes(&wire) {
        Some(pt) => pt,
        None => {
            proof {
                assert(false);
            }
            return Err(SolvencyError::VerificationFailure);
        },
    };
    let z_poly = Poly::vanishing(&pts);
    Ok(kzg.verify_multi_open(&c_p, &received, &z_poly, &l_poly))
}

/// The two slots of one user give distinct opening points at which the
/// claimed-value polynomial agrees with the committed one.
proof fn lemma_two_slots_fine(
    domain: &Domain,
    p_poly: &Poly,
    l_poly: &Poly,
    elements: &Seq<Scalar>,
    idxs: &Seq<usize>,
    l_values: &Seq<Scalar>,
    pts: Seq<Scalar>,
    ui: int,
)
    requires
        domain.wf(),
        2 * ui + 1 < domain.size_spec(),
        0 <= ui,
        elements.len() == domain.size_spec(),
        forall|i: int| 0 <= i < elements.len() ==> (#[trigger] elements[i])@
            == domain.elem_val(i),
        idxs.len() == 2,
        idxs[0] == 2 * ui,
        idxs[1] == 2 * ui + 1,
        l_values.len() == domain.size_spec(),
        forall|j: int| 0 <= j < l_values.len() && idxs.contains(j as usize) ==> (
        #[trigger] l_values[j])@ == crate::poly::eval_at(p_poly@, domain.elem_val(j)),
        forall|k: int| 0 <= k < elements.len() ==> crate::poly::eval_at(
            l_poly@,
            (#[trigger] elements[k])@,
        ) == l_values[k]@,
        pts.len() == 2,
        pts[0]@ == domain.elem_val(2 * ui),
        pts[1]@ == domain.elem_val(2 * ui + 1),
    ensures
        !crate::poly::has_dup(crate::poly::vals_of(pts)),
        forall|t: int| 0 <= t < pts.len() ==> crate::poly::eval_at(
            p_poly@,
            (#[trigger] pts[t])@,
        ) == crate::poly::eval_at(l_poly@, pts[t]@),
{
    assert(idxs.contains((2 * ui) as usize)) by {
        assert(idxs[0] == (2 * ui) as usize);
    }
    assert(idxs.contains((2 * ui + 1) as usize)) by {
        assert(idxs[1] == (2 * ui + 1) as usize);
    }
    assert forall|t: int| 0 <= t < pts.len() implies crate::poly::eval_at(
        p_poly@,
        (#[trigger] pts[t])@,
    ) == crate::poly::eval_at(l_poly@, pts[t]@) by {
        let slot: int = if t == 0 { 2 * ui } else { 2 * ui + 1 };
        assert(pts[t]@ == domain.elem_val(slot));
        assert(elements[slot]@ == domain.elem_val(slot));
        assert(crate::poly::eval_at(l_poly@, elements[slot]@) == l_values[slot]@);
        assert(l_values[slot]@ == crate::poly::eval_at(p_poly@, domain.elem_val(slot)));
    }
    if crate::poly::has_dup(crate::poly::vals_of(pts)) {
        let (a, b): (int, int) = choose|a: int, b: int|
            0 <= a < crate::poly::vals_of(pts).len() && 0 <= b < crate::poly::vals_of(
                pts,
            ).len() && a != b && crate::poly::vals_of(pts)[a] == crate::poly::vals_of(
                pts,
            )[b];
        assert(crate::poly::vals_of(pts)[a] == pts[a]@);
        assert(crate::poly::vals_of(pts)[b] == pts[b]@);
        assert(pts[0]@ != pts[1]@) by {
            domain.lemma_elem_distinct(2 * ui, 2 * ui + 1);
        }
        assert(false);
    }
}

/// Scenario of a user checking their own inclusion: the prover opens the
/// committed `P` at the user's two slots, and the verifier rebuilds the
/// claimed-value polynomial from the identifier and the balance the user
/// believes they hold. A claim that differs from the committed pair is
/// rejected as a verification failure, never accepted; no other outcome
/// is possible, as the construction itself cannot fail.
pub fn verify_inclusion_claim(
    users: &Vec<UserRecord>,
    tau: &Scalar,
    user_index: usize,
    claimed_balance: u64,
) -> (r: Result<(), SolvencyError>)
    requires
        tau.wf(),
        session_inputs_ok(users@, user_index as int),
        users@.len() >= 2,
    ensures
        r is Ok || r == Err::<(), SolvencyError>(SolvencyError::VerificationFailure),
{
    let (p_table, _i_table) = generate_witness(users);
    let n2 = p_table.len();
    let domain = match Domain::build(n2) {
        Some(d) => d,
        None => {
            return Err(SolvencyError::VerificationFailure);
        },
    };
    let mut values = p_table;
    while values.len() < domain.size()
        invariant
            forall|i: int| 0 <= i < values@.len() ==> (#[trigger] values@[i]).wf(),
            values@.len() <= domain.size_spec(),
            domain.wf(),
        decreases domain.size_spec() - values@.len(),
    {
        values.push(Scalar::zero());
    }
    let elements = domain.elements_vec();
    let p_poly = match Poly::interpolate(&elements, &values) {
        Ok(pl) => pl,
        Err(_) => {
            proof {
                domain.lemma_no_dup(elements@);
                assert(false);
            }
            return Err(SolvencyError::VerificationFailure);
        },
    };
    let degree = domain.size() - 1;
    let mut kzg = KZG::new(g1_generator(), g2_generator(), degree);
    kzg.setup(tau);
    let c_p = match kzg.commit(&p_poly) {
        Ok(c) => c,
        Err(_) => {
            proof {
                assert(false);
            }
            return Err(SolvencyError::VerificationFailure);
        },
    };
    // Prover side: open the committed table at the user's two slots.
    let mut idxs: Vec<usize> = Vec::new();
    idxs.push(2 * user_index);
    idxs.push(2 * user_index + 1);
    let l_values = select_evaluations(&idxs, &domain, &p_poly);
    let l_poly = match Poly::interpolate(&elements, &l_values) {
        Ok(pl) => pl,
        Err(_) => {
            proof {
                domain.lemma_no_dup(elements@);
                assert(false);
            }
            return Err(SolvencyError::VerificationFailure);
        },
    };
    let mut pts: Vec<Scalar> = Vec::new();
    pts.push(domain.element(2 * user_index));
    pts.push(domain.element(2 * user_index + 1));
    proof {
        lemma_two_slots_fine(&domain, &p_poly, &l_poly, &elements@, &idxs@, &l_values@,
            pts@, user_index as int);
    }
    if pts.len() + 1 > p_poly.len() || l_poly.len() > p_poly.len() {
        proof {
            assert(false);
        }
        return Err(SolvencyError::VerificationFailure);
    }
    let pi = match kzg.multi_open(&p_poly, &l_poly, &pts) {
        Ok(pr) => pr,
        Err(_) => {
            proof {
                assert(false);
            }
            return Err(SolvencyError::VerificationFailure);
        },
    };
    // Verifier side: the claimed pair is the hashed identifier and the
    // balance the user asserts, placed at the user's slots.
    let mut claim_table: Vec<Scalar> = Vec::new();
    let mut j: usize = 0;
    while j < domain.size()
        invariant
            domain.wf(),
            session_inputs_ok(users@, user_index as int),
            2 * user_index + 1 < domain.size_spec(),
            0 <= j <= domain.size_spec(),
            claim_table@.len() == j,
            forall|t: int| 0 <= t < j ==> (#[trigger] claim_table@[t]).wf(),
        decreases domain.size_spec() - j,
    {
        if j == 2 * user_index {
            claim_table.push(crate::witness::hash_identifier(&users[user_index].username));
        } else if j == 2 * user_index + 1 {
            claim_table.push(Scalar::from_u128(claimed_balance as u128));
        } else {
            claim_table.push(Scalar::zero());
        }
        j += 1;
    }
    let l_claim = match Poly::interpolate(&elements, &claim_table) {
        Ok(pl) => pl,
        Err(_) => {
            proof {
                domain.lemma_no_dup(elements@);
                assert(false);
            }
            return Err(SolvencyError::VerificationFailure);
        },
    };
    let z_poly = Poly::vanishing(&pts);
    if kzg.verify_multi_open(&c_p, &pi, &z_poly, &l_claim) {
        Ok(())
    } else {
        Err(SolvencyError::VerificationFailure)
    }
}

/// The global consistency session: commits to the interpolated `I` and
/// proves in one batch that it vanishes at every stride-16 checkpoint,
/// then verifies that proof. The claimed-value polynomial is the zero
/// polynomial, as every checkpoint must hold the additive identity; the
/// witness layout makes every checkpoint zero, so construction cannot
/// fail and the session always returns the verifier's verdict.
pub fn run_checkpoint_session(users: &Vec<UserRecord>, tau: &Scalar) -> (r: Result<
    bool,
    SolvencyError,
>)
    requires
        tau.wf(),
        session_inputs_ok(users@, 0),
    ensures
        r is Ok,
{
    let (_p_table, i_table) = generate_witness(users);
    let ghost orig = i_table@;
    let n16 = i_table.len();
    let domain = match Domain::build(n16) {
        Some(d) => d,
        None => {
            return Err(SolvencyError::DimensionMismatch);
        },
    };
    let mut values = i_table;
    while values.len() < domain.size()
        invariant
            forall|i: int| 0 <= i < values@.len() ==> (#[trigger] values@[i]).wf(),
            orig.len() <= values@.len() <= domain.size_spec(),
            forall|i: int| 0 <= i < orig.len() ==> #[trigger] values@[i] == orig[i],
            domain.wf(),
        decreases domain.size_spec() - values@.len(),
    {
        values.push(Scalar::zero());
    }
    let elements = domain.elements_vec();
    let i_poly = match Poly::interpolate(&elements, &values) {
        Ok(pl) => pl,
        Err(_) => {
            proof {
                domain.lemma_no_dup(elements@);
                assert(false);
            }
            return Err(SolvencyError::InvalidPointSet);
        },
    };
    let degree = domain.size() - 1;
    let mut kzg = KZG::new(g1_generator(), g2_generator(), degree);
    kzg.setup(tau);
    let c_i = match kzg.commit(&i_poly) {
        Ok(c) => c,
        Err(_) => {
            proof {
                assert(false);
            }
            return Err(SolvencyError::DegreeExceeded);
        },
    };
    // The checkpoints: every 16th element of the domain, one per user.
    let n = users.len();
    let mut pts: Vec<Scalar> = Vec::new();
    let mut k: usize = 0;
    while k < n
        invariant
            domain.wf(),
            n <= 0x0100_0000,
            16 * n <= domain.size_spec(),
            0 <= k <= n,
            pts@.len() == k,
            forall|t: int| 0 <= t < k ==> (#[trigger] pts@[t]).wf(),
            forall|t: int| 0 <= t < k ==> (#[trigger] pts@[t])@ == domain.elem_val(16 * t),
        decreases n - k,
    {
        pts.push(domain.element(16 * k));
        k += 1;
    }
    // The zero claimed-value polynomial of matching length.
    let mut zeros: Vec<Scalar> = Vec::new();
    let mut z: usize = 0;
    while z < domain.size()
        invariant
            domain.wf(),
            0 <= z <= domain.size_spec(),
            zeros@.len() == z,
            forall|t: int| 0 <= t < z ==> (#[trigger] zeros@[t]).wf(),
            forall|t: int| 0 <= t < z ==> (#[trigger] zeros@[t])@ == 0,
        decreases domain.size_spec() - z,
    {
        zeros.push(Scalar::zero());
        z += 1;
    }
    let l_poly = Poly::from_coeffs(zeros);
    proof {
        // The zero claimed-value polynomial evaluates to zero everywhere,
        // and the witness layout puts zero at every checkpoint, so the
        // batch opening is owed.
        assert forall|t: int| 0 <= t < l_poly@.len() implies #[trigger] l_poly@[t]
            == 0 by {
            assert(l_poly@[t] == zeros@[t]@);
        }
        assert forall|t: int| 0 <= t < pts@.len() implies crate::poly::eval_at(
            i_poly@,
            (#[trigger] pts@[t])@,
        ) == crate::poly::eval_at(l_poly@, pts@[t]@) by {
            crate::poly::lemma_eval_all_zero(l_poly@, pts@[t]@);
            assert(elements@[16 * t]@ == domain.elem_val(16 * t));
            assert(crate::poly::eval_at(i_poly@, elements@[16 * t]@) == values@[16 * t]@);
            assert(values@[16 * t] == orig[16 * t]);
            assert(orig[16 * t]@ == 0);
            crate::poly::lemma_eval_all_zero(Seq::<int>::empty(), 0);
        }
        if crate::poly::has_dup(crate::poly::vals_of(pts@)) {
            let (a, b): (int, int) = choose|a: int, b: int|
                0 <= a < crate::poly::vals_of(pts@).len() && 0 <= b < crate::poly::vals_of(
                    pts@,
                ).len() && a != b && crate::poly::vals_of(pts@)[a] == crate::poly::vals_of(
                    pts@,
                )[b];
            assert(crate::poly::vals_of(pts@)[a] == pts@[a]@);
            assert(crate::poly::vals_of(pts@)[b] == pts@[b]@);
            if a < b {
                domain.lemma_elem_distinct(16 * a, 16 * b);
            } else {
                domain.lemma_elem_distinct(16 * b, 16 * a);
            }
            assert(false);
        }
    }
    if pts.len() + 1 > i_poly.len() || l_poly.len() > i_poly.len() {
        proof {
            assert(false);
        }
        return Err(SolvencyError::DimensionMismatch);
    }
    let pi = match kzg.multi_open(&i_poly, &l_poly, &pts) {
        Ok(pr) => pr,
        Err(_) => {
            proof {
                assert(false);
            }
            return Err(SolvencyError::NonVanishingRemainder);
        },
    };
    let z_poly = Poly::vanishing(&pts);
    Ok(kzg.verify_multi_open(&c_i, &pi, &z_poly, &l_poly))
}

/// One randomized audit round: opens `I` at the three audit slots of the
/// challenged block, hands out the encrypted evaluations, verifies each
/// opening against the commitment without ever seeing a plain value, and
/// checks the linear audit relation directly on the encrypted points.
/// The challenge for the next round would be rederived from this proof's
/// bytes by both sides. The openings are of true evaluations, so their
/// emission is owed and the session always returns a verdict.
pub fn run_audit_session(users: &Vec<UserRecord>, tau: &Scalar) -> (r: Result<
    bool,
    SolvencyError,
>)
    requires
        tau.wf(),
        session_inputs_ok(users@, 0),
        users@.len() >= 2,
    ensures
        r is Ok,
{
    let (p_table, i_table) = generate_witness(users);
    let n16 = i_table.len();
    let domain = match Domain::build(n16) {
        Some(d) => d,
        None => {
            return Err(SolvencyError::DimensionMismatch);
        },
    };
    let mut values = i_table;
    while values.len() < domain.size()
        invariant
            forall|i: int| 0 <= i < values@.len() ==> (#[trigger] values@[i]).wf(),
            values@.len() <= domain.size_spec(),
            domain.wf(),
        decreases domain.size_spec() - values@.len(),
    {
        values.push(Scalar::zero());
    }
    let elements = domain.elements_vec();
    let i_poly = match Poly::interpolate(&elements, &values) {
        Ok(pl) => pl,
        Err(_) => {
            proof {
                domain.lemma_no_dup(elements@);
                assert(false);
            }
            return Err(SolvencyError::InvalidPointSet);
        },
    };
    let degree = domain.size() - 1;
    let mut kzg = KZG::new(g1_generator(), g2_generator(), degree);
    kzg.setup(tau);
    let c_i = match kzg.commit(&i_poly) {
        Ok(c) => c,
        Err(_) => {
            proof {
                assert(false);
            }
            return Err(SolvencyError::DegreeExceeded);
        },
    };
    // The challenged block: derived from the commitment's transcript
    // bytes, and kept away from the first block so that the previous
    // block's closing slot exists. The verifier rederives it identically.
    let n = users.len();
    let seed = derive_challenge(&c_i, n - 1);
    let x = 1 + seed;
    proof {
        assert(x >= 1);
        assert(16 * x + 15 < 16 * n);
    }
    let z1 = domain.element(16 * x + 14);
    let z2 = domain.element(16 * x + 15);
    let z3 = domain.element(16 * x - 1);
    let y1 = i_poly.eval(&z1);
    let y2 = i_poly.eval(&z2);
    let y3 = i_poly.eval(&z3);
    let pi1 = match kzg.open(&i_poly, &z1, &y1) {
        Ok(pr) => pr,
        Err(_) => {
            proof {
                assert(false);
            }
            return Err(SolvencyError::NonVanishingRemainder);
        },
    };
    let pi2 = match kzg.open(&i_poly, &z2, &y2) {
        Ok(pr) => pr,
        Err(_) => {
            proof {
                assert(false);
            }
            return Err(SolvencyError::NonVanishingRemainder);
        },
    };
    let pi3 = match kzg.open(&i_poly, &z3, &y3) {
        Ok(pr) => pr,
        Err(_) => {
            proof {
                assert(false);
            }
            return Err(SolvencyError::NonVanishingRemainder);
        },
    };
    let e1 = crate::kzg::g1_mul(&kzg_base(&kzg), &y1);
    let e2 = crate::kzg::g1_mul(&kzg_base(&kzg), &y2);
    let e3 = crate::kzg::g1_mul(&kzg_base(&kzg), &y3);
    let ok1 = kzg.verify_from_encrypted_y(&e1, &z1, &c_i, &pi1);
    let ok2 = kzg.verify_from_encrypted_y(&e2, &z2, &c_i, &pi2);
    let ok3 = kzg.verify_from_encrypted_y(&e3, &z3, &c_i, &pi3);
    // The audit relation, checked homomorphically on encrypted values.
    let sum_e = crate::kzg::g1_add(&e2, &e3);
    let relation = e1.eq(&sum_e);
    // The cross-table check: the same encrypted balance must also open
    // `P` at the challenged user's balance slot of P's own domain.
    let p_domain = match Domain::build(p_table.len()) {
        Some(d) => d,
        None => {
            return Err(SolvencyError::DimensionMismatch);
        },
    };
    let mut p_values = p_table;
    while p_values.len() < p_domain.size()
        invariant
            forall|i: int| 0 <= i < p_values@.len() ==> (#[trigger] p_values@[i]).wf(),
            p_values@.len() <= p_domain.size_spec(),
            p_domain.wf(),
        decreases p_domain.size_spec() - p_values@.len(),
    {
        p_values.push(Scalar::zero());
    }
    let p_elements = p_domain.elements_vec();
    let p_poly = match Poly::interpolate(&p_elements, &p_values) {
        Ok(pl) => pl,
        Err(_) => {
            proof {
                p_domain.lemma_no_dup(p_elements@);
                assert(false);
            }
            return Err(SolvencyError::InvalidPointSet);
        },
    };
    let c_p = match kzg.commit(&p_poly) {
        Ok(c) => c,
        Err(_) => {
            proof {
                assert(false);
            }
            return Err(SolvencyError::DegreeExceeded);
        },
    };
    let zp = p_domain.element(2 * x + 1);
    let yp = p_poly.eval(&zp);
    let pip = match kzg.open(&p_poly, &zp, &yp) {
        Ok(pr) => pr,
        Err(_) => {
            proof {
                assert(false);
            }
            return Err(SolvencyError::NonVanishingRemainder);
        },
    };
    let okp = kzg.verify_from_encrypted_y(&e1, &zp, &c_p, &pip);
    Ok(ok1 && ok2 && ok3 && relation && okp)
}

/// The engine's cheap-group base point, for encrypting evaluations.
fn kzg_base(k: &KZG) -> (r: G1Point)
    requires
        k.wf(),
    ensures
        r.wf(),
        r@ == k.g1_view(),
{
    k.g1_point()
}

} // verus!
