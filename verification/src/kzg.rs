//! The KZG-style polynomial commitment engine.
//!
//! A commitment is one point of the cheap curve group; an opening proof is
//! the commitment to a quotient polynomial; verification is a pairing
//! equation. Points are carried as their canonical compressed encodings;
//! the curve arithmetic itself is the audited outside implementation,
//! reached through trusted wrappers whose results are named, uninterpreted
//! functions of the encodings and scalar values involved.

use vstd::prelude::*;
use ark_serialize::CanonicalDeserialize;
use ark_serialize::CanonicalSerialize;
use crate::errors::SolvencyError;
use crate::field::{p, pow_mod, Scalar, lemma_scalar_wf_range};
use crate::merkle::vec_u8_eq;
use crate::poly::{
    eval_at, has_dup, lemma_cancel_invertible, lemma_eval_bound, lemma_eval_sub,
    lemma_inv_product, lemma_mod_diff_zero, lemma_prod_vanish, prod_linear, vals_of, Poly,
};
use vstd::arithmetic::div_mod::{
    lemma_mul_mod_noop_general, lemma_small_mod,
};

verus! {

broadcast use lemma_scalar_wf_range;

/// Whether 32 bytes decode to a point of the cheap group: what
/// deserialization's success reports.
pub uninterp spec fn g1_ok(b: Seq<u8>) -> bool;

/// Whether 64 bytes decode to a point of the paired group.
pub uninterp spec fn g2_ok(b: Seq<u8>) -> bool;

/// The encoding of the sum of two cheap-group points.
pub uninterp spec fn g1_sum(a: Seq<u8>, b: Seq<u8>) -> Seq<u8>;

/// The encoding of a cheap-group point multiplied by the scalar of value `k`.
pub uninterp spec fn g1_scale(pt: Seq<u8>, k: int) -> Seq<u8>;

/// The encoding of the negation of a cheap-group point.
pub uninterp spec fn g1_neg_of(pt: Seq<u8>) -> Seq<u8>;

/// The encoding of the sum of two paired-group points.
pub uninterp spec fn g2_sum(a: Seq<u8>, b: Seq<u8>) -> Seq<u8>;

/// The encoding of a paired-group point multiplied by the scalar of value `k`.
pub uninterp spec fn g2_scale(pt: Seq<u8>, k: int) -> Seq<u8>;

/// The encoding of the pairing of a cheap-group and a paired-group point.
pub uninterp spec fn pair_of(a: Seq<u8>, b: Seq<u8>) -> Seq<u8>;

/// A point of the cheap group: commitments, proofs and encrypted
/// evaluations, as 32 canonical compressed bytes.
#[derive(Debug)]
pub struct G1Point {
    bytes: Vec<u8>,
}

impl View for G1Point {
    type V = Seq<u8>;

    closed spec fn view(&self) -> Seq<u8> {
        self.bytes@
    }
}

impl G1Point {
    /// A decodable canonical encoding.
    pub open spec fn wf(&self) -> bool {
        self@.len() == 32 && g1_ok(self@)
    }

    /// An explicit copy.
    pub fn dup(&self) -> (r: G1Point)
        ensures
            r@ == self@,
    {
        let mut b: Vec<u8> = Vec::new();
        let mut i: usize = 0;
        while i < self.bytes.len()
            invariant
                0 <= i <= self.bytes@.len(),
                b@.len() == i,
                forall|j: int| 0 <= j < i ==> b@[j] == self.bytes@[j],
            decreases self.bytes@.len() - i,
        {
            b.push(self.bytes[i]);
            i += 1;
        }
        proof {
            assert(b@ =~= self.bytes@);
        }
        G1Point { bytes: b }
    }

    /// The wire encoding.
    pub fn to_bytes(&self) -> (r: Vec<u8>)
        ensures
            r@ == self@,
    {
        self.dup().bytes
    }

    /// Equality of canonical encodings, hence of points.
    pub fn eq(&self, other: &G1Point) -> (r: bool)
        ensures
            r == (self@ == other@),
    {
        vec_u8_eq(&self.bytes, &other.bytes)
    }
}

/// A point of the paired group, as 64 canonical compressed bytes.
#[derive(Debug)]
pub struct G2Point {
    bytes: Vec<u8>,
}

impl View for G2Point {
    type V = Seq<u8>;

    closed spec fn view(&self) -> Seq<u8> {
        self.bytes@
    }
}

impl G2Point {
    /// A decodable canonical encoding.
    pub open spec fn wf(&self) -> bool {
        self@.len() == 64 && g2_ok(self@)
    }

    /// An explicit copy.
    pub fn dup(&self) -> (r: G2Point)
        ensures
            r@ == self@,
    {
        let mut b: Vec<u8> = Vec::new();
        let mut i: usize = 0;
        while i < self.bytes.len()
            invariant
                0 <= i <= self.bytes@.len(),
                b@.len() == i,
                forall|j: int| 0 <= j < i ==> b@[j] == self.bytes@[j],
            decreases self.bytes@.len() - i,
        {
            b.push(self.bytes[i]);
            i += 1;
        }
        proof {
            assert(b@ =~= self.bytes@);
        }
        G2Point { bytes: b }
    }
}

/// Relies on `ark_ec::PrimeGroup::generator` and the canonical compressed
/// serialization of `ark_bn254::G1Projective`: a fixed valid point.
#[verifier::external_body]
pub fn g1_generator() -> (r: G1Point)
    ensures
        r.wf(),
{
    let g = <ark_bn254::G1Projective as ark_ec::PrimeGroup>::generator();
    let mut out: Vec<u8> = Vec::new();
    g.serialize_compressed(&mut out).unwrap();
    G1Point { bytes: out }
}

/// Relies on `ark_ec::PrimeGroup::generator` for `ark_bn254::G2Projective`
/// and its canonical compressed serialization: a fixed decodable point.
#[verifier::external_body]
pub fn g2_generator() -> (r: G2Point)
    ensures
        r.wf(),
        r@.len() == 64 && g2_ok(r@),
{
    let g = <ark_bn254::G2Projective as ark_ec::PrimeGroup>::generator();
    let mut out: Vec<u8> = Vec::new();
    g.serialize_compressed(&mut out).unwrap();
    G2Point { bytes: out }
}

/// Relies on group addition of `ark_bn254::G1Projective` and its canonical
/// (de)serialization: the result depends on the operand encodings alone.
#[verifier::external_body]
pub fn g1_add(a: &G1Point, b: &G1Point) -> (r: G1Point)
    requires
        a.wf(),
        b.wf(),
    ensures
        r.wf(),
        r@ == g1_sum(a@, b@),
{
    let x = ark_bn254::G1Affine::deserialize_compressed(&a.bytes[..]).unwrap();
    let y = ark_bn254::G1Affine::deserialize_compressed(&b.bytes[..]).unwrap();
    let s: ark_bn254::G1Projective = x + y;
    let mut out: Vec<u8> = Vec::new();
    s.serialize_compressed(&mut out).unwrap();
    G1Point { bytes: out }
}

/// Relies on scalar multiplication of `ark_bn254::G1Projective`: the
/// result depends on the point encoding and the scalar's value alone.
#[verifier::external_body]
pub fn g1_mul(pt: &G1Point, s: &Scalar) -> (r: G1Point)
    requires
        pt.wf(),
        s.wf(),
    ensures
        r.wf(),
        r@ == g1_scale(pt@, s@),
{
    let x = ark_bn254::G1Affine::deserialize_compressed(&pt.bytes[..]).unwrap();
    let k = ark_bn254::Fr::deserialize_compressed(&s.to_le_bytes()[..]).unwrap();
    let m: ark_bn254::G1Projective = x * k;
    let mut out: Vec<u8> = Vec::new();
    m.serialize_compressed(&mut out).unwrap();
    G1Point { bytes: out }
}

/// Relies on group negation of `ark_bn254::G1Projective`.
#[verifier::external_body]
pub fn g1_neg(pt: &G1Point) -> (r: G1Point)
    requires
        pt.wf(),
    ensures
        r.wf(),
        r@ == g1_neg_of(pt@),
{
    let x = ark_bn254::G1Affine::deserialize_compressed(&pt.bytes[..]).unwrap();
    let m: ark_bn254::G1Projective = -(ark_bn254::G1Projective::from(x));
    let mut out: Vec<u8> = Vec::new();
    m.serialize_compressed(&mut out).unwrap();
    G1Point { bytes: out }
}

/// Relies on `ark_bn254::G1Affine::deserialize_compressed`: it succeeds
/// exactly on the 32-byte encodings the deserializer accepts — decodable
/// curve points, including the non-canonical infinity encodings it
/// tolerates, whose bytes then differ from the canonical identity.
#[verifier::external_body]
pub fn g1_from_bytes(b: &Vec<u8>) -> (r: Option<G1Point>)
    ensures
        (r is Some) <==> (b@.len() == 32 && g1_ok(b@)),
        r matches Some(pt) ==> pt.wf() && pt@ == b@,
{
    if b.len() != 32 {
        return None;
    }
    match ark_bn254::G1Affine::deserialize_compressed(&b[..]) {
        Ok(_) => Some(G1Point { bytes: b.clone() }),
        Err(_) => None,
    }
}

/// Relies on group addition of `ark_bn254::G2Projective`.
#[verifier::external_body]
pub fn g2_add(a: &G2Point, b: &G2Point) -> (r: G2Point)
    requires
        a.wf(),
        b.wf(),
    ensures
        r.wf(),
        r@ == g2_sum(a@, b@),
{
    let x = ark_bn254::G2Affine::deserialize_compressed(&a.bytes[..]).unwrap();
    let y = ark_bn254::G2Affine::deserialize_compressed(&b.bytes[..]).unwrap();
    let s: ark_bn254::G2Projective = x + y;
    let mut out: Vec<u8> = Vec::new();
    s.serialize_compressed(&mut out).unwrap();
    G2Point { bytes: out }
}

/// Relies on scalar multiplication of `ark_bn254::G2Projective`.
#[verifier::external_body]
pub fn g2_mul(pt: &G2Point, s: &Scalar) -> (r: G2Point)
    requires
        pt.wf(),
        s.wf(),
    ensures
        r.wf(),
        r@ == g2_scale(pt@, s@),
{
    let x = ark_bn254::G2Affine::deserialize_compressed(&pt.bytes[..]).unwrap();
    let k = ark_bn254::Fr::deserialize_compressed(&s.to_le_bytes()[..]).unwrap();
    let m: ark_bn254::G2Projective = x * k;
    let mut out: Vec<u8> = Vec::new();
    m.serialize_compressed(&mut out).unwrap();
    G2Point { bytes: out }
}

/// Relies on `ark_ec::pairing::Pairing::pairing` for the chosen curve:
/// the two pairings are computed and their outputs compared.
#[verifier::external_body]
pub fn pairing_check(a1: &G1Point, b1: &G2Point, a2: &G1Point, b2: &G2Point) -> (r: bool)
    requires
        a1.wf(),
        b1.wf(),
        a2.wf(),
        b2.wf(),
    ensures
        r == (pair_of(a1@, b1@) == pair_of(a2@, b2@)),
{
    let x1 = ark_bn254::G1Affine::deserialize_compressed(&a1.bytes[..]).unwrap();
    let y1 = ark_bn254::G2Affine::deserialize_compressed(&b1.bytes[..]).unwrap();
    let x2 = ark_bn254::G1Affine::deserialize_compressed(&a2.bytes[..]).unwrap();
    let y2 = ark_bn254::G2Affine::deserialize_compressed(&b2.bytes[..]).unwrap();
    let l = <ark_bn254::Bn254 as ark_ec::pairing::Pairing>::pairing(x1, y1);
    let r2 = <ark_bn254::Bn254 as ark_ec::pairing::Pairing>::pairing(x2, y2);
    l == r2
}

/// The multi-scalar fold the commitment computes: the first `k` SRS
/// points, each scaled by the matching coefficient, summed left to right.
pub open spec fn msm1(crs: Seq<Seq<u8>>, cs: Seq<int>, k: int) -> Seq<u8>
    decreases k,
{
    if k <= 1 {
        g1_scale(crs[0], if cs.len() > 0 { cs[0] } else { 0 })
    } else {
        g1_sum(msm1(crs, cs, k - 1), g1_scale(crs[k - 1], cs[k - 1]))
    }
}

/// The same fold in the paired group.
pub open spec fn msm2(crs: Seq<Seq<u8>>, cs: Seq<int>, k: int) -> Seq<u8>
    decreases k,
{
    if k <= 1 {
        g2_scale(crs[0], if cs.len() > 0 { cs[0] } else { 0 })
    } else {
        g2_sum(msm2(crs, cs, k - 1), g2_scale(crs[k - 1], cs[k - 1]))
    }
}

/// The commitment engine: generators, the degree bound, and the
/// structured reference string derived once from the setup secret.
#[derive(Debug)]
pub struct KZG {
    g1: G1Point,
    g2: G2Point,
    degree: usize,
    crs_g1: Vec<G1Point>,
    crs_g2: Vec<G2Point>,
}

impl KZG {
    /// The cheap-group SRS as encodings.
    pub closed spec fn crs1(&self) -> Seq<Seq<u8>> {
        self.crs_g1@.map_values(|pt: G1Point| pt@)
    }

    /// The paired-group SRS as encodings.
    pub closed spec fn crs2(&self) -> Seq<Seq<u8>> {
        self.crs_g2@.map_values(|pt: G2Point| pt@)
    }

    pub closed spec fn g1_view(&self) -> Seq<u8> {
        self.g1@
    }

    pub closed spec fn g2_view(&self) -> Seq<u8> {
        self.g2@
    }

    pub closed spec fn degree_bound(&self) -> int {
        self.degree as int
    }

    /// The SRS holds the generators raised to the powers of the setup
    /// secret `t`, in both groups.
    pub closed spec fn srs_matches(&self, t: int) -> bool {
        &&& forall|i: int| 0 <= i < self.crs1().len() ==> #[trigger] self.crs1()[i]
            == g1_scale(self.g1@, pow_mod(t, i as nat))
        &&& forall|i: int| 0 <= i < self.crs2().len() ==> #[trigger] self.crs2()[i]
            == g2_scale(self.g2@, pow_mod(t, i as nat))
    }

    /// A usable engine: valid generators and a full SRS derived from some
    /// secret, which the engine itself does not retain.
    pub closed spec fn wf(&self) -> bool {
        &&& self.g1.wf()
        &&& self.g2.wf()
        &&& self.crs_g1@.len() == self.degree + 1
        &&& self.crs_g2@.len() == self.degree + 1
        &&& self.degree >= 1
        &&& self.degree < usize::MAX
        &&& forall|i: int| 0 <= i < self.crs_g1@.len() ==> (#[trigger] self.crs_g1@[i]).wf()
        &&& forall|i: int| 0 <= i < self.crs_g2@.len() ==> (#[trigger] self.crs_g2@[i]).wf()
        &&& exists|t: int| self.srs_matches(t)
    }

    /// The cheap-group base point, copied out.
    pub fn g1_point(&self) -> (r: G1Point)
        requires
            self.wf(),
        ensures
            r.wf(),
            r@ == self.g1_view(),
    {
        self.g1.dup()
    }

    /// A fresh engine with an empty SRS; `setup` must run before use.
    pub fn new(g1: G1Point, g2: G2Point, degree: usize) -> (r: KZG)
        requires
            g1.wf(),
            g2.wf(),
            degree >= 1,
            degree < usize::MAX,
        ensures
            r.g1_view() == g1@,
            r.g2_view() == g2@,
            r.degree_bound() == degree,
            r.ready() == false,
            r.base_ok(),
    {
        KZG { g1, g2, degree, crs_g1: Vec::new(), crs_g2: Vec::new() }
    }

    /// Valid generators and a sane degree bound.
    pub closed spec fn base_ok(&self) -> bool {
        self.g1.wf() && self.g2.wf() && self.degree >= 1 && self.degree < usize::MAX
    }

    /// Whether the SRS has been derived.
    pub closed spec fn ready(&self) -> bool {
        self.crs_g1@.len() > 0
    }

    /// One-time trusted setup: derives the SRS as the powers of `tau`
    /// against both generators. `tau` must be discarded by its holder
    /// afterwards; the engine keeps only the derived points.
    pub fn setup(&mut self, tau: &Scalar)
        requires
            old(self).base_ok(),
            tau.wf(),
        ensures
            final(self).wf(),
            final(self).g1_view() == old(self).g1_view(),
            final(self).g2_view() == old(self).g2_view(),
            final(self).degree_bound() == old(self).degree_bound(),
            final(self).srs_matches(tau@),
    {
        let d = self.degree;
        let mut crs1: Vec<G1Point> = Vec::new();
        let mut crs2: Vec<G2Point> = Vec::new();
        let mut cur = Scalar::one();
        let mut i: usize = 0;
        proof {
            assert(pow_mod(tau@, 0) == 1);
        }
        while i <= d
            invariant
                self.base_ok(),
                tau.wf(),
                d == self.degree,
                d < usize::MAX,
                0 <= i <= d + 1,
                cur.wf(),
                cur@ == pow_mod(tau@, i as nat),
                crs1@.len() == i,
                crs2@.len() == i,
                forall|j: int| 0 <= j < i ==> (#[trigger] crs1@[j]).wf(),
                forall|j: int| 0 <= j < i ==> (#[trigger] crs2@[j]).wf(),
                forall|j: int| 0 <= j < i ==> (#[trigger] crs1@[j])@ == g1_scale(
                    self.g1@,
                    pow_mod(tau@, j as nat),
                ),
                forall|j: int| 0 <= j < i ==> (#[trigger] crs2@[j])@ == g2_scale(
                    self.g2@,
                    pow_mod(tau@, j as nat),
                ),
            decreases d + 1 - i,
        {
            crs1.push(g1_mul(&self.g1, &cur));
            crs2.push(g2_mul(&self.g2, &cur));
            let next = Scalar::mul(&cur, tau);
            proof {
                assert(pow_mod(tau@, (i + 1) as nat) == (tau@ * pow_mod(tau@, i as nat))
                    % p());
                assert(cur@ * tau@ == tau@ * cur@) by (nonlinear_arith);
            }
            cur = next;
            i += 1;
        }
        self.crs_g1 = crs1;
        self.crs_g2 = crs2;
        proof {
            assert forall|j: int| 0 <= j < self.crs1().len() implies #[trigger] self.crs1()[j]
                == g1_scale(self.g1@, pow_mod(tau@, j as nat)) by {
                assert(self.crs1()[j] == self.crs_g1@[j]@);
            }
            assert forall|j: int| 0 <= j < self.crs2().len() implies #[trigger] self.crs2()[j]
                == g2_scale(self.g2@, pow_mod(tau@, j as nat)) by {
                assert(self.crs2()[j] == self.crs_g2@[j]@);
            }
            assert(self.srs_matches(tau@));
        }
    }

    /// Commits to a polynomial: each coefficient scales the matching SRS
    /// power, summed in the cheap group. Rejected above the degree bound.
    pub fn commit(&self, poly: &Poly) -> (r: Result<G1Point, SolvencyError>)
        requires
            self.wf(),
            poly.wf(),
        ensures
            (poly@.len() > self.degree_bound() + 1) <==> (r == Err::<G1Point, SolvencyError>(
                SolvencyError::DegreeExceeded,
            )),
            (poly@.len() <= self.degree_bound() + 1) <==> r is Ok,
            r matches Ok(c) ==> c.wf() && c@ == msm1(self.crs1(), poly@, poly@.len() as int),
    {
        if poly.len() > self.degree + 1 {
            return Err(SolvencyError::DegreeExceeded);
        }
        let n = poly.len();
        let first = if n == 0 {
            Scalar::zero()
        } else {
            poly.coeff(0)
        };
        let mut acc = g1_mul(&self.crs_g1[0], &first);
        let mut i: usize = 1;
        proof {
            assert(self.crs1()[0] == self.crs_g1@[0]@);
        }
        while i < n
            invariant
                self.wf(),
                poly.wf(),
                n == poly@.len(),
                n <= self.degree + 1,
                1 <= i <= if n > 1 { n as int } else { 1 },
                acc.wf(),
                acc@ == msm1(self.crs1(), poly@, i as int),
            decreases n - i,
        {
            let c = poly.coeff(i);
            let term = g1_mul(&self.crs_g1[i], &c);
            proof {
                assert(self.crs1()[i as int] == self.crs_g1@[i as int]@);
            }
            acc = g1_add(&acc, &term);
            i += 1;
        }
        Ok(acc)
    }

    /// Commits in the paired group, for the vanishing polynomial in batch
    /// verification.
    pub fn commit_g2(&self, poly: &Poly) -> (r: Result<G2Point, SolvencyError>)
        requires
            self.wf(),
            poly.wf(),
        ensures
            (poly@.len() > self.degree_bound() + 1) <==> (r == Err::<G2Point, SolvencyError>(
                SolvencyError::DegreeExceeded,
            )),
            (poly@.len() <= self.degree_bound() + 1) <==> r is Ok,
            r matches Ok(c) ==> c.wf() && c@ == msm2(self.crs2(), poly@, poly@.len() as int),
    {
        if poly.len() > self.degree + 1 {
            return Err(SolvencyError::DegreeExceeded);
        }
        let n = poly.len();
        let first = if n == 0 {
            Scalar::zero()
        } else {
            poly.coeff(0)
        };
        let mut acc = g2_mul(&self.crs_g2[0], &first);
        let mut i: usize = 1;
        proof {
            assert(self.crs2()[0] == self.crs_g2@[0]@);
        }
        while i < n
            invariant
                self.wf(),
                poly.wf(),
                n == poly@.len(),
                n <= self.degree + 1,
                1 <= i <= if n > 1 { n as int } else { 1 },
                acc.wf(),
                acc@ == msm2(self.crs2(), poly@, i as int),
            decreases n - i,
        {
            let c = poly.coeff(i);
            let term = g2_mul(&self.crs_g2[i], &c);
            proof {
                assert(self.crs2()[i as int] == self.crs_g2@[i as int]@);
            }
            acc = g2_add(&acc, &term);
            i += 1;
        }
        Ok(acc)
    }
}


/// The single-point pairing equation: the committed polynomial minus the
/// claimed value, paired with the base, against the proof paired with the
/// setup point shifted by the opening point.
pub open spec fn spec_verify(
    g1: Seq<u8>,
    g2: Seq<u8>,
    tau_g2: Seq<u8>,
    c: Seq<u8>,
    z: int,
    y: int,
    pi: Seq<u8>,
) -> bool {
    spec_verify_enc(g1, g2, tau_g2, c, z, g1_scale(g1, y), pi)
}

/// The same equation with the claimed value supplied already encrypted as
/// a cheap-group point, never as a scalar.
pub open spec fn spec_verify_enc(
    g1: Seq<u8>,
    g2: Seq<u8>,
    tau_g2: Seq<u8>,
    c: Seq<u8>,
    z: int,
    e_y: Seq<u8>,
    pi: Seq<u8>,
) -> bool {
    pair_of(g1_sum(c, g1_neg_of(e_y)), g2) == pair_of(
        pi,
        g2_sum(tau_g2, g2_scale(g2, (0 - z) % p())),
    )
}

/// Verifying with the encryption of a value is exactly verifying with the
/// value: the privacy-preserving check loses nothing against the plain
/// one when the encrypted evaluation is the value on the base point.
pub proof fn lemma_encrypted_matches_plain(
    g1: Seq<u8>,
    g2: Seq<u8>,
    tau_g2: Seq<u8>,
    c: Seq<u8>,
    z: int,
    y: int,
    pi: Seq<u8>,
)
    ensures
        spec_verify_enc(g1, g2, tau_g2, c, z, g1_scale(g1, y), pi) == spec_verify(
            g1,
            g2,
            tau_g2,
            c,
            z,
            y,
            pi,
        ),
{
}

impl KZG {
    /// Opens the polynomial at `z` against the claimed value `y`: commits
    /// to the quotient `(P - y) / (X - z)`. The division leaves no
    /// remainder exactly when `y` is the true evaluation; any other claim
    /// is rejected, never proved.
    pub fn open(&self, poly: &Poly, z: &Scalar, y: &Scalar) -> (r: Result<
        G1Point,
        SolvencyError,
    >)
        requires
            self.wf(),
            poly.wf(),
            z.wf(),
            y.wf(),
            poly@.len() >= 1,
        ensures
            (poly@.len() > self.degree_bound() + 1) <==> (r == Err::<G1Point, SolvencyError>(
                SolvencyError::DegreeExceeded,
            )),
            poly@.len() <= self.degree_bound() + 1 ==> ((r == Err::<G1Point, SolvencyError>(
                SolvencyError::NonVanishingRemainder,
            )) <==> eval_at(poly@, z@) != y@),
            (poly@.len() <= self.degree_bound() + 1 && eval_at(poly@, z@) == y@) ==> r
                is Ok,
            r matches Ok(pi) ==> pi.wf() && eval_at(poly@, z@) == y@ && (exists|q: Seq<int>|
                q.len() == poly@.len() - 1 && (forall|x: int|
                    (eval_at(poly@, x) - y@) % p() == ((x - z@) * eval_at(q, x)) % p())
                    && pi@ == #[trigger] msm1(self.crs1(), q, q.len() as int)),
    {
        if poly.len() > self.degree + 1 {
            return Err(SolvencyError::DegreeExceeded);
        }
        let mut yc: Vec<Scalar> = Vec::new();
        yc.push(y.dup());
        let ypoly = Poly::from_coeffs(yc);
        let diff = poly.sub_padded(&ypoly);
        proof {
            assert(diff@.len() == poly@.len());
            assert forall|x: int| eval_at(diff@, x) == (eval_at(poly@, x) - y@) % p() by {
                lemma_eval_sub(poly@, ypoly@, diff@, x);
                assert(ypoly@.len() == 1);
                assert(ypoly@[0] == yc@[0]@);
                assert(ypoly@[0] == y@);
                assert(eval_at(ypoly@.drop_first(), x) == 0);
                assert(eval_at(ypoly@, x) == (y@ + x * 0) % p());
                lemma_small_mod(y@ as nat, p() as nat);
            }
        }
        let (q, rem) = diff.divide_linear(z);
        if !rem.is_zero() {
            proof {
                lemma_eval_bound(poly@, z@);
                if eval_at(poly@, z@) == y@ {
                    lemma_small_mod(0, p() as nat);
                    assert(rem@ == 0);
                }
            }
            return Err(SolvencyError::NonVanishingRemainder);
        }
        proof {
            lemma_eval_bound(poly@, z@);
            lemma_mod_diff_zero(eval_at(poly@, z@), y@);
        }
        match self.commit(&q) {
            Ok(pi) => {
                proof {
                    assert forall|x: int|
                        (eval_at(poly@, x) - y@) % p() == ((x - z@) * eval_at(q@, x))
                            % p() by {
                        assert(eval_at(diff@, x) == ((x - z@) * eval_at(q@, x) + rem@)
                            % p());
                    }
                    assert(q@.len() == poly@.len() - 1 && (forall|x: int|
                        (eval_at(poly@, x) - y@) % p() == ((x - z@) * eval_at(q@, x)) % p())
                        && pi@ == msm1(self.crs1(), q@, q@.len() as int));
                }
                Ok(pi)
            },
            Err(_) => {
                proof {
                    assert(false);
                }
                Err(SolvencyError::DegreeExceeded)
            },
        }
    }

    /// Opens the polynomial against a claimed-value polynomial `L` at a
    /// set of points at once: commits to `(P - L) / Z` where `Z` vanishes
    /// on the points, dividing factor by factor and rejecting any nonzero
    /// remainder. A duplicated point can void a factor and so reject a
    /// true claim; points are meant to be distinct.
    #[verifier::rlimit(100)]
    pub fn multi_open(&self, poly: &Poly, l_poly: &Poly, points: &Vec<Scalar>) -> (r: Result<
        G1Point,
        SolvencyError,
    >)
        requires
            self.wf(),
            poly.wf(),
            l_poly.wf(),
            forall|t: int| 0 <= t < points@.len() ==> (#[trigger] points@[t]).wf(),
            points@.len() < if poly@.len() >= l_poly@.len() {
                poly@.len()
            } else {
                l_poly@.len()
            },
        ensures
            (poly@.len() > self.degree_bound() + 1 || l_poly@.len() > self.degree_bound()
                + 1) <==> (r == Err::<G1Point, SolvencyError>(SolvencyError::DegreeExceeded)),
            r matches Ok(pi) ==> pi.wf() && (forall|t: int|
                0 <= t < points@.len() ==> eval_at(poly@, (#[trigger] points@[t])@)
                    == eval_at(l_poly@, points@[t]@)) && (exists|q: Seq<int>|
                (forall|x: int|
                    (eval_at(poly@, x) - eval_at(l_poly@, x)) % p() == (prod_linear(
                        vals_of(points@),
                        x,
                    ) * eval_at(q, x)) % p()) && pi@ == #[trigger] msm1(
                    self.crs1(),
                    q,
                    q.len() as int,
                )),
            (poly@.len() <= self.degree_bound() + 1 && l_poly@.len() <= self.degree_bound()
                + 1 && (exists|t: int|
                0 <= t < points@.len() && eval_at(poly@, (#[trigger] points@[t])@)
                    != eval_at(l_poly@, points@[t]@))) ==> r == Err::<G1Point, SolvencyError>(
                SolvencyError::NonVanishingRemainder,
            ),
            (poly@.len() <= self.degree_bound() + 1 && l_poly@.len() <= self.degree_bound()
                + 1 && !has_dup(vals_of(points@)) && (forall|t: int|
                0 <= t < points@.len() ==> eval_at(poly@, (#[trigger] points@[t])@)
                    == eval_at(l_poly@, points@[t]@))) ==> r is Ok,
    {
        if poly.len() > self.degree + 1 || l_poly.len() > self.degree + 1 {
            return Err(SolvencyError::DegreeExceeded);
        }
        let ghost ptvals = vals_of(points@);
        let mut cur = poly.sub_padded(l_poly);
        let ghost diff0 = cur@;
        proof {
            assert forall|x: int| eval_at(diff0, x) == (eval_at(poly@, x) - eval_at(
                l_poly@,
                x,
            )) % p() by {
                lemma_eval_sub(poly@, l_poly@, diff0, x);
            }
            assert(ptvals.take(0) =~= Seq::<int>::empty());
            assert forall|x: int| eval_at(diff0, x) == (prod_linear(ptvals.take(0), x)
                * eval_at(cur@, x)) % p() by {
                lemma_eval_bound(cur@, x);
                lemma_small_mod(eval_at(cur@, x) as nat, p() as nat);
            }
        }
        let mut j: usize = 0;
        while j < points.len()
            invariant
                self.wf(),
                poly.wf(),
                l_poly.wf(),
                forall|t: int| 0 <= t < points@.len() ==> (#[trigger] points@[t]).wf(),
                ptvals == vals_of(points@),
                0 <= j <= points@.len(),
                poly@.len() <= self.degree_bound() + 1,
                l_poly@.len() <= self.degree_bound() + 1,
                cur.wf(),
                cur@.len() == diff0.len() - j,
                cur@.len() >= 1 + points@.len() - j,
                diff0.len() == if poly@.len() >= l_poly@.len() {
                    poly@.len()
                } else {
                    l_poly@.len()
                },
                forall|x: int| eval_at(diff0, x) == (eval_at(poly@, x) - eval_at(l_poly@, x))
                    % p(),
                forall|x: int| #[trigger] eval_at(diff0, x) == (prod_linear(
                    ptvals.take(j as int),
                    x,
                ) * eval_at(cur@, x)) % p(),
            decreases points@.len() - j,
        {
            let ghost prev = cur@;
            let (qn, rem) = cur.divide_linear(&points[j]);
            if !rem.is_zero() {
                // Witness an inverse of the factor product at this point:
                // a true, duplicate-free claim then cannot have left a
                // nonzero remainder, so this return never loses one.
                let zsj = points[j].dup();
                let mut pv = Scalar::one();
                let mut iv = Scalar::one();
                let mut t: usize = 0;
                proof {
                    lemma_small_mod(1, p() as nat);
                    assert(ptvals.take(0) =~= Seq::<int>::empty());
                }
                while t < j
                    invariant
                        forall|t2: int| 0 <= t2 < points@.len() ==> (
                        #[trigger] points@[t2]).wf(),
                        ptvals == vals_of(points@),
                        poly@.len() <= self.degree_bound() + 1,
                        l_poly@.len() <= self.degree_bound() + 1,
                        0 <= t <= j < points@.len(),
                        zsj.wf(),
                        zsj@ == points@[j as int]@,
                        pv.wf(),
                        iv.wf(),
                        pv@ == prod_linear(ptvals.take(t as int), zsj@),
                        (pv@ * iv@) % p() == 1,
                    decreases j - t,
                {
                    let ghost pprev = pv@;
                    let ghost iprev = iv@;
                    let dt = Scalar::sub(&zsj, &points[t]);
                    if dt.is_zero() {
                        proof {
                            lemma_mod_diff_zero(zsj@, points@[t as int]@);
                            assert(ptvals[j as int] == points@[j as int]@);
                            assert(ptvals[t as int] == points@[t as int]@);
                            assert(0 <= j < ptvals.len() && 0 <= t < ptvals.len() && j as int
                                != t as int && ptvals[j as int] == ptvals[t as int]);
                            assert(has_dup(ptvals));
                        }
                        return Err(SolvencyError::NonVanishingRemainder);
                    }
                    let idt = Scalar::inv(&dt);
                    let pv2 = Scalar::mul(&pv, &dt);
                    let iv2 = Scalar::mul(&iv, &idt);
                    proof {
                        assert(dt@ * idt@ == idt@ * dt@) by (nonlinear_arith);
                        lemma_inv_product(pprev, dt@, iprev, idt@);
                        assert(ptvals.take(t + 1).drop_last() =~= ptvals.take(t as int));
                        assert(ptvals.take(t + 1).last() == ptvals[t as int]);
                        assert(ptvals[t as int] == points@[t as int]@);
                        lemma_mul_mod_noop_general(pprev, zsj@ - points@[t as int]@, p());
                    }
                    pv = pv2;
                    iv = iv2;
                    t += 1;
                }
                proof {
                    if !has_dup(ptvals) && (forall|t2: int|
                        0 <= t2 < points@.len() ==> eval_at(poly@, (#[trigger] points@[t2])@)
                            == eval_at(l_poly@, points@[t2]@)) {
                        let zj = points@[j as int]@;
                        assert(eval_at(poly@, zj) == eval_at(l_poly@, zj));
                        assert(eval_at(diff0, zj) == (eval_at(poly@, zj) - eval_at(
                            l_poly@,
                            zj,
                        )) % p());
                        lemma_small_mod(0, p() as nat);
                        assert(eval_at(diff0, zj) == 0);
                        assert(eval_at(diff0, zj) == (prod_linear(ptvals.take(j as int), zj)
                            * eval_at(prev, zj)) % p());
                        assert(rem@ == eval_at(prev, zj));
                        lemma_eval_bound(prev, zj);
                        lemma_cancel_invertible(pv@, iv@, rem@);
                        assert(false);
                    }
                }
                return Err(SolvencyError::NonVanishingRemainder);
            }
            proof {
                let zj = points@[j as int]@;
                assert(ptvals.take(j + 1).drop_last() =~= ptvals.take(j as int));
                assert(ptvals.take(j + 1).last() == ptvals[j as int]);
                assert(ptvals[j as int] == points@[j as int]@);
                assert forall|x: int| #[trigger] eval_at(diff0, x) == (prod_linear(
                    ptvals.take(j + 1),
                    x,
                ) * eval_at(qn@, x)) % p() by {
                    let pj = prod_linear(ptvals.take(j as int), x);
                    let en = eval_at(qn@, x);
                    assert(eval_at(prev, x) == ((x - zj) * en + rem@) % p());
                    assert(eval_at(prev, x) == ((x - zj) * en) % p());
                    lemma_mul_mod_noop_general(pj, (x - zj) * en, p());
                    assert(eval_at(diff0, x) == (pj * (((x - zj) * en)) ) % p());
                    assert(pj * ((x - zj) * en) == (pj * (x - zj)) * en) by (nonlinear_arith);
                    lemma_mul_mod_noop_general(pj * (x - zj), en, p());
                    assert(prod_linear(ptvals.take(j + 1), x) == (pj * (x - zj)) % p());
                }
            }
            cur = qn;
            j += 1;
        }
        proof {
            assert(ptvals.take(points@.len() as int) =~= ptvals);
        }
        match self.commit(&cur) {
            Ok(pi) => {
                proof {
                    assert forall|t: int| 0 <= t < points@.len() implies eval_at(
                        poly@,
                        (#[trigger] points@[t])@,
                    ) == eval_at(l_poly@, points@[t]@) by {
                        let zt = points@[t]@;
                        assert(ptvals[t] == zt);
                        lemma_prod_vanish(ptvals, t);
                        assert(eval_at(diff0, zt) == (prod_linear(ptvals, zt) * eval_at(
                            cur@,
                            zt,
                        )) % p());
                        assert(0 * eval_at(cur@, zt) == 0) by (nonlinear_arith);
                        lemma_small_mod(0, p() as nat);
                        lemma_eval_bound(poly@, zt);
                        lemma_eval_bound(l_poly@, zt);
                        lemma_mod_diff_zero(eval_at(poly@, zt), eval_at(l_poly@, zt));
                    }
                    assert forall|x: int|
                        (eval_at(poly@, x) - eval_at(l_poly@, x)) % p() == (prod_linear(
                            vals_of(points@),
                            x,
                        ) * eval_at(cur@, x)) % p() by {
                        assert(eval_at(diff0, x) == (eval_at(poly@, x) - eval_at(
                            l_poly@,
                            x,
                        )) % p());
                        assert(eval_at(diff0, x) == (prod_linear(
                            ptvals.take(points@.len() as int),
                            x,
                        ) * eval_at(cur@, x)) % p());
                    }
                    assert((forall|x: int|
                        (eval_at(poly@, x) - eval_at(l_poly@, x)) % p() == (prod_linear(
                            vals_of(points@),
                            x,
                        ) * eval_at(cur@, x)) % p()) && pi@ == msm1(
                        self.crs1(),
                        cur@,
                        cur@.len() as int,
                    ));
                }
                Ok(pi)
            },
            Err(_) => {
                proof {
                    assert(false);
                }
                Err(SolvencyError::DegreeExceeded)
            },
        }
    }

    /// The single-point pairing check; pure, false on failure, never an
    /// abort.
    pub fn verify(&self, c: &G1Point, z: &Scalar, y: &Scalar, pi: &G1Point) -> (r: bool)
        requires
            self.wf(),
            c.wf(),
            z.wf(),
            y.wf(),
            pi.wf(),
        ensures
            r == spec_verify(self.g1_view(), self.g2_view(), self.crs2()[1], c@, z@, y@, pi@),
    {
        let e_y = g1_mul(&self.g1, y);
        self.verify_from_encrypted_y(&e_y, z, c, pi)
    }

    /// The pairing check with the evaluation supplied pre-encrypted as
    /// `y` on the base point; the scalar itself is never revealed.
    pub fn verify_from_encrypted_y(
        &self,
        e_y: &G1Point,
        z: &Scalar,
        c: &G1Point,
        pi: &G1Point,
    ) -> (r: bool)
        requires
            self.wf(),
            e_y.wf(),
            z.wf(),
            c.wf(),
            pi.wf(),
        ensures
            r == spec_verify_enc(
                self.g1_view(),
                self.g2_view(),
                self.crs2()[1],
                c@,
                z@,
                e_y@,
                pi@,
            ),
    {
        let lhs_g1 = g1_add(c, &g1_neg(e_y));
        let neg_z = Scalar::neg(z);
        let shift = g2_mul(&self.g2, &neg_z);
        let rhs_g2 = g2_add(&self.crs_g2[1], &shift);
        proof {
            assert(self.crs2()[1] == self.crs_g2@[1]@);
        }
        pairing_check(&lhs_g1, &self.g2, pi, &rhs_g2)
    }

    /// The batch pairing check: the commitment against the committed
    /// claimed-value polynomial, the proof against the vanishing
    /// polynomial committed in the paired group.
    pub fn verify_multi_open(
        &self,
        c: &G1Point,
        pi: &G1Point,
        z_poly: &Poly,
        l_poly: &Poly,
    ) -> (r: bool)
        requires
            self.wf(),
            c.wf(),
            pi.wf(),
            z_poly.wf(),
            l_poly.wf(),
        ensures
            r == (z_poly@.len() <= self.degree_bound() + 1 && l_poly@.len()
                <= self.degree_bound() + 1 && pair_of(
                g1_sum(c@, g1_neg_of(msm1(self.crs1(), l_poly@, l_poly@.len() as int))),
                self.g2_view(),
            ) == pair_of(pi@, msm2(self.crs2(), z_poly@, z_poly@.len() as int))),
    {
        let cl = match self.commit(l_poly) {
            Ok(v) => v,
            Err(_) => {
                return false;
            },
        };
        let cz = match self.commit_g2(z_poly) {
            Ok(v) => v,
            Err(_) => {
                return false;
            },
        };
        let lhs_g1 = g1_add(c, &g1_neg(&cl));
        pairing_check(&lhs_g1, &self.g2, pi, &cz)
    }
}

} // verus!
