//! The scalar field tied to the curve's group order.
//!
//! A `Scalar` holds the canonical 32-byte little-endian encoding of a field
//! element; its mathematical view is the encoded integer, always in
//! `[0, p)` where `p` is the group order. Arithmetic is delegated to the
//! audited field implementation behind trusted wrappers whose contracts
//! state the exact result modulo `p`.

use vstd::prelude::*;
use ark_serialize::CanonicalDeserialize;
use ark_serialize::CanonicalSerialize;
use ark_ff::Field;
use ark_ff::PrimeField;
use ark_ff::FftField;

verus! {

/// The order of the curve's scalar group: the modulus of every scalar.
pub open spec fn p() -> int {
    21888242871839275222246405745257275088548364400416034343698204186575808495617int
}

/// The integer encoded by a little-endian byte sequence.
pub open spec fn bytes_val(s: Seq<u8>) -> int
    decreases s.len(),
{
    if s.len() == 0 {
        0
    } else {
        s[0] as int + 256 * bytes_val(s.drop_first())
    }
}

/// `b^e mod p`.
pub open spec fn pow_mod(b: int, e: nat) -> int
    decreases e,
{
    if e == 0 {
        1
    } else {
        (b * pow_mod(b, (e - 1) as nat)) % p()
    }
}

/// `2^k` as a plain integer.
pub open spec fn pow2int(k: nat) -> int
    decreases k,
{
    if k == 0 {
        1
    } else {
        2 * pow2int((k - 1) as nat)
    }
}

/// A power stays a canonical residue.
pub proof fn lemma_pow_mod_bound(b: int, e: nat)
    ensures
        0 <= pow_mod(b, e) < p(),
{
    if e == 0 {
    } else {
        vstd::arithmetic::div_mod::lemma_mod_bound(
            b * pow_mod(b, (e - 1) as nat),
            p(),
        );
    }
}

/// Powers multiply: the exponent sum is the reduced product.
pub proof fn lemma_pow_mod_add(b: int, x: nat, y: nat)
    ensures
        pow_mod(b, x + y) == (pow_mod(b, x) * pow_mod(b, y)) % p(),
    decreases y,
{
    if y == 0 {
        lemma_pow_mod_bound(b, x);
        vstd::arithmetic::div_mod::lemma_small_mod(pow_mod(b, x) as nat, p() as nat);
    } else {
        lemma_pow_mod_add(b, x, (y - 1) as nat);
        let px = pow_mod(b, x);
        let py1 = pow_mod(b, (y - 1) as nat);
        assert(pow_mod(b, x + y) == (b * pow_mod(b, (x + y - 1) as nat)) % p());
        assert(pow_mod(b, (x + y - 1) as nat) == (px * py1) % p());
        vstd::arithmetic::div_mod::lemma_mul_mod_noop_general(b, px * py1, p());
        assert((b * ((px * py1) % p())) % p() == (b * (px * py1)) % p());
        assert(b * (px * py1) == px * (b * py1)) by (nonlinear_arith);
        vstd::arithmetic::div_mod::lemma_mul_mod_noop_general(px, b * py1, p());
        assert((px * ((b * py1) % p())) % p() == (px * (b * py1)) % p());
        assert(pow_mod(b, y) == (b * py1) % p());
    }
}

/// The powers of an element of multiplicative order exactly `n` are
/// pairwise distinct below `n`.
pub proof fn lemma_root_powers_distinct(g: int, n: nat, i: nat, j: nat)
    requires
        pow_mod(g, n) == 1,
        forall|k: nat| 1 <= k < n ==> #[trigger] pow_mod(g, k) != 1,
        i < j,
        j < n,
    ensures
        pow_mod(g, i) != pow_mod(g, j),
{
    if pow_mod(g, i) == pow_mod(g, j) {
        let d = (j - i) as nat;
        // g^(n + d) folds two ways: to g^d, and through the collision to 1.
        lemma_pow_mod_add(g, n, d);
        lemma_pow_mod_bound(g, d);
        vstd::arithmetic::div_mod::lemma_small_mod(pow_mod(g, d) as nat, p() as nat);
        assert(pow_mod(g, n + d) == pow_mod(g, d));
        lemma_pow_mod_add(g, j, (n - i) as nat);
        assert(j + (n - i) == n + d);
        lemma_pow_mod_add(g, i, (n - i) as nat);
        assert(i + (n - i) == n);
        assert(pow_mod(g, n + d) == (pow_mod(g, j) * pow_mod(g, (n - i) as nat)) % p());
        assert((pow_mod(g, j) * pow_mod(g, (n - i) as nat)) % p() == (pow_mod(g, i)
            * pow_mod(g, (n - i) as nat)) % p());
        assert(pow_mod(g, d) == 1);
        assert(1 <= d < n);
        assert(false);
    }
}

/// One scalar-field element, stored as its canonical little-endian bytes.
#[derive(Debug)]
pub struct Scalar {
    bytes: Vec<u8>,
}

impl View for Scalar {
    type V = int;

    closed spec fn view(&self) -> int {
        bytes_val(self.bytes@)
    }
}

pub proof fn lemma_bytes_val_nonneg(s: Seq<u8>)
    ensures
        bytes_val(s) >= 0,
    decreases s.len(),
{
    if s.len() > 0 {
        lemma_bytes_val_nonneg(s.drop_first());
    }
}

/// Equal-length byte sequences that encode the same integer are equal.
pub proof fn lemma_bytes_val_injective(a: Seq<u8>, b: Seq<u8>)
    requires
        a.len() == b.len(),
        bytes_val(a) == bytes_val(b),
    ensures
        a =~= b,
    decreases a.len(),
{
    if a.len() > 0 {
        lemma_bytes_val_nonneg(a.drop_first());
        lemma_bytes_val_nonneg(b.drop_first());
        assert(a[0] as int + 256 * bytes_val(a.drop_first())
            == b[0] as int + 256 * bytes_val(b.drop_first()));
        assert(a[0] == b[0]);
        assert(bytes_val(a.drop_first()) == bytes_val(b.drop_first()));
        lemma_bytes_val_injective(a.drop_first(), b.drop_first());
        assert forall|i: int| 0 <= i < a.len() implies a[i] == b[i] by {
            if i > 0 {
                assert(a[i] == a.drop_first()[i - 1]);
                assert(b[i] == b.drop_first()[i - 1]);
            }
        }
    }
}

/// A well-formed scalar's view is a canonical residue.
pub broadcast proof fn lemma_scalar_wf_range(s: Scalar)
    requires
        #[trigger] s.wf(),
    ensures
        0 <= s@ < p(),
{
}

impl Scalar {
    /// A scalar is well formed when it is 32 canonical bytes encoding a
    /// value below the group order.
    pub closed spec fn wf(&self) -> bool {
        self.bytes@.len() == 32 && 0 <= self@ < p()
    }

    /// An explicit copy: same value, well formed.
    pub fn dup(&self) -> (r: Scalar)
        requires
            self.wf(),
        ensures
            r.wf(),
            r@ == self@,
    {
        let mut out: Vec<u8> = Vec::new();
        let mut i: usize = 0;
        while i < 32
            invariant
                self.wf(),
                0 <= i <= 32,
                out@.len() == i,
                forall|j: int| 0 <= j < i ==> out@[j] == self.bytes@[j],
            decreases 32 - i,
        {
            out.push(self.bytes[i]);
            i += 1;
        }
        proof {
            assert(out@ =~= self.bytes@);
        }
        Scalar { bytes: out }
    }

    /// Relies on `ark_ff::Fp::from` for `u128` and
    /// `ark_serialize::CanonicalSerialize::serialize_compressed`: a value
    /// below the modulus embeds unchanged and serializes to its canonical
    /// 32 little-endian bytes.
    #[verifier::external_body]
    pub fn from_u128(x: u128) -> (r: Scalar)
        ensures
            r.wf(),
            r@ == x as int,
    {
        let e = ark_bn254::Fr::from(x);
        let mut out: Vec<u8> = Vec::new();
        e.serialize_compressed(&mut out).unwrap();
        Scalar { bytes: out }
    }

    /// Relies on `ark_ff::PrimeField::from_le_bytes_mod_order`: the bytes
    /// are read as a little-endian integer and reduced modulo the order.
    #[verifier::external_body]
    pub fn from_le_bytes_reduce(b: &Vec<u8>) -> (r: Scalar)
        ensures
            r.wf(),
            r@ == bytes_val(b@) % p(),
    {
        let e = ark_bn254::Fr::from_le_bytes_mod_order(&b[..]);
        let mut out: Vec<u8> = Vec::new();
        e.serialize_compressed(&mut out).unwrap();
        Scalar { bytes: out }
    }

    /// Relies on field addition of `ark_bn254::Fr` being addition modulo
    /// the group order, and on the canonical (de)serialization of scalars.
    #[verifier::external_body]
    pub fn add(a: &Scalar, b: &Scalar) -> (r: Scalar)
        requires
            a.wf(),
            b.wf(),
        ensures
            r.wf(),
            r@ == (a@ + b@) % p(),
    {
        let x = ark_bn254::Fr::deserialize_compressed(&a.bytes[..]).unwrap();
        let y = ark_bn254::Fr::deserialize_compressed(&b.bytes[..]).unwrap();
        let mut out: Vec<u8> = Vec::new();
        (x + y).serialize_compressed(&mut out).unwrap();
        Scalar { bytes: out }
    }

    /// Relies on field subtraction of `ark_bn254::Fr` being subtraction
    /// modulo the group order, and on the canonical (de)serialization.
    #[verifier::external_body]
    pub fn sub(a: &Scalar, b: &Scalar) -> (r: Scalar)
        requires
            a.wf(),
            b.wf(),
        ensures
            r.wf(),
            r@ == (a@ - b@) % p(),
    {
        let x = ark_bn254::Fr::deserialize_compressed(&a.bytes[..]).unwrap();
        let y = ark_bn254::Fr::deserialize_compressed(&b.bytes[..]).unwrap();
        let mut out: Vec<u8> = Vec::new();
        (x - y).serialize_compressed(&mut out).unwrap();
        Scalar { bytes: out }
    }

    /// Relies on field multiplication of `ark_bn254::Fr` being
    /// multiplication modulo the group order, and on the canonical
    /// (de)serialization.
    #[verifier::external_body]
    pub fn mul(a: &Scalar, b: &Scalar) -> (r: Scalar)
        requires
            a.wf(),
            b.wf(),
        ensures
            r.wf(),
            r@ == (a@ * b@) % p(),
    {
        let x = ark_bn254::Fr::deserialize_compressed(&a.bytes[..]).unwrap();
        let y = ark_bn254::Fr::deserialize_compressed(&b.bytes[..]).unwrap();
        let mut out: Vec<u8> = Vec::new();
        (x * y).serialize_compressed(&mut out).unwrap();
        Scalar { bytes: out }
    }

    /// Relies on `ark_ff::Field::inverse`: for a nonzero element it returns
    /// the multiplicative inverse modulo the group order.
    #[verifier::external_body]
    pub fn inv(a: &Scalar) -> (r: Scalar)
        requires
            a.wf(),
            a@ != 0,
        ensures
            r.wf(),
            (r@ * a@) % p() == 1,
    {
        let x = ark_bn254::Fr::deserialize_compressed(&a.bytes[..]).unwrap();
        let mut out: Vec<u8> = Vec::new();
        x.inverse().unwrap().serialize_compressed(&mut out).unwrap();
        Scalar { bytes: out }
    }

    /// Relies on `ark_ff::FftField::get_root_of_unity`: for `n` a power of
    /// two within the field's two-adicity (28 here) it returns the 2-adic
    /// element of multiplicative order exactly `n` — the configured
    /// generator raised to `(p - 1) / n` — so its `n`-th power is one and
    /// no smaller positive power is.
    #[verifier::external_body]
    pub fn root_of_unity(n: u64) -> (r: Option<Scalar>)
        ensures
            (exists|k: nat| k <= 28 && n as int == pow2int(k)) ==> r is Some,
            r matches Some(g) ==> g.wf() && pow_mod(g@, n as nat) == 1,
            r matches Some(g) ==> forall|j: nat| 1 <= j < n ==> #[trigger] pow_mod(g@, j)
                != 1,
    {
        match ark_bn254::Fr::get_root_of_unity(n) {
            None => None,
            Some(e) => {
                let mut out: Vec<u8> = Vec::new();
                e.serialize_compressed(&mut out).unwrap();
                Some(Scalar { bytes: out })
            }
        }
    }

    /// The additive identity.
    pub fn zero() -> (r: Scalar)
        ensures
            r.wf(),
            r@ == 0,
    {
        Scalar::from_u128(0)
    }

    /// The multiplicative identity.
    pub fn one() -> (r: Scalar)
        ensures
            r.wf(),
            r@ == 1,
    {
        Scalar::from_u128(1)
    }

    /// The additive inverse modulo the group order.
    pub fn neg(a: &Scalar) -> (r: Scalar)
        requires
            a.wf(),
        ensures
            r.wf(),
            r@ == (0 - a@) % p(),
    {
        Scalar::sub(&Scalar::zero(), a)
    }

    /// The canonical little-endian encoding.
    pub fn to_le_bytes(&self) -> (r: Vec<u8>)
        requires
            self.wf(),
        ensures
            r@.len() == 32,
            bytes_val(r@) == self@,
    {
        self.dup().bytes
    }

    /// Value equality, decided on the canonical bytes.
    pub fn eq(&self, other: &Scalar) -> (r: bool)
        requires
            self.wf(),
            other.wf(),
        ensures
            r == (self@ == other@),
    {
        let mut i: usize = 0;
        while i < 32
            invariant
                self.wf(),
                other.wf(),
                0 <= i <= 32,
                forall|j: int| 0 <= j < i ==> self.bytes@[j] == other.bytes@[j],
            decreases 32 - i,
        {
            if self.bytes[i] != other.bytes[i] {
                proof {
                    if self@ == other@ {
                        lemma_bytes_val_injective(self.bytes@, other.bytes@);
                    }
                }
                return false;
            }
            i += 1;
        }
        proof {
            assert(self.bytes@ =~= other.bytes@);
        }
        true
    }

    /// True when the scalar is the additive identity.
    pub fn is_zero(&self) -> (r: bool)
        requires
            self.wf(),
        ensures
            r == (self@ == 0),
    {
        self.eq(&Scalar::zero())
    }
}

} // verus!
