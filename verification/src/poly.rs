//! Dense polynomials over the scalar field.
//!
//! A polynomial is its ordered coefficient sequence, constant term first;
//! the degree is one less than the length. Its view is the sequence of
//! coefficient values, and evaluation is specified by `eval_at`, a Horner
//! recursion modulo the group order.

use vstd::prelude::*;
use vstd::arithmetic::div_mod::{
    lemma_add_mod_noop, lemma_add_mod_noop_right, lemma_mod_bound, lemma_mod_twice,
    lemma_mul_mod_noop_general, lemma_small_mod, lemma_sub_mod_noop, lemma_sub_mod_noop_right,
};
use crate::field::{p, Scalar, lemma_scalar_wf_range};
use crate::errors::SolvencyError;

verus! {

broadcast use lemma_scalar_wf_range;

/// The values of a scalar sequence.
pub open spec fn vals_of(s: Seq<Scalar>) -> Seq<int> {
    s.map_values(|x: Scalar| x@)
}

/// Two positions of `d` hold the same value.
pub open spec fn has_dup(d: Seq<int>) -> bool {
    exists|i: int, j: int| 0 <= i < d.len() && 0 <= j < d.len() && i != j && d[i] == d[j]
}

/// The coefficient at `i`, taking absent positions as zero.
pub open spec fn pad(c: Seq<int>, i: int) -> int {
    if 0 <= i < c.len() {
        c[i]
    } else {
        0
    }
}

/// The value of the polynomial with coefficients `c` at `x`, modulo the
/// group order.
pub open spec fn eval_at(c: Seq<int>, x: int) -> int
    decreases c.len(),
{
    if c.len() == 0 {
        0
    } else {
        (c[0] + x * eval_at(c.drop_first(), x)) % p()
    }
}

/// Every coefficient is a canonical residue.
pub open spec fn reduced(c: Seq<int>) -> bool {
    forall|i: int| 0 <= i < c.len() ==> 0 <= #[trigger] c[i] < p()
}

pub proof fn lemma_eval_bound(c: Seq<int>, x: int)
    ensures
        0 <= eval_at(c, x) < p(),
{
    assert(p() > 0);
    if c.len() == 0 {
    } else {
        lemma_mod_bound(c[0] + x * eval_at(c.drop_first(), x), p());
    }
}

/// The synthetic-division identity: if `q` and `rem` satisfy the
/// coefficient recurrence of dividing `c` by `X - z`, then at every point
/// `c` recomposes as `(x - z) * q(x) + rem`.
pub proof fn lemma_divide_recompose(c: Seq<int>, q: Seq<int>, z: int, rem: int, x: int)
    requires
        c.len() >= 1,
        q.len() == c.len() - 1,
        forall|i: int| 0 <= i < q.len() ==> #[trigger] q[i] == (pad(c, i + 1) + z * pad(
            q,
            i + 1,
        )) % p(),
        rem == (pad(c, 0) + z * pad(q, 0)) % p(),
    ensures
        eval_at(c, x) == ((x - z) * eval_at(q, x) + rem) % p(),
    decreases c.len(),
{
    if c.len() == 1 {
        assert(c.drop_first().len() == 0);
        assert(q.len() == 0);
        assert(eval_at(c.drop_first(), x) == 0);
        assert(eval_at(q, x) == 0);
        assert(eval_at(c, x) == (c[0] + x * 0) % p());
        assert(rem == (c[0] + z * 0) % p());
        lemma_mod_twice(c[0], p());
        assert(((x - z) * 0 + rem) % p() == rem % p());
    } else {
        let c1 = c.drop_first();
        let q1 = q.drop_first();
        assert forall|i: int| 0 <= i < q1.len() implies #[trigger] q1[i] == (pad(c1, i + 1) + z
            * pad(q1, i + 1)) % p() by {
            assert(q1[i] == q[i + 1]);
            assert(pad(c1, i + 1) == pad(c, i + 2));
            assert(pad(q1, i + 1) == pad(q, i + 2));
        }
        assert(pad(c1, 0) == pad(c, 1));
        assert(pad(q1, 0) == pad(q, 1));
        assert(q[0] == (pad(c1, 0) + z * pad(q1, 0)) % p());
        lemma_divide_recompose(c1, q1, z, q[0], x);
        let e1 = eval_at(q1, x);
        let q0 = q[0];
        let c0 = c[0];
        // Left side.
        assert(eval_at(c, x) == (c0 + x * eval_at(c1, x)) % p());
        assert(eval_at(c1, x) == ((x - z) * e1 + q0) % p());
        lemma_mul_mod_noop_general(x, (x - z) * e1 + q0, p());
        assert((x * (((x - z) * e1 + q0) % p())) % p() == (x * ((x - z) * e1 + q0)) % p());
        lemma_add_mod_noop_right(c0, x * (((x - z) * e1 + q0) % p()), p());
        lemma_add_mod_noop_right(c0, x * ((x - z) * e1 + q0), p());
        assert(eval_at(c, x) == (c0 + x * ((x - z) * e1 + q0)) % p());
        assert(x * ((x - z) * e1 + q0) == x * (x - z) * e1 + x * q0) by (nonlinear_arith);
        assert(eval_at(c, x) == (c0 + x * (x - z) * e1 + x * q0) % p());
        // Right side.
        assert(eval_at(q, x) == (q0 + x * e1) % p());
        let v = q0 + x * e1;
        lemma_mul_mod_noop_general(x - z, v, p());
        assert(((x - z) * (v % p())) % p() == ((x - z) * v) % p());
        lemma_add_mod_noop(( x - z) * (v % p()), rem, p());
        lemma_add_mod_noop((x - z) * v, rem, p());
        lemma_mod_twice(rem, p());
        assert(((x - z) * eval_at(q, x) + rem) % p() == ((x - z) * v + rem) % p());
        lemma_add_mod_noop_right((x - z) * v, rem, p());
        assert(rem == (c0 + z * q0) % p());
        lemma_add_mod_noop_right((x - z) * v, c0 + z * q0, p());
        assert(((x - z) * v + rem) % p() == ((x - z) * v + (c0 + z * q0)) % p());
        assert((x - z) * v == x * q0 + x * (x - z) * e1 - z * q0) by (nonlinear_arith)
            requires v == q0 + x * e1;
        assert(((x - z) * v + (c0 + z * q0)) % p() == (c0 + x * (x - z) * e1 + x * q0) % p());
    }
}

/// Scaling every coefficient scales the value at every point.
pub proof fn lemma_eval_scale(c: Seq<int>, d: Seq<int>, s: int, x: int)
    requires
        d.len() == c.len(),
        forall|i: int| 0 <= i < c.len() ==> #[trigger] d[i] == (s * c[i]) % p(),
    ensures
        eval_at(d, x) == (s * eval_at(c, x)) % p(),
    decreases c.len(),
{
    if c.len() == 0 {
        lemma_small_mod(0, p() as nat);
        assert(s * 0 == 0) by (nonlinear_arith);
    } else {
        let c1 = c.drop_first();
        let d1 = d.drop_first();
        assert forall|i: int| 0 <= i < c1.len() implies #[trigger] d1[i] == (s * c1[i]) % p() by {
            assert(d1[i] == d[i + 1]);
            assert(c1[i] == c[i + 1]);
        }
        lemma_eval_scale(c1, d1, s, x);
        let e1 = eval_at(c1, x);
        // eval(d) == ((s c0) % p + x ((s e1) % p)) % p == (s c0 + x s e1) % p
        lemma_mul_mod_noop_general(x, s * e1, p());
        lemma_add_mod_noop_right((s * c[0]) % p(), x * ((s * e1) % p()), p());
        lemma_add_mod_noop_right((s * c[0]) % p(), x * (s * e1), p());
        assert((x * (s * e1)) % p() == (x * (s * e1)) % p());
        lemma_add_mod_noop(s * c[0], x * (s * e1), p());
        lemma_mod_twice(x * (s * e1), p());
        assert(eval_at(d, x) == ((s * c[0]) % p() + x * ((s * e1) % p())) % p());
        assert(eval_at(d, x) == (s * c[0] + x * (s * e1)) % p());
        // RHS: (s * ((c0 + x e1) % p)) % p == (s c0 + s (x e1)) % p
        lemma_mul_mod_noop_general(s, c[0] + x * e1, p());
        assert(s * (c[0] + x * e1) == s * c[0] + x * (s * e1)) by (nonlinear_arith);
    }
}

/// Coefficient-wise addition adds the values at every point.
#[verifier::rlimit(100)]
#[verifier::spinoff_prover]
pub proof fn lemma_eval_add(a: Seq<int>, b: Seq<int>, c: Seq<int>, x: int)
    requires
        c.len() == if a.len() >= b.len() {
            a.len()
        } else {
            b.len()
        },
        forall|i: int| 0 <= i < c.len() ==> #[trigger] c[i] == (pad(a, i) + pad(b, i)) % p(),
    ensures
        eval_at(c, x) == (eval_at(a, x) + eval_at(b, x)) % p(),
    decreases c.len(),
{
    if c.len() == 0 {
        lemma_small_mod(0, p() as nat);
    } else {
        let a1 = if a.len() > 0 { a.drop_first() } else { a };
        let b1 = if b.len() > 0 { b.drop_first() } else { b };
        let c1 = c.drop_first();
        assert forall|i: int| 0 <= i < c1.len() implies #[trigger] c1[i] == (pad(a1, i) + pad(
            b1,
            i,
        )) % p() by {
            assert(c1[i] == c[i + 1]);
            assert(pad(a1, i) == pad(a, i + 1));
            assert(pad(b1, i) == pad(b, i + 1));
        }
        lemma_eval_add(a1, b1, c1, x);
        let ea1 = eval_at(a1, x);
        let eb1 = eval_at(b1, x);
        // Uniform head decomposition, also for an absent head.
        assert(eval_at(a, x) == (pad(a, 0) + x * ea1) % p()) by {
            if a.len() == 0 {
                lemma_small_mod(0, p() as nat);
            } else {
                assert(eval_at(a, x) == (a[0] + x * eval_at(a.drop_first(), x)) % p());
            }
        }
        assert(eval_at(b, x) == (pad(b, 0) + x * eb1) % p()) by {
            if b.len() == 0 {
                lemma_small_mod(0, p() as nat);
            } else {
                assert(eval_at(b, x) == (b[0] + x * eval_at(b.drop_first(), x)) % p());
            }
        }
        // eval(c) == (c0 + x ((ea1 + eb1) % p)) % p == (a0 + b0 + x ea1 + x eb1) % p
        lemma_mul_mod_noop_general(x, ea1 + eb1, p());
        lemma_add_mod_noop_right(pad(a, 0) + pad(b, 0), x * ((ea1 + eb1) % p()), p());
        lemma_add_mod_noop_right(pad(a, 0) + pad(b, 0), x * (ea1 + eb1), p());
        lemma_mod_twice(pad(a, 0) + pad(b, 0), p());
        lemma_add_mod_noop(pad(a, 0) + pad(b, 0), x * ((ea1 + eb1) % p()), p());
        assert(x * (ea1 + eb1) == x * ea1 + x * eb1) by (nonlinear_arith);
        assert(eval_at(c, x) == (pad(a, 0) + pad(b, 0) + x * ea1 + x * eb1) % p());
        // RHS folds the same way.
        lemma_add_mod_noop(pad(a, 0) + x * ea1, pad(b, 0) + x * eb1, p());
    }
}

/// Coefficient-wise difference subtracts the values at every point.
#[verifier::rlimit(100)]
#[verifier::spinoff_prover]
pub proof fn lemma_eval_sub(a: Seq<int>, b: Seq<int>, c: Seq<int>, x: int)
    requires
        c.len() == if a.len() >= b.len() {
            a.len()
        } else {
            b.len()
        },
        forall|i: int| 0 <= i < c.len() ==> #[trigger] c[i] == (pad(a, i) - pad(b, i)) % p(),
    ensures
        eval_at(c, x) == (eval_at(a, x) - eval_at(b, x)) % p(),
    decreases c.len(),
{
    if c.len() == 0 {
        lemma_small_mod(0, p() as nat);
    } else {
        let a1 = if a.len() > 0 { a.drop_first() } else { a };
        let b1 = if b.len() > 0 { b.drop_first() } else { b };
        let c1 = c.drop_first();
        assert forall|i: int| 0 <= i < c1.len() implies #[trigger] c1[i] == (pad(a1, i) - pad(
            b1,
            i,
        )) % p() by {
            assert(c1[i] == c[i + 1]);
            assert(pad(a1, i) == pad(a, i + 1));
            assert(pad(b1, i) == pad(b, i + 1));
        }
        lemma_eval_sub(a1, b1, c1, x);
        let ea1 = eval_at(a1, x);
        let eb1 = eval_at(b1, x);
        assert(eval_at(a, x) == (pad(a, 0) + x * ea1) % p()) by {
            if a.len() == 0 {
                lemma_small_mod(0, p() as nat);
            } else {
                assert(eval_at(a, x) == (a[0] + x * eval_at(a.drop_first(), x)) % p());
            }
        }
        assert(eval_at(b, x) == (pad(b, 0) + x * eb1) % p()) by {
            if b.len() == 0 {
                lemma_small_mod(0, p() as nat);
            } else {
                assert(eval_at(b, x) == (b[0] + x * eval_at(b.drop_first(), x)) % p());
            }
        }
        lemma_mul_mod_noop_general(x, ea1 - eb1, p());
        lemma_add_mod_noop_right(pad(a, 0) - pad(b, 0), x * ((ea1 - eb1) % p()), p());
        lemma_add_mod_noop_right(pad(a, 0) - pad(b, 0), x * (ea1 - eb1), p());
        assert(x * (ea1 - eb1) == x * ea1 - x * eb1) by (nonlinear_arith);
        assert(eval_at(c, x) == (pad(a, 0) - pad(b, 0) + x * ea1 - x * eb1) % p());
        lemma_sub_mod_noop(pad(a, 0) + x * ea1, pad(b, 0) + x * eb1, p());
    }
}

/// Multiplying by `X - z` multiplies the value at `x` by `x - z`.
pub proof fn lemma_mul_linear_recompose(cin: Seq<int>, cout: Seq<int>, z: int, x: int)
    requires
        reduced(cin),
        cin.len() >= 1,
        cout.len() == cin.len() + 1,
        forall|i: int| 0 <= i < cout.len() ==> #[trigger] cout[i] == (pad(cin, i - 1) - z * pad(
            cin,
            i,
        )) % p(),
    ensures
        eval_at(cout, x) == ((x - z) * eval_at(cin, x)) % p(),
{
    assert forall|i: int| 0 <= i < cin.len() implies #[trigger] cin[i] == (pad(cout, i + 1) + z
        * pad(cin, i + 1)) % p() by {
        assert(cout[i + 1] == (pad(cin, i) - z * pad(cin, i + 1)) % p());
        lemma_add_mod_noop_right(z * pad(cin, i + 1), pad(cin, i) - z * pad(cin, i + 1), p());
        lemma_small_mod(cin[i] as nat, p() as nat);
    }
    assert((pad(cout, 0) + z * pad(cin, 0)) % p() == 0) by {
        assert(cout[0] == (0 - z * pad(cin, 0)) % p());
        lemma_add_mod_noop_right(z * pad(cin, 0), 0 - z * pad(cin, 0), p());
        lemma_small_mod(0, p() as nat);
    }
    lemma_divide_recompose(cout, cin, z, 0, x);
}

/// A dense polynomial: ordered coefficients, constant term first.
#[derive(Debug)]
pub struct Poly {
    coeffs: Vec<Scalar>,
}

impl View for Poly {
    type V = Seq<int>;

    closed spec fn view(&self) -> Seq<int> {
        self.coeffs@.map_values(|s: Scalar| s@)
    }
}

impl Poly {
    /// Every coefficient is a well-formed scalar.
    pub closed spec fn wf(&self) -> bool {
        forall|i: int| 0 <= i < self.coeffs@.len() ==> (#[trigger] self.coeffs@[i]).wf()
    }

    pub proof fn lemma_wf_reduced(&self)
        requires
            self.wf(),
        ensures
            reduced(self@),
    {
        assert forall|i: int| 0 <= i < self@.len() implies 0 <= #[trigger] self@[i] < p() by {
            assert(self@[i] == self.coeffs@[i]@);
        }
    }

    /// The polynomial with the given coefficients.
    pub fn from_coeffs(coeffs: Vec<Scalar>) -> (r: Poly)
        requires
            forall|i: int| 0 <= i < coeffs@.len() ==> (#[trigger] coeffs@[i]).wf(),
        ensures
            r.wf(),
            r@.len() == coeffs@.len(),
            forall|i: int| 0 <= i < coeffs@.len() ==> r@[i] == (#[trigger] coeffs@[i])@,
    {
        Poly { coeffs }
    }

    /// The coefficients as small integers, for tests and witnesses.
    pub fn from_u128s(vals: &Vec<u128>) -> (r: Poly)
        ensures
            r.wf(),
            r@.len() == vals@.len(),
            forall|i: int| 0 <= i < vals@.len() ==> r@[i] == (#[trigger] vals@[i]) as int,
    {
        let mut coeffs: Vec<Scalar> = Vec::new();
        let mut i: usize = 0;
        while i < vals.len()
            invariant
                0 <= i <= vals@.len(),
                coeffs@.len() == i,
                forall|j: int| 0 <= j < i ==> (#[trigger] coeffs@[j]).wf(),
                forall|j: int| 0 <= j < i ==> (#[trigger] coeffs@[j])@ == vals@[j] as int,
            decreases vals@.len() - i,
        {
            coeffs.push(Scalar::from_u128(vals[i]));
            i += 1;
        }
        Poly { coeffs }
    }

    pub fn len(&self) -> (r: usize)
        ensures
            r == self@.len(),
    {
        self.coeffs.len()
    }

    /// The coefficient at `i`, copied out.
    pub fn coeff(&self, i: usize) -> (r: Scalar)
        requires
            self.wf(),
            i < self@.len(),
        ensures
            r.wf(),
            r@ == self@[i as int],
    {
        self.coeffs[i].dup()
    }

    /// An explicit copy: same coefficients, well formed.
    pub fn dup(&self) -> (r: Poly)
        requires
            self.wf(),
        ensures
            r.wf(),
            r@ =~= self@,
    {
        let mut coeffs: Vec<Scalar> = Vec::new();
        let mut i: usize = 0;
        while i < self.coeffs.len()
            invariant
                self.wf(),
                0 <= i <= self.coeffs@.len(),
                coeffs@.len() == i,
                forall|j: int| 0 <= j < i ==> (#[trigger] coeffs@[j]).wf(),
                forall|j: int| 0 <= j < i ==> (#[trigger] coeffs@[j])@ == self.coeffs@[j]@,
            decreases self.coeffs@.len() - i,
        {
            coeffs.push(self.coeffs[i].dup());
            i += 1;
        }
        let r = Poly { coeffs };
        proof {
            assert(r@ =~= self@);
        }
        r
    }

    /// Horner evaluation at `x`; the result is exactly `eval_at` of the view.
    pub fn eval(&self, x: &Scalar) -> (r: Scalar)
        requires
            self.wf(),
            x.wf(),
        ensures
            r.wf(),
            r@ == eval_at(self@, x@),
    {
        let mut acc = Scalar::zero();
        let mut i: usize = self.coeffs.len();
        proof {
            assert(self@.skip(i as int) =~= Seq::<int>::empty());
        }
        while i > 0
            invariant
                self.wf(),
                x.wf(),
                acc.wf(),
                0 <= i <= self@.len(),
                acc@ == eval_at(self@.skip(i as int), x@),
            decreases i,
        {
            i = i - 1;
            let t = Scalar::mul(&acc, x);
            let acc2 = Scalar::add(&t, &self.coeffs[i]);
            proof {
                let s = self@.skip(i as int);
                assert(s.len() > 0);
                assert(s[0] == self@[i as int]);
                assert(s.drop_first() =~= self@.skip(i as int + 1));
                assert(self@[i as int] == self.coeffs@[i as int]@);
                let e = eval_at(self@.skip(i as int + 1), x@);
                lemma_eval_bound(self@.skip(i as int + 1), x@);
                // acc2 == ((acc * x) % p + c_i) % p == (c_i + x * e) % p
                lemma_add_mod_noop(acc@ * x@, self@[i as int], p());
                lemma_mod_twice(acc@ * x@, p());
                lemma_small_mod(self@[i as int] as nat, p() as nat);
                assert(acc2@ == (acc@ * x@ + self@[i as int]) % p());
                assert(acc@ * x@ == x@ * e) by (nonlinear_arith)
                    requires acc@ == e;
                assert(acc2@ == eval_at(s, x@));
            }
            acc = acc2;
        }
        proof {
            assert(self@.skip(0) =~= self@);
        }
        acc
    }

    /// Multiplication by the monic linear factor `X - z`.
    pub fn mul_linear(&self, z: &Scalar) -> (r: Poly)
        requires
            self.wf(),
            z.wf(),
            self@.len() >= 1,
        ensures
            r.wf(),
            r@.len() == self@.len() + 1,
            forall|i: int| 0 <= i < r@.len() ==> #[trigger] r@[i] == (pad(self@, i - 1) - z@
                * pad(self@, i)) % p(),
    {
        let n = self.coeffs.len();
        let mut out: Vec<Scalar> = Vec::new();
        let c0 = Scalar::mul(z, &self.coeffs[0]);
        let first = Scalar::sub(&Scalar::zero(), &c0);
        proof {
            lemma_sub_mod_noop_right(0, z@ * self@[0], p());
            assert(self@[0] == self.coeffs@[0]@);
        }
        out.push(first);
        let mut i: usize = 1;
        while i < n
            invariant
                self.wf(),
                z.wf(),
                n == self@.len(),
                1 <= i <= n,
                out@.len() == i,
                forall|j: int| 0 <= j < i ==> (#[trigger] out@[j]).wf(),
                forall|j: int| 0 <= j < i ==> (#[trigger] out@[j])@ == (pad(self@, j - 1) - z@
                    * pad(self@, j)) % p(),
            decreases n - i,
        {
            let t = Scalar::mul(z, &self.coeffs[i]);
            let v = Scalar::sub(&self.coeffs[i - 1], &t);
            proof {
                lemma_sub_mod_noop_right(self@[i - 1], z@ * self@[i as int], p());
                assert(self@[i as int] == self.coeffs@[i as int]@);
                assert(self@[i - 1] == self.coeffs@[i - 1]@);
            }
            out.push(v);
            i += 1;
        }
        let last = self.coeffs[n - 1].dup();
        proof {
            lemma_small_mod(self@[n - 1] as nat, p() as nat);
            assert((pad(self@, n - 1) - z@ * pad(self@, n as int)) % p() == self@[n - 1] % p());
        }
        out.push(last);
        let r = Poly { coeffs: out };
        proof {
            assert forall|i2: int| 0 <= i2 < r@.len() implies #[trigger] r@[i2] == (pad(
                self@,
                i2 - 1,
            ) - z@ * pad(self@, i2)) % p() by {
                assert(r@[i2] == r.coeffs@[i2]@);
            }
        }
        r
    }

    /// Synthetic division by `X - z`: quotient and remainder. The remainder
    /// is exactly the value of the polynomial at `z`, and the quotient
    /// recomposes the dividend at every point.
    #[verifier::rlimit(100)]
    pub fn divide_linear(&self, z: &Scalar) -> (res: (Poly, Scalar))
        requires
            self.wf(),
            z.wf(),
            self@.len() >= 1,
        ensures
            res.0.wf(),
            res.1.wf(),
            res.0@.len() == self@.len() - 1,
            forall|x: int|
                eval_at(self@, x) == ((x - z@) * eval_at(res.0@, x) + res.1@) % p(),
            res.1@ == eval_at(self@, z@),
    {
        let n = self.coeffs.len();
        // Quotient coefficients, highest first.
        let mut qrev: Vec<Scalar> = Vec::new();
        let mut i: usize = n - 1;
        // qrev[j] holds q[n - 2 - j]; q[i] == c[i + 1] + z * q[i + 1].
        while i > 0
            invariant
                self.wf(),
                z.wf(),
                n == self@.len(),
                n >= 1,
                0 <= i <= n - 1,
                qrev@.len() == n - 1 - i,
                forall|j: int| 0 <= j < qrev@.len() ==> (#[trigger] qrev@[j]).wf(),
                forall|j: int| 0 <= j < qrev@.len() ==> (#[trigger] qrev@[j])@ == (pad(
                    self@,
                    n - 1 - j,
                ) + z@ * (if j == 0 { 0 } else { qrev@[j - 1]@ })) % p(),
            decreases i,
        {
            let prev = if qrev.len() == 0 {
                Scalar::zero()
            } else {
                qrev[qrev.len() - 1].dup()
            };
            let t = Scalar::mul(z, &prev);
            let v = Scalar::add(&self.coeffs[i], &t);
            proof {
                lemma_add_mod_noop_right(self@[i as int], z@ * prev@, p());
                assert(self@[i as int] == self.coeffs@[i as int]@);
            }
            qrev.push(v);
            i -= 1;
        }
        // Reverse into ascending order.
        let m = qrev.len();
        let mut q: Vec<Scalar> = Vec::new();
        let mut k: usize = 0;
        while k < m
            invariant
                m == qrev@.len(),
                forall|j: int| 0 <= j < qrev@.len() ==> (#[trigger] qrev@[j]).wf(),
                0 <= k <= m,
                q@.len() == k,
                forall|j: int| 0 <= j < k ==> (#[trigger] q@[j])@ == qrev@[m - 1 - j]@,
                forall|j: int| 0 <= j < k ==> (#[trigger] q@[j]).wf(),
            decreases m - k,
        {
            q.push(qrev[m - 1 - k].dup());
            k += 1;
        }
        let qp = Poly { coeffs: q };
        let q0 = if m == 0 {
            Scalar::zero()
        } else {
            qp.coeffs[0].dup()
        };
        let t = Scalar::mul(z, &q0);
        let rem = Scalar::add(&self.coeffs[0], &t);
        proof {
            lemma_add_mod_noop_right(self@[0], z@ * q0@, p());
            assert(self@[0] == self.coeffs@[0]@);
            assert(q0@ == pad(qp@, 0));
            assert(rem@ == (pad(self@, 0) + z@ * pad(qp@, 0)) % p());
            assert forall|i2: int| 0 <= i2 < qp@.len() implies #[trigger] qp@[i2] == (pad(
                self@,
                i2 + 1,
            ) + z@ * pad(qp@, i2 + 1)) % p() by {
                assert(qp@[i2] == qp.coeffs@[i2]@);
                assert(qp.coeffs@[i2]@ == qrev@[m - 1 - i2]@);
                if i2 + 1 < qp@.len() {
                    assert(qp@[i2 + 1] == qp.coeffs@[i2 + 1]@);
                    assert(qp.coeffs@[i2 + 1]@ == qrev@[m - 2 - i2]@);
                }
            }
            assert forall|x: int|
                eval_at(self@, x) == ((x - z@) * eval_at(qp@, x) + rem@) % p() by {
                lemma_divide_recompose(self@, qp@, z@, rem@, x);
            }
            // The remainder is the evaluation at z.
            lemma_divide_recompose(self@, qp@, z@, rem@, z@);
            lemma_eval_bound(qp@, z@);
            assert((z@ - z@) * eval_at(qp@, z@) == 0) by (nonlinear_arith);
            lemma_small_mod(rem@ as nat, p() as nat);
        }
        (qp, rem)
    }

    /// Every coefficient multiplied by `s`.
    pub fn scale(&self, s: &Scalar) -> (r: Poly)
        requires
            self.wf(),
            s.wf(),
        ensures
            r.wf(),
            r@.len() == self@.len(),
            forall|i: int| 0 <= i < r@.len() ==> #[trigger] r@[i] == (s@ * self@[i]) % p(),
    {
        let mut out: Vec<Scalar> = Vec::new();
        let mut i: usize = 0;
        while i < self.coeffs.len()
            invariant
                self.wf(),
                s.wf(),
                0 <= i <= self@.len(),
                out@.len() == i,
                forall|j: int| 0 <= j < i ==> (#[trigger] out@[j]).wf(),
                forall|j: int| 0 <= j < i ==> (#[trigger] out@[j])@ == (s@ * self@[j]) % p(),
            decreases self@.len() - i,
        {
            let v = Scalar::mul(s, &self.coeffs[i]);
            proof {
                assert(self@[i as int] == self.coeffs@[i as int]@);
            }
            out.push(v);
            i += 1;
        }
        let r = Poly { coeffs: out };
        proof {
            assert forall|i2: int| 0 <= i2 < r@.len() implies #[trigger] r@[i2] == (s@
                * self@[i2]) % p() by {
                assert(r@[i2] == r.coeffs@[i2]@);
            }
        }
        r
    }

    /// Coefficient-wise sum, the shorter operand padded with zeros.
    pub fn add_padded(&self, other: &Poly) -> (r: Poly)
        requires
            self.wf(),
            other.wf(),
        ensures
            r.wf(),
            r@.len() == if self@.len() >= other@.len() { self@.len() } else { other@.len() },
            forall|i: int| 0 <= i < r@.len() ==> #[trigger] r@[i] == (pad(self@, i) + pad(
                other@,
                i,
            )) % p(),
    {
        let n = if self.coeffs.len() >= other.coeffs.len() {
            self.coeffs.len()
        } else {
            other.coeffs.len()
        };
        let mut out: Vec<Scalar> = Vec::new();
        let mut i: usize = 0;
        while i < n
            invariant
                self.wf(),
                other.wf(),
                n == if self@.len() >= other@.len() { self@.len() } else { other@.len() },
                0 <= i <= n,
                out@.len() == i,
                forall|j: int| 0 <= j < i ==> (#[trigger] out@[j]).wf(),
                forall|j: int| 0 <= j < i ==> (#[trigger] out@[j])@ == (pad(self@, j) + pad(
                    other@,
                    j,
                )) % p(),
            decreases n - i,
        {
            let a = if i < self.coeffs.len() {
                self.coeffs[i].dup()
            } else {
                Scalar::zero()
            };
            let b = if i < other.coeffs.len() {
                other.coeffs[i].dup()
            } else {
                Scalar::zero()
            };
            proof {
                if i < self@.len() {
                    assert(self@[i as int] == self.coeffs@[i as int]@);
                }
                if i < other@.len() {
                    assert(other@[i as int] == other.coeffs@[i as int]@);
                }
            }
            out.push(Scalar::add(&a, &b));
            i += 1;
        }
        let r = Poly { coeffs: out };
        proof {
            assert forall|i2: int| 0 <= i2 < r@.len() implies #[trigger] r@[i2] == (pad(
                self@,
                i2,
            ) + pad(other@, i2)) % p() by {
                assert(r@[i2] == r.coeffs@[i2]@);
            }
        }
        r
    }

    /// Coefficient-wise difference, the shorter operand padded with zeros.
    pub fn sub_padded(&self, other: &Poly) -> (r: Poly)
        requires
            self.wf(),
            other.wf(),
        ensures
            r.wf(),
            r@.len() == if self@.len() >= other@.len() { self@.len() } else { other@.len() },
            forall|i: int| 0 <= i < r@.len() ==> #[trigger] r@[i] == (pad(self@, i) - pad(
                other@,
                i,
            )) % p(),
    {
        let n = if self.coeffs.len() >= other.coeffs.len() {
            self.coeffs.len()
        } else {
            other.coeffs.len()
        };
        let mut out: Vec<Scalar> = Vec::new();
        let mut i: usize = 0;
        while i < n
            invariant
                self.wf(),
                other.wf(),
                n == if self@.len() >= other@.len() { self@.len() } else { other@.len() },
                0 <= i <= n,
                out@.len() == i,
                forall|j: int| 0 <= j < i ==> (#[trigger] out@[j]).wf(),
                forall|j: int| 0 <= j < i ==> (#[trigger] out@[j])@ == (pad(self@, j) - pad(
                    other@,
                    j,
                )) % p(),
            decreases n - i,
        {
            let a = if i < self.coeffs.len() {
                self.coeffs[i].dup()
            } else {
                Scalar::zero()
            };
            let b = if i < other.coeffs.len() {
                other.coeffs[i].dup()
            } else {
                Scalar::zero()
            };
            proof {
                if i < self@.len() {
                    assert(self@[i as int] == self.coeffs@[i as int]@);
                }
                if i < other@.len() {
                    assert(other@[i as int] == other.coeffs@[i as int]@);
                }
            }
            out.push(Scalar::sub(&a, &b));
            i += 1;
        }
        let r = Poly { coeffs: out };
        proof {
            assert forall|i2: int| 0 <= i2 < r@.len() implies #[trigger] r@[i2] == (pad(
                self@,
                i2,
            ) - pad(other@, i2)) % p() by {
                assert(r@[i2] == r.coeffs@[i2]@);
            }
        }
        r
    }

    /// The vanishing polynomial of the given points: the product of the
    /// monic linear factors `X - s` over them. Duplicate points yield a
    /// non-square-free product; the contract below holds regardless, so
    /// duplicates are a caller's semantic mistake, not a runtime error.
    pub fn vanishing(points: &Vec<Scalar>) -> (r: Poly)
        requires
            forall|i: int| 0 <= i < points@.len() ==> (#[trigger] points@[i]).wf(),
        ensures
            r.wf(),
            r@.len() == points@.len() + 1,
            forall|j: int| 0 <= j < points@.len() ==> eval_at(r@, (#[trigger] points@[j])@)
                == 0,
            forall|x: int| #[trigger] eval_at(r@, x) == prod_linear(vals_of(points@), x),
    {
        let mut one: Vec<Scalar> = Vec::new();
        one.push(Scalar::one());
        let mut acc = Poly { coeffs: one };
        let mut k: usize = 0;
        proof {
            assert(acc@.len() == 1);
            assert(acc@[0] == acc.coeffs@[0]@);
            assert(vals_of(points@).take(0) =~= Seq::<int>::empty());
            assert forall|x: int| #[trigger] eval_at(acc@, x) == prod_linear(
                vals_of(points@).take(0),
                x,
            ) by {
                lemma_eval_all_zero(acc@.drop_first(), x);
                assert(eval_at(acc@, x) == (1 + x * 0) % p());
                lemma_small_mod(1, p() as nat);
            }
        }
        while k < points.len()
            invariant
                forall|i: int| 0 <= i < points@.len() ==> (#[trigger] points@[i]).wf(),
                acc.wf(),
                0 <= k <= points@.len(),
                acc@.len() == k + 1,
                forall|j: int| 0 <= j < k ==> eval_at(acc@, (#[trigger] points@[j])@) == 0,
                forall|x: int| #[trigger] eval_at(acc@, x) == prod_linear(
                    vals_of(points@).take(k as int),
                    x,
                ),
            decreases points@.len() - k,
        {
            let ghost prev = acc@;
            let next = acc.mul_linear(&points[k]);
            proof {
                acc.lemma_wf_reduced();
                assert forall|j: int| 0 <= j < k + 1 implies eval_at(
                    next@,
                    (#[trigger] points@[j])@,
                ) == 0 by {
                    lemma_mul_linear_recompose(prev, next@, points@[k as int]@, points@[j]@);
                    if j < k {
                        assert(((points@[j]@ - points@[k as int]@) * 0) % p() == 0) by {
                            lemma_small_mod(0, p() as nat);
                        }
                    } else {
                        let e = eval_at(prev, points@[j]@);
                        assert((points@[j]@ - points@[k as int]@) * e == 0) by (nonlinear_arith)
                            requires points@[j]@ == points@[k as int]@;
                        lemma_small_mod(0, p() as nat);
                    }
                }
                assert forall|x: int| #[trigger] eval_at(next@, x) == prod_linear(
                    vals_of(points@).take(k + 1),
                    x,
                ) by {
                    let zk = points@[k as int]@;
                    lemma_mul_linear_recompose(prev, next@, zk, x);
                    assert(vals_of(points@).take(k + 1).drop_last() =~= vals_of(
                        points@,
                    ).take(k as int));
                    assert(vals_of(points@).take(k + 1).last() == vals_of(points@)[
                        k as int]);
                    assert(vals_of(points@)[k as int] == zk);
                    let e = eval_at(prev, x);
                    assert((x - zk) * e == e * (x - zk)) by (nonlinear_arith);
                }
            }
            acc = next;
            k += 1;
        }
        proof {
            assert(vals_of(points@).take(points@.len() as int) =~= vals_of(points@));
        }
        acc
    }

    /// Lagrange interpolation: the unique polynomial of degree below the
    /// domain size that takes the given value at each domain point. The
    /// returned polynomial reproduces every value exactly; mismatched
    /// lengths and duplicated domain points are rejected.
    #[verifier::rlimit(100)]
    pub fn interpolate(domain: &Vec<Scalar>, values: &Vec<Scalar>) -> (r: Result<
        Poly,
        SolvencyError,
    >)
        requires
            forall|i: int| 0 <= i < domain@.len() ==> (#[trigger] domain@[i]).wf(),
            forall|i: int| 0 <= i < values@.len() ==> (#[trigger] values@[i]).wf(),
        ensures
            (domain@.len() != values@.len()) <==> r == Err::<Poly, SolvencyError>(
                SolvencyError::DimensionMismatch,
            ),
            r matches Ok(l) ==> l.wf() && l@.len() == domain@.len() && forall|k: int|
                0 <= k < domain@.len() ==> eval_at(l@, (#[trigger] domain@[k])@)
                    == values@[k]@,
            domain@.len() == values@.len() ==> ((r == Err::<Poly, SolvencyError>(
                SolvencyError::InvalidPointSet,
            )) <==> has_dup(vals_of(domain@))),
            domain@.len() == values@.len() && !has_dup(vals_of(domain@)) ==> r is Ok,
    {
        let n = domain.len();
        if values.len() != n {
            return Err(SolvencyError::DimensionMismatch);
        }
        let mut zcoeffs: Vec<Scalar> = Vec::new();
        let mut zeros: usize = 0;
        while zeros < n
            invariant
                0 <= zeros <= n,
                zcoeffs@.len() == zeros,
                forall|j: int| 0 <= j < zeros ==> (#[trigger] zcoeffs@[j]).wf(),
                forall|j: int| 0 <= j < zeros ==> (#[trigger] zcoeffs@[j])@ == 0,
            decreases n - zeros,
        {
            zcoeffs.push(Scalar::zero());
            zeros += 1;
        }
        let mut acc = Poly { coeffs: zcoeffs };
        proof {
            assert forall|k: int| 0 <= k < n implies eval_at(acc@, (#[trigger] domain@[k])@)
                == 0 by {
                assert forall|t: int| 0 <= t < acc@.len() implies #[trigger] acc@[t] == 0 by {
                    assert(acc@[t] == acc.coeffs@[t]@);
                }
                lemma_eval_all_zero(acc@, domain@[k]@);
            }
        }
        let mut i: usize = 0;
        while i < n
            invariant
                forall|t: int| 0 <= t < domain@.len() ==> (#[trigger] domain@[t]).wf(),
                forall|t: int| 0 <= t < values@.len() ==> (#[trigger] values@[t]).wf(),
                n == domain@.len(),
                n == values@.len(),
                acc.wf(),
                0 <= i <= n,
                acc@.len() == n,
                forall|k: int| 0 <= k < n ==> eval_at(acc@, (#[trigger] domain@[k])@) == (
                if k < i {
                    values@[k]@
                } else {
                    0
                }),
                forall|i1: int, j: int|
                    0 <= i1 < i && 0 <= j < n && j != i1 ==> (#[trigger] domain@[i1])@ != (
                    #[trigger] domain@[j])@,
            decreases n - i,
        {
            // Build the numerator of the Lagrange basis for slot i, and its
            // denominator value, together.
            let mut numv: Vec<Scalar> = Vec::new();
            numv.push(Scalar::one());
            let mut num = Poly { coeffs: numv };
            let mut denom = Scalar::one();
            let mut invd = Scalar::one();
            let mut j: usize = 0;
            proof {
                lemma_small_mod(1, p() as nat);
            }
            proof {
                assert(num@.len() == 1);
                assert(num@[0] == num.coeffs@[0]@);
                lemma_eval_all_zero(num@.drop_first(), domain@[i as int]@);
                assert(eval_at(num@, domain@[i as int]@) == (1 + domain@[i as int]@ * 0)
                    % p());
                lemma_small_mod(1, p() as nat);
            }
            while j < n
                invariant
                    forall|t: int| 0 <= t < domain@.len() ==> (#[trigger] domain@[t]).wf(),
                    n == domain@.len(),
                    n == values@.len(),
                    0 <= i < n,
                    0 <= j <= n,
                    num.wf(),
                    denom.wf(),
                    invd.wf(),
                    (denom@ * invd@) % p() == 1,
                    num@.len() == (if j <= i { j + 1 } else { j as int }),
                    eval_at(num@, domain@[i as int]@) == denom@,
                    forall|t: int| 0 <= t < j && t != i ==> eval_at(
                        num@,
                        (#[trigger] domain@[t])@,
                    ) == 0,
                    forall|t: int| 0 <= t < j && t != i ==> (#[trigger] domain@[t])@
                        != domain@[i as int]@,
                decreases n - j,
            {
                if j != i {
                    let ghost prevnum = num@;
                    let ghost prevden = denom@;
                    let ghost previnv = invd@;
                    let diff = Scalar::sub(&domain[i], &domain[j]);
                    if diff.is_zero() {
                        proof {
                            lemma_mod_diff_zero(domain@[i as int]@, domain@[j as int]@);
                            assert(vals_of(domain@)[i as int] == domain@[i as int]@);
                            assert(vals_of(domain@)[j as int] == domain@[j as int]@);
                            assert(0 <= i < vals_of(domain@).len() && 0 <= j < vals_of(
                                domain@,
                            ).len() && i as int != j as int && vals_of(domain@)[i as int]
                                == vals_of(domain@)[j as int]);
                            assert(has_dup(vals_of(domain@)));
                        }
                        return Err(SolvencyError::InvalidPointSet);
                    }
                    let invdiff = Scalar::inv(&diff);
                    let next = num.mul_linear(&domain[j]);
                    let denom2 = Scalar::mul(&denom, &diff);
                    let invd2 = Scalar::mul(&invd, &invdiff);
                    proof {
                        // The two domain values differ: their reduced
                        // difference is nonzero.
                        if domain@[j as int]@ == domain@[i as int]@ {
                            lemma_small_mod(0, p() as nat);
                            assert(false);
                        }
                        // The inverse accumulator follows the product.
                        assert(diff@ * invdiff@ == invdiff@ * diff@) by (nonlinear_arith);
                        lemma_inv_product(prevden, diff@, previnv, invdiff@);
                        assert((denom2@ * invd2@) % p() == 1);
                        num.lemma_wf_reduced();
                        let zj = domain@[j as int]@;
                        let zi = domain@[i as int]@;
                        // Value at slot i picks up the factor (zi - zj).
                        lemma_mul_linear_recompose(prevnum, next@, zj, zi);
                        lemma_mul_mod_noop_general(prevden, zi - zj, p());
                        assert((zi - zj) * prevden == prevden * (zi - zj)) by (nonlinear_arith);
                        assert(denom2@ == (prevden * ((zi - zj) % p())) % p());
                        assert(eval_at(next@, zi) == denom2@);
                        // Previously zeroed slots stay zero; slot j becomes zero.
                        assert forall|t: int| 0 <= t < j + 1 && t != i implies eval_at(
                            next@,
                            (#[trigger] domain@[t])@,
                        ) == 0 by {
                            let zt = domain@[t]@;
                            lemma_mul_linear_recompose(prevnum, next@, zj, zt);
                            if t < j {
                                assert((zt - zj) * 0 == 0) by (nonlinear_arith);
                                lemma_small_mod(0, p() as nat);
                            } else {
                                let e = eval_at(prevnum, zt);
                                assert((zt - zj) * e == 0) by (nonlinear_arith)
                                    requires zt == zj;
                                lemma_small_mod(0, p() as nat);
                            }
                        }
                    }
                    num = next;
                    denom = denom2;
                    invd = invd2;
                }
                j += 1;
            }
            let s = Scalar::mul(&values[i], &invd);
            let term = num.scale(&s);
            let ghost accprev = acc@;
            let acc2 = acc.add_padded(&term);
            proof {
                num.lemma_wf_reduced();
                let zi = domain@[i as int]@;
                let vi = values@[i as int]@;
                assert forall|k: int| 0 <= k < n implies eval_at(
                    acc2@,
                    (#[trigger] domain@[k])@,
                ) == (if k < i + 1 {
                    values@[k]@
                } else {
                    0
                }) by {
                    let zk = domain@[k]@;
                    lemma_eval_scale(num@, term@, s@, zk);
                    lemma_eval_add(accprev, term@, acc2@, zk);
                    lemma_eval_bound(accprev, zk);
                    if k == i {
                        // s * denom == vi modulo p.
                        assert(eval_at(term@, zk) == (s@ * denom@) % p());
                        lemma_mul_mod_noop_general(vi * invd@, denom@, p());
                        assert((vi * invd@) * denom@ == vi * (invd@ * denom@))
                            by (nonlinear_arith);
                        lemma_mul_mod_noop_general(vi, invd@ * denom@, p());
                        assert(invd@ * denom@ == denom@ * invd@) by (nonlinear_arith);
                        assert((invd@ * denom@) % p() == 1);
                        assert(eval_at(term@, zk) == (vi * 1) % p());
                        lemma_small_mod(vi as nat, p() as nat);
                        assert(eval_at(acc2@, zk) == (0 + vi) % p());
                    } else {
                        assert(eval_at(num@, zk) == 0);
                        assert(s@ * 0 == 0) by (nonlinear_arith);
                        lemma_small_mod(0, p() as nat);
                        assert(eval_at(term@, zk) == 0);
                        if k < i {
                            lemma_small_mod(values@[k]@ as nat, p() as nat);
                            assert(eval_at(acc2@, zk) == (values@[k]@ + 0) % p());
                        } else {
                            lemma_small_mod(0, p() as nat);
                        }
                    }
                }
                // No duplicate involves slot i: every difference against
                // it was checked nonzero on the way here.
                assert forall|j2: int| 0 <= j2 < n && j2 != i implies (#[trigger] domain@[
                    j2])@ != domain@[i as int]@ by {}
            }
            acc = acc2;
            i += 1;
        }
        proof {
            if has_dup(vals_of(domain@)) {
                let (a, b): (int, int) = choose|a: int, b: int|
                    0 <= a < n && 0 <= b < n && a != b && vals_of(domain@)[a] == vals_of(
                        domain@,
                    )[b];
                assert(vals_of(domain@)[a] == domain@[a]@);
                assert(vals_of(domain@)[b] == domain@[b]@);
                assert(false);
            }
        }
        Ok(acc)
    }
}

/// Residues with a vanishing difference are equal.
pub proof fn lemma_mod_diff_zero(a: int, b: int)
    requires
        0 <= a < p(),
        0 <= b < p(),
        (a - b) % p() == 0,
    ensures
        a == b,
{
    if a >= b {
        lemma_small_mod((a - b) as nat, p() as nat);
    } else {
        vstd::arithmetic::div_mod::lemma_mod_add_multiples_vanish(a - b, p());
        lemma_small_mod((a - b + p()) as nat, p() as nat);
    }
}

/// Inverses multiply: a product of invertible residues keeps an
/// explicit inverse witness.
pub proof fn lemma_inv_product(d: int, f: int, v: int, w: int)
    requires
        (d * v) % p() == 1,
        (f * w) % p() == 1,
    ensures
        (((d * f) % p()) * ((v * w) % p())) % p() == 1,
{
    lemma_mul_mod_noop_general(d * f, v * w, p());
    assert((d * f) * (v * w) == (d * v) * (f * w)) by (nonlinear_arith);
    lemma_mul_mod_noop_general(d * v, f * w, p());
    lemma_small_mod(1, p() as nat);
}

/// A residue killed by an invertible factor is zero.
pub proof fn lemma_cancel_invertible(a: int, w: int, r: int)
    requires
        0 <= r < p(),
        (a * w) % p() == 1,
        (a * r) % p() == 0,
    ensures
        r == 0,
{
    lemma_mul_mod_noop_general(r, a * w, p());
    lemma_small_mod(r as nat, p() as nat);
    assert((r * (a * w)) % p() == r);
    assert(r * (a * w) == (a * r) * w) by (nonlinear_arith);
    lemma_mul_mod_noop_general(a * r, w, p());
    assert((((a * r) % p()) * w) % p() == r);
    assert(0 * w == 0) by (nonlinear_arith);
    lemma_small_mod(0, p() as nat);
}

/// The product of the monic linear factors `x - pts[t]`, reduced.
pub open spec fn prod_linear(pts: Seq<int>, x: int) -> int
    decreases pts.len(),
{
    if pts.len() == 0 {
        1
    } else {
        (prod_linear(pts.drop_last(), x) * (x - pts.last())) % p()
    }
}

/// The product vanishes at each of its points.
pub proof fn lemma_prod_vanish(pts: Seq<int>, t: int)
    requires
        0 <= t < pts.len(),
    ensures
        prod_linear(pts, pts[t]) == 0,
    decreases pts.len(),
{
    let x = pts[t];
    if t == pts.len() - 1 {
        assert(prod_linear(pts.drop_last(), x) * (x - x) == 0) by (nonlinear_arith);
        lemma_small_mod(0, p() as nat);
    } else {
        assert(pts.drop_last()[t] == pts[t]);
        lemma_prod_vanish(pts.drop_last(), t);
        assert(0 * (x - pts.last()) == 0) by (nonlinear_arith);
        lemma_small_mod(0, p() as nat);
    }
}

/// A polynomial whose coefficients are all zero is zero everywhere.
pub proof fn lemma_eval_all_zero(c: Seq<int>, x: int)
    requires
        forall|i: int| 0 <= i < c.len() ==> #[trigger] c[i] == 0,
    ensures
        eval_at(c, x) == 0,
    decreases c.len(),
{
    if c.len() > 0 {
        let c1 = c.drop_first();
        assert forall|i: int| 0 <= i < c1.len() implies #[trigger] c1[i] == 0 by {
            assert(c1[i] == c[i + 1]);
        }
        lemma_eval_all_zero(c1, x);
        assert(x * 0 == 0) by (nonlinear_arith);
        lemma_small_mod(0, p() as nat);
    }
}

} // verus!
