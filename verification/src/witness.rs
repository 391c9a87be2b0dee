//! The witness tables derived from user records.
//!
//! The `P` table interleaves the hashed identifier and the balance of
//! user `k` at slots `2k` and `2k + 1`. The `I` table gives each user a
//! 16-slot block: the block start is a checkpoint holding zero — the core
//! solvency invariant — slot `16k + 14` holds the balance, and slot
//! `16k + 15` holds the running difference whose telescoping ties each
//! balance to the two neighbouring audit slots.

use vstd::prelude::*;
use vstd::utf8::encode_utf8;
use crate::field::{bytes_val, p, pow2int, Scalar};
use crate::merkle::keccak_of;
use crate::poly::{eval_at, Poly};

verus! {

/// One user record: an identifier and a balance.
#[derive(Debug)]
pub struct UserRecord {
    pub username: String,
    pub balance: u64,
}

/// The field value of a hashed identifier.
pub open spec fn id_hash_val(username: Seq<char>) -> int {
    bytes_val(keccak_of(encode_utf8(username))) % p()
}

/// Hashes an identifier into the scalar field.
pub fn hash_identifier(username: &String) -> (r: Scalar)
    ensures
        r.wf(),
        r@ == id_hash_val(username@),
{
    let digest = crate::merkle::keccak256(&username.as_str().as_bytes_vec());
    Scalar::from_le_bytes_reduce(&digest)
}

/// Derives the two witness tables. Every claim of the block layout is in
/// the contract: checkpoints are zero, the balance sits at its audit
/// slot, and each balance equals the sum of its two audit neighbours.
pub fn generate_witness(users: &Vec<UserRecord>) -> (r: (Vec<Scalar>, Vec<Scalar>))
    requires
        users@.len() >= 1,
        users@.len() <= 0x0400_0000,
    ensures
        ({
            let (pt, it) = r;
            &&& pt@.len() == 2 * users@.len()
            &&& it@.len() == 16 * users@.len()
            &&& forall|k: int| 0 <= k < pt@.len() ==> (#[trigger] pt@[k]).wf()
            &&& forall|k: int| 0 <= k < it@.len() ==> (#[trigger] it@[k]).wf()
            &&& forall|k: int| 0 <= k < users@.len() ==> pt@[2 * k]@ == id_hash_val(
                (#[trigger] users@[k]).username@,
            )
            &&& forall|k: int| 0 <= k < users@.len() ==> pt@[2 * k + 1]@ == (
            #[trigger] users@[k]).balance as int
            &&& forall|k: int| 0 <= k < users@.len() ==> (#[trigger] it@[16 * k])@ == 0
            &&& forall|k: int| 0 <= k < users@.len() ==> (#[trigger] it@[16 * k + 14])@ == (
            users@[k]).balance as int
            &&& forall|k: int| 1 <= k < users@.len() ==> (#[trigger] it@[16 * k + 14])@ == (
            it@[16 * k + 15]@ + it@[16 * k - 1]@) % p()
            &&& forall|k: int, jj: int| 0 <= k < users@.len() && 1 <= jj <= 13 ==> (
            #[trigger] it@[16 * k + jj])@ == 0
            &&& it@[15]@ == users@[0].balance as int
        }),
{
    let n = users.len();
    let mut pt: Vec<Scalar> = Vec::new();
    let mut k: usize = 0;
    while k < n
        invariant
            n == users@.len(),
            n <= 0x0400_0000,
            0 <= k <= n,
            pt@.len() == 2 * k,
            forall|t: int| 0 <= t < pt@.len() ==> (#[trigger] pt@[t]).wf(),
            forall|t: int| 0 <= t < k ==> pt@[2 * t]@ == id_hash_val(
                (#[trigger] users@[t]).username@,
            ),
            forall|t: int| 0 <= t < k ==> pt@[2 * t + 1]@ == (#[trigger] users@[t]).balance
                as int,
        decreases n - k,
    {
        pt.push(hash_identifier(&users[k].username));
        pt.push(Scalar::from_u128(users[k].balance as u128));
        k += 1;
    }
    let mut it: Vec<Scalar> = Vec::new();
    // The running difference: at user k it holds the value of slot
    // 16k + 15, so that balance = this + the previous block's last slot.
    let mut run = Scalar::zero();
    let mut k2: usize = 0;
    while k2 < n
        invariant
            n == users@.len(),
            n <= 0x0400_0000,
            0 <= k2 <= n,
            it@.len() == 16 * k2,
            run.wf(),
            k2 == 0 ==> run@ == 0,
            k2 >= 1 ==> run@ == it@[16 * (k2 - 1) + 15]@,
            forall|t: int| 0 <= t < it@.len() ==> (#[trigger] it@[t]).wf(),
            forall|t: int| 0 <= t < k2 ==> (#[trigger] it@[16 * t])@ == 0,
            forall|t: int| 0 <= t < k2 ==> (#[trigger] it@[16 * t + 14])@ == users@[
                t
            ].balance as int,
            forall|t: int| 1 <= t < k2 ==> (#[trigger] it@[16 * t + 14])@ == (it@[16 * t
                + 15]@ + it@[16 * t - 1]@) % p(),
            forall|t: int, jj: int| 0 <= t < k2 && 1 <= jj <= 13 ==> (#[trigger] it@[16 * t
                + jj])@ == 0,
            k2 >= 1 ==> it@[15]@ == users@[0].balance as int,
        decreases n - k2,
    {
        let ghost before = it@;
        let mut j: usize = 0;
        while j < 14
            invariant
                0 <= j <= 14,
                it@.len() == before.len() + j,
                forall|t: int| 0 <= t < before.len() ==> #[trigger] it@[t] == before[t],
                forall|t: int| before.len() <= t < it@.len() ==> (#[trigger] it@[t]).wf()
                    && it@[t]@ == 0,
            decreases 14 - j,
        {
            it.push(Scalar::zero());
            j += 1;
        }
        let b = Scalar::from_u128(users[k2].balance as u128);
        let next_run = Scalar::sub(&b, &run);
        it.push(b);
        it.push(next_run.dup());
        proof {
            let kk = k2 as int;
            assert(it@[16 * kk + 14]@ == users@[kk].balance as int);
            assert(it@[16 * kk + 15]@ == (users@[kk].balance as int - run@) % p());
            if kk == 0 {
                // The first block's closing slot is the first balance.
                vstd::arithmetic::div_mod::lemma_small_mod(
                    users@[0].balance as nat,
                    p() as nat,
                );
            }
            if kk >= 1 {
                assert(it@[16 * kk - 1] == before[16 * (kk - 1) + 15]);
                // balance = (balance - previous) + previous, modulo p.
                vstd::arithmetic::div_mod::lemma_add_mod_noop_right(
                    run@,
                    users@[kk].balance as int - run@,
                    p(),
                );
                vstd::arithmetic::div_mod::lemma_small_mod(
                    users@[kk].balance as nat,
                    p() as nat,
                );
            }
        }
        run = next_run;
        k2 += 1;
    }
    (pt, it)
}

/// A roots-of-unity evaluation domain: a power-of-two size, its
/// generator, and the materialized elements in generator order.
#[derive(Debug)]
pub struct Domain {
    size: usize,
    gen: Scalar,
    elements: Vec<Scalar>,
}

impl Domain {
    pub closed spec fn wf(&self) -> bool {
        &&& self.gen.wf()
        &&& self.elements@.len() == self.size
        &&& self.size >= 1
        &&& pow_mod_ok(self.gen@, self.size as nat)
        &&& forall|i: int| 0 <= i < self.elements@.len() ==> (
        #[trigger] self.elements@[i]).wf()
        &&& forall|i: int| 0 <= i < self.elements@.len() ==> (
        #[trigger] self.elements@[i])@ == crate::field::pow_mod(self.gen@, i as nat)
        &&& forall|i: int, j: int| 0 <= i < j < self.elements@.len()
            ==> #[trigger] self.elements@[i]@ != #[trigger] self.elements@[j]@
    }

    /// Two different slots hold different elements.
    pub proof fn lemma_elem_distinct(&self, i: int, j: int)
        requires
            self.wf(),
            0 <= i < j < self.size_spec(),
        ensures
            self.elem_val(i) != self.elem_val(j),
    {
        assert(self.elements@[i]@ != self.elements@[j]@);
    }

    /// The domain's elements are pairwise distinct: a vector that copies
    /// them slot for slot holds no duplicate.
    pub proof fn lemma_no_dup(&self, es: Seq<Scalar>)
        requires
            self.wf(),
            es.len() == self.size_spec(),
            forall|i: int| 0 <= i < es.len() ==> (#[trigger] es[i])@ == self.elem_val(i),
        ensures
            !crate::poly::has_dup(crate::poly::vals_of(es)),
    {
        if crate::poly::has_dup(crate::poly::vals_of(es)) {
            let (a, b): (int, int) = choose|a: int, b: int|
                0 <= a < crate::poly::vals_of(es).len() && 0 <= b < crate::poly::vals_of(
                    es,
                ).len() && a != b && crate::poly::vals_of(es)[a] == crate::poly::vals_of(
                    es,
                )[b];
            assert(crate::poly::vals_of(es)[a] == es[a]@);
            assert(crate::poly::vals_of(es)[b] == es[b]@);
            assert(self.elements@[a]@ == self.elem_val(a));
            assert(self.elements@[b]@ == self.elem_val(b));
            if a < b {
                assert(self.elements@[a]@ != self.elements@[b]@);
            } else {
                assert(self.elements@[b]@ != self.elements@[a]@);
            }
            assert(false);
        }
    }

    pub closed spec fn size_spec(&self) -> int {
        self.size as int
    }

    pub closed spec fn gen_val(&self) -> int {
        self.gen@
    }

    /// The element at a slot: the generator to that power.
    pub closed spec fn elem_val(&self, i: int) -> int {
        self.elements@[i]@
    }

    pub fn size(&self) -> (r: usize)
        ensures
            r == self.size_spec(),
    {
        self.size
    }

    /// The domain element at a slot, copied out.
    pub fn element(&self, i: usize) -> (r: Scalar)
        requires
            self.wf(),
            (i as int) < self.size_spec(),
        ensures
            r.wf(),
            r@ == self.elem_val(i as int),
            r@ == crate::field::pow_mod(self.gen_val(), i as nat),
    {
        self.elements[i].dup()
    }

    /// The whole element vector, copied out.
    pub fn elements_vec(&self) -> (r: Vec<Scalar>)
        requires
            self.wf(),
        ensures
            r@.len() == self.size_spec(),
            forall|i: int| 0 <= i < r@.len() ==> (#[trigger] r@[i]).wf() && r@[i]@
                == self.elem_val(i),
    {
        let mut out: Vec<Scalar> = Vec::new();
        let mut i: usize = 0;
        while i < self.elements.len()
            invariant
                self.wf(),
                0 <= i <= self.elements@.len(),
                out@.len() == i,
                forall|j: int| 0 <= j < i ==> (#[trigger] out@[j]).wf() && out@[j]@
                    == self.elem_val(j),
            decreases self.elements@.len() - i,
        {
            out.push(self.elements[i].dup());
            i += 1;
        }
        out
    }

    /// The canonical power-of-two domain of at least the asked size: its
    /// generator is the matching root of unity, and the elements are its
    /// powers. Owed for any size within the field's two-adic reach.
    pub fn build(min_size: usize) -> (r: Option<Domain>)
        requires
            1 <= min_size,
            min_size <= 0x1000_0000,
        ensures
            r is Some,
            r matches Some(d) ==> d.wf() && d.size_spec() >= min_size && d.size_spec() < 2
                * min_size,
    {
        let mut size: usize = 1;
        let ghost mut k: nat = 0;
        while size < min_size
            invariant
                min_size <= 0x1000_0000,
                size >= 1,
                size == pow2int(k),
                size < 2 * min_size,
            decreases 2 * min_size - size,
        {
            proof {
                k = k + 1;
            }
            size = size * 2;
        }
        proof {
            crate::merkle::lemma_pow2int_29();
            if k > 28 {
                crate::merkle::lemma_pow2int_grows(29, k);
                assert(false);
            }
        }
        let g = match Scalar::root_of_unity(size as u64) {
            Some(g) => g,
            None => {
                proof {
                    assert(false);
                }
                return None;
            },
        };
        let mut elements: Vec<Scalar> = Vec::new();
        let mut cur = Scalar::one();
        let mut i: usize = 0;
        while i < size
            invariant
                g.wf(),
                0 <= i <= size,
                cur.wf(),
                cur@ == crate::field::pow_mod(g@, i as nat),
                elements@.len() == i,
                forall|j: int| 0 <= j < i ==> (#[trigger] elements@[j]).wf(),
                forall|j: int| 0 <= j < i ==> (#[trigger] elements@[j])@
                    == crate::field::pow_mod(g@, j as nat),
            decreases size - i,
        {
            elements.push(cur.dup());
            let next = Scalar::mul(&cur, &g);
            proof {
                assert(crate::field::pow_mod(g@, (i + 1) as nat) == (g@
                    * crate::field::pow_mod(g@, i as nat)) % p());
                assert(cur@ * g@ == g@ * cur@) by (nonlinear_arith);
            }
            cur = next;
            i += 1;
        }
        let d = Domain { size, gen: g, elements };
        proof {
            assert forall|a: int, b: int| 0 <= a < b < d.elements@.len()
                implies #[trigger] d.elements@[a]@ != #[trigger] d.elements@[b]@ by {
                crate::field::lemma_root_powers_distinct(
                    g@,
                    size as nat,
                    a as nat,
                    b as nat,
                );
            }
            assert(d.wf());
        }
        Some(d)
    }
}

/// The generator's order divides the size: its power at the size is one.
pub open spec fn pow_mod_ok(g: int, n: nat) -> bool {
    crate::field::pow_mod(g, n) == 1
}

/// The evaluations of a polynomial at chosen domain slots, as a
/// full-length table that is zero elsewhere: the claimed-value table for
/// an audit.
pub fn select_evaluations(indices: &Vec<usize>, domain: &Domain, poly: &Poly) -> (r: Vec<
    Scalar,
>)
    requires
        domain.wf(),
        poly.wf(),
        forall|t: int| 0 <= t < indices@.len() ==> (#[trigger] indices@[t])
            < domain.size_spec(),
    ensures
        r@.len() == domain.size_spec(),
        forall|j: int| 0 <= j < r@.len() ==> (#[trigger] r@[j]).wf(),
        forall|j: int| 0 <= j < r@.len() && indices@.contains(j as usize) ==> (
        #[trigger] r@[j])@ == eval_at(poly@, domain.elem_val(j)),
        forall|j: int| 0 <= j < r@.len() && !indices@.contains(j as usize) ==> (
        #[trigger] r@[j])@ == 0,
{
    let mut out: Vec<Scalar> = Vec::new();
    let mut j: usize = 0;
    while j < domain.size()
        invariant
            domain.wf(),
            poly.wf(),
            forall|t: int| 0 <= t < indices@.len() ==> (#[trigger] indices@[t])
                < domain.size_spec(),
            0 <= j <= domain.size_spec(),
            out@.len() == j,
            forall|t: int| 0 <= t < j ==> (#[trigger] out@[t]).wf(),
            forall|t: int| 0 <= t < j && indices@.contains(t as usize) ==> (
            #[trigger] out@[t])@ == eval_at(poly@, domain.elem_val(t)),
            forall|t: int| 0 <= t < j && !indices@.contains(t as usize) ==> (
            #[trigger] out@[t])@ == 0,
        decreases domain.size_spec() - j,
    {
        let mut found = false;
        let mut t: usize = 0;
        while t < indices.len()
            invariant
                0 <= t <= indices@.len(),
                found == exists|u: int| 0 <= u < t && indices@[u] == j,
            decreases indices@.len() - t,
        {
            if indices[t] == j {
                found = true;
            }
            t += 1;
        }
        proof {
            assert(found == indices@.contains(j));
        }
        if found {
            let e = domain.element(j);
            out.push(poly.eval(&e));
        } else {
            out.push(Scalar::zero());
        }
        j += 1;
    }
    out
}

} // verus!
