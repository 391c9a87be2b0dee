//! A Merkle sum tree: a hash-based vector commitment over user records,
//! an alternative accumulator with the same commit/prove/verify shape as
//! the polynomial commitment engine.
//!
//! Each leaf hashes an identifier and carries a balance; each inner node
//! carries the sum of its children's balances and the digest of both
//! children. The digest function is Keccak-256, taken on trust.

use vstd::prelude::*;
use vstd::pervasive::VecAdditionalExecFns;
use vstd::utf8::encode_utf8;
use crate::field::pow2int;

verus! {

/// Byte-vector equality.
pub fn vec_u8_eq(a: &Vec<u8>, b: &Vec<u8>) -> (r: bool)
    ensures
        r == (a@ == b@),
{
    if a.len() != b.len() {
        return false;
    }
    let mut i: usize = 0;
    while i < a.len()
        invariant
            a@.len() == b@.len(),
            0 <= i <= a@.len(),
            forall|j: int| 0 <= j < i ==> a@[j] == b@[j],
        decreases a@.len() - i,
    {
        if a[i] != b[i] {
            proof {
                assert(a@[i as int] != b@[i as int]);
            }
            return false;
        }
        i += 1;
    }
    proof {
        assert(a@ =~= b@);
    }
    true
}

/// `x` halved `k` times.
pub open spec fn shr_div(x: int, k: nat) -> int
    decreases k,
{
    if k == 0 {
        x
    } else {
        shr_div(x / 2, (k - 1) as nat)
    }
}

/// Halving `k` times reaches zero exactly below `2^k`.
pub proof fn lemma_shr_div_zero(x: int, k: nat)
    requires
        x >= 0,
    ensures
        (shr_div(x, k) == 0) <==> (x < pow2int(k)),
    decreases k,
{
    if k > 0 {
        lemma_shr_div_zero(x / 2, (k - 1) as nat);
    }
}

/// The Keccak-256 digest of a byte sequence: a function of the bytes
/// alone, left uninterpreted.
pub uninterp spec fn keccak_of(data: Seq<u8>) -> Seq<u8>;

/// Relies on `keccak_hash::keccak`: the Keccak-256 digest of the input,
/// 32 bytes, depending on the input bytes alone.
#[verifier::external_body]
pub(crate) fn keccak256(data: &Vec<u8>) -> (r: Vec<u8>)
    ensures
        r@ == keccak_of(data@),
        r@.len() == 32,
{
    let h = keccak_hash::keccak(&data[..]);
    h.0.to_vec()
}

/// The big-endian bytes of a nonnegative integer, `n` bytes wide.
pub open spec fn be_bytes(v: int, n: nat) -> Seq<u8>
    decreases n,
{
    if n == 0 {
        Seq::empty()
    } else {
        be_bytes(v / 256, (n - 1) as nat).push((v % 256) as u8)
    }
}

/// The 16 big-endian bytes of a balance.
pub fn u128_be_bytes(v: u128) -> (r: Vec<u8>)
    ensures
        r@ == be_bytes(v as int, 16),
        r@.len() == 16,
{
    be_helper(v, 16)
}

fn be_helper(v: u128, n: usize) -> (r: Vec<u8>)
    ensures
        r@ == be_bytes(v as int, n as nat),
        r@.len() == n,
    decreases n,
{
    if n == 0 {
        Vec::new()
    } else {
        let mut r = be_helper(v / 256, n - 1);
        r.push((v % 256) as u8);
        r
    }
}

/// One user record: an identifier and a balance.
#[derive(Debug)]
pub struct UserInfo {
    pub email: String,
    pub balance: u128,
}

impl UserInfo {
    /// An explicit copy with the same identifier and balance.
    pub fn dup(&self) -> (r: UserInfo)
        ensures
            r.email@ == self.email@,
            r.balance == self.balance,
    {
        UserInfo { email: self.email.as_str().to_owned(), balance: self.balance }
    }
}

/// One tree node: the balance sum and digest of its subtree.
#[derive(Debug)]
pub struct Node {
    pub sum: u128,
    pub hash: Vec<u8>,
}

impl Node {
    /// The node as plain values: sum and digest bytes.
    pub open spec fn view_pair(&self) -> (int, Seq<u8>) {
        (self.sum as int, self.hash@)
    }

    /// An explicit copy.
    pub fn dup(&self) -> (r: Node)
        ensures
            r.view_pair() == self.view_pair(),
    {
        let mut h: Vec<u8> = Vec::new();
        let mut i: usize = 0;
        while i < self.hash.len()
            invariant
                0 <= i <= self.hash@.len(),
                h@.len() == i,
                forall|j: int| 0 <= j < i ==> h@[j] == self.hash@[j],
            decreases self.hash@.len() - i,
        {
            h.push(self.hash[i]);
            i += 1;
        }
        proof {
            assert(h@ =~= self.hash@);
        }
        Node { sum: self.sum, hash: h }
    }
}

/// The digest of a leaf: Keccak of the identifier's digest concatenated
/// with the big-endian balance.
pub open spec fn leaf_hash_spec(email: Seq<char>, balance: u128) -> Seq<u8> {
    keccak_of(keccak_of(encode_utf8(email)) + be_bytes(balance as int, 16))
}

/// The digest of an inner node from its children's sums and digests.
pub open spec fn node_hash_spec(l: (int, Seq<u8>), r: (int, Seq<u8>)) -> Seq<u8> {
    keccak_of(l.1 + be_bytes(l.0, 16) + r.1 + be_bytes(r.0, 16))
}

/// An inclusion proof: the claimed record, its index, and the sibling
/// nodes from leaf to root.
#[derive(Debug)]
pub struct Proof {
    pub element: UserInfo,
    pub idx: usize,
    pub path: Vec<Node>,
}

/// The Merkle sum tree itself. `nodes[1]` is the root; the second half of
/// `nodes` holds the leaf nodes in order.
#[derive(Debug)]
pub struct MerkleTree {
    leafs: Vec<UserInfo>,
    nodes: Vec<Node>,
}

/// Recomputing the root from a leaf and its sibling path. `cur` climbs
/// from position `idx`; every intermediate sum must fit a balance.
pub open spec fn climb_ok(
    cur: (int, Seq<u8>),
    idx: int,
    path: Seq<(int, Seq<u8>)>,
    root: (int, Seq<u8>),
) -> bool
    decreases path.len(),
{
    if path.len() == 0 {
        cur == root
    } else {
        let nb = path[0];
        let combined = if idx % 2 == 1 {
            (nb.0 + cur.0, node_hash_spec(nb, cur))
        } else {
            (cur.0 + nb.0, node_hash_spec(cur, nb))
        };
        combined.0 <= u128::MAX && climb_ok(combined, idx / 2, path.drop_first(), root)
    }
}

/// What `MerkleTree::verify` decides: the claimed index lies under the
/// path's height, and the chain recomputed from the claimed record along
/// the siblings ends at the commitment.
pub open spec fn verify_spec(
    email: Seq<char>,
    balance: u128,
    idx: int,
    path: Seq<(int, Seq<u8>)>,
    root: (int, Seq<u8>),
) -> bool {
    &&& 0 <= idx < pow2int(path.len())
    &&& climb_ok((balance as int, leaf_hash_spec(email, balance)), idx, path, root)
}

impl MerkleTree {
    /// Structural well-formedness: the node array is twice the padded leaf
    /// array, a power of two; leaf nodes hash their records, and every
    /// inner node combines its children.
    pub closed spec fn wf(&self) -> bool {
        let half = self.leafs@.len() as int;
        let m = self.nodes@.len() as int;
        &&& m == 2 * half
        &&& half >= 1
        &&& (exists|k: nat| half == pow2int(k))
        &&& forall|i: int| half <= i < m ==> (#[trigger] self.nodes@[i]).sum
            == self.leafs@[i - half].balance
        &&& forall|i: int| half <= i < m ==> (#[trigger] self.nodes@[i]).hash@
            == leaf_hash_spec(self.leafs@[i - half].email@, self.leafs@[i - half].balance)
        &&& forall|i: int| 1 <= i < half ==> self.nodes@[i].sum as int == (
        #[trigger] self.nodes@[2 * i]).sum + self.nodes@[2 * i + 1].sum
        &&& forall|i: int| 1 <= i < half ==> self.nodes@[i].hash@ == node_hash_spec(
            (#[trigger] self.nodes@[2 * i]).view_pair(),
            self.nodes@[2 * i + 1].view_pair(),
        )
    }

    /// How many leaf slots the tree has after padding.
    pub closed spec fn num_slots(&self) -> int {
        self.leafs@.len() as int
    }

    /// The record stored at a leaf slot.
    pub closed spec fn leaf_at(&self, i: int) -> (Seq<char>, u128) {
        (self.leafs@[i].email@, self.leafs@[i].balance)
    }

    /// The node stored at an index of the node array.
    pub closed spec fn node_at(&self, i: int) -> (int, Seq<u8>) {
        self.nodes@[i].view_pair()
    }

    /// The digest of a leaf record: Keccak of the hashed identifier
    /// concatenated with the big-endian balance.
    pub fn hash_leaf(leaf: UserInfo) -> (r: Vec<u8>)
        ensures
            r@ == leaf_hash_spec(leaf.email@, leaf.balance),
            r@.len() == 32,
    {
        let eb = leaf.email.as_str().as_bytes_vec();
        let mut concat = keccak256(&eb);
        let mut bb = u128_be_bytes(leaf.balance);
        concat.append(&mut bb);
        keccak256(&concat)
    }

    /// The digest of an inner node: Keccak over both children's digests
    /// and big-endian sums, left child first.
    pub fn hash_nodes(left: Node, right: Node) -> (r: Vec<u8>)
        ensures
            r@ == node_hash_spec(left.view_pair(), right.view_pair()),
            r@.len() == 32,
    {
        let mut concat = left.hash;
        let mut lb = u128_be_bytes(left.sum);
        concat.append(&mut lb);
        let mut rh = right.hash;
        concat.append(&mut rh);
        let mut rb = u128_be_bytes(right.sum);
        concat.append(&mut rb);
        keccak256(&concat)
    }

    /// The parent of two nodes: sums added, digests combined.
    pub fn combine_nodes(left: Node, right: Node) -> (r: Node)
        requires
            left.sum + right.sum <= u128::MAX,
        ensures
            r.sum as int == left.sum + right.sum,
            r.hash@ == node_hash_spec(left.view_pair(), right.view_pair()),
    {
        let sum = left.sum + right.sum;
        let hash = Self::hash_nodes(left, right);
        Node { sum, hash }
    }

    /// Builds the tree over the given records, padded with empty
    /// zero-balance records up to a power of two. The caps keep every
    /// internal balance sum within the machine word.
    pub fn new(leafs: Vec<UserInfo>) -> (r: MerkleTree)
        requires
            leafs@.len() >= 1,
            leafs@.len() <= 0x4000_0000,
            forall|i: int| 0 <= i < leafs@.len() ==> (#[trigger] leafs@[i]).balance
                <= 0xffff_ffff_ffff_ffffu128,
        ensures
            r.wf(),
            r.num_slots() >= leafs@.len(),
            r.num_slots() < 2 * leafs@.len(),
            forall|i: int| 0 <= i < leafs@.len() ==> r.leaf_at(i) == ((
            #[trigger] leafs@[i]).email@, leafs@[i].balance),
            forall|i: int| leafs@.len() <= i < r.num_slots() ==> (#[trigger] r.leaf_at(
                i,
            )).1 == 0,
            forall|i: int| leafs@.len() <= i < r.num_slots() ==> (#[trigger] r.leaf_at(
                i,
            )).0 == Seq::<char>::empty(),
    {
        let n = leafs.len();
        // The padded width: the least power of two not below n.
        let mut half: usize = 1;
        let ghost mut k: nat = 0;
        while half < n
            invariant
                n <= 0x4000_0000,
                half >= 1,
                half == pow2int(k),
                half < 2 * n,
            decreases 2 * n - half,
        {
            proof {
                k = k + 1;
            }
            half = half * 2;
        }
        let mut lv = leafs;
        while lv.len() < half
            invariant
                n <= lv@.len() <= half,
                half == pow2int(k),
                forall|i: int| 0 <= i < n ==> lv@[i] == leafs@[i],
                forall|i: int| n <= i < lv@.len() ==> (#[trigger] lv@[i]).balance == 0,
                forall|i: int| n <= i < lv@.len() ==> (#[trigger] lv@[i]).email@
                    == Seq::<char>::empty(),
                forall|i: int| 0 <= i < lv@.len() ==> (#[trigger] lv@[i]).balance
                    <= 0xffff_ffff_ffff_ffffu128,
            decreases half - lv@.len(),
        {
            let pad_email = "".to_owned();
            proof {
                reveal_strlit("");
                assert(pad_email@ =~= Seq::<char>::empty());
            }
            lv.push(UserInfo { email: pad_email, balance: 0 });
        }
        // Leaf nodes fill the upper half of the node array.
        let mut nodes: Vec<Node> = Vec::new();
        let mut j: usize = 0;
        while j < 2 * half
            invariant
                half <= 0x7fff_ffff,
                nodes@.len() == j,
                0 <= j <= 2 * half,
            decreases 2 * half - j,
        {
            nodes.push(Node { sum: 0, hash: Vec::new() });
            j += 1;
        }
        let mut t: usize = 0;
        while t < half
            invariant
                half <= 0x7fff_ffff,
                half == lv@.len(),
                nodes@.len() == 2 * half,
                0 <= t <= half,
                forall|i: int| 0 <= i < lv@.len() ==> (#[trigger] lv@[i]).balance
                    <= 0xffff_ffff_ffff_ffffu128,
                forall|i: int| half <= i < half + t ==> (#[trigger] nodes@[i]).sum
                    == lv@[i - half].balance,
                forall|i: int| half <= i < half + t ==> (#[trigger] nodes@[i]).hash@
                    == leaf_hash_spec(lv@[i - half].email@, lv@[i - half].balance),
            decreases half - t,
        {
            let rec = lv[t].dup();
            let h = Self::hash_leaf(rec);
            nodes.set(half + t, Node { sum: lv[t].balance, hash: h });
            t += 1;
        }
        // Combine bottom-up; the weighted bound j * sum <= 2 * half * cap
        // keeps every addition inside u128.
        proof {
            let cap = 0xffff_ffff_ffff_ffffint;
            assert forall|i2: int| half <= i2 < 2 * half implies (
            #[trigger] nodes@[i2]).sum * i2 <= 2 * half * cap by {
                assert(nodes@[i2].sum * i2 <= cap * i2) by (nonlinear_arith)
                    requires 0 <= nodes@[i2].sum <= cap, 0 <= i2;
                assert(cap * i2 <= cap * (2 * half)) by (nonlinear_arith)
                    requires i2 <= 2 * half, cap >= 0;
                assert(cap * (2 * half) == 2 * half * cap) by (nonlinear_arith);
            }
        }
        let mut i: usize = half - 1;
        while i >= 1
            invariant
                half >= 1,
                half <= 0x7fff_ffff,
                half == lv@.len(),
                nodes@.len() == 2 * half,
                0 <= i <= half - 1,
                forall|i2: int| 0 <= i2 < lv@.len() ==> (#[trigger] lv@[i2]).balance
                    <= 0xffff_ffff_ffff_ffffu128,
                forall|i2: int| half <= i2 < 2 * half ==> (#[trigger] nodes@[i2]).sum
                    == lv@[i2 - half].balance,
                forall|i2: int| half <= i2 < 2 * half ==> (#[trigger] nodes@[i2]).hash@
                    == leaf_hash_spec(lv@[i2 - half].email@, lv@[i2 - half].balance),
                forall|i2: int| i < i2 < half ==> (#[trigger] nodes@[i2]).sum as int
                    == nodes@[2 * i2].sum + nodes@[2 * i2 + 1].sum,
                forall|i2: int| i < i2 < half ==> (#[trigger] nodes@[i2]).hash@
                    == node_hash_spec(
                    nodes@[2 * i2].view_pair(),
                    nodes@[2 * i2 + 1].view_pair(),
                ),
                forall|i2: int| i < i2 < 2 * half ==> (#[trigger] nodes@[i2]).sum * i2 <= 2
                    * half * 0xffff_ffff_ffff_ffff,
            decreases i,
        {
            let left = nodes[2 * i].dup();
            let right = nodes[2 * i + 1].dup();
            proof {
                let cap = 0xffff_ffff_ffff_ffffint;
                let s1 = nodes@[2 * i].sum as int;
                let s2 = nodes@[2 * i + 1].sum as int;
                let hh = half as int;
                let ii = i as int;
                lemma_weighted_sum_bounds(s1, s2, ii, hh, cap);
            }
            let combined = Self::combine_nodes(left, right);
            let ghost prev = nodes@;
            nodes.set(i, combined);
            proof {
                assert forall|i2: int| i - 1 < i2 < 2 * half && i2 != i implies nodes@[i2]
                    == prev[i2] by {}
            }
            i -= 1;
        }
        let r = MerkleTree { leafs: lv, nodes };
        proof {
            assert(r.leafs@.len() == pow2int(k));
        }
        r
    }

    /// The root node: the commitment to the whole vector.
    pub fn root(&self) -> (r: Node)
        requires
            self.wf(),
        ensures
            r.view_pair() == self.node_at(1),
    {
        self.nodes[1].dup()
    }

    /// The height of the tree: the number of edges from a leaf to the
    /// root, so the padded width is two to this power.
    pub fn height(&self) -> (r: u32)
        requires
            self.wf(),
        ensures
            pow2int(r as nat) == self.num_slots(),
    {
        let mut m: usize = self.nodes.len();
        let mut h: u32 = 0;
        proof {
            let k = choose|k: nat| self.leafs@.len() == pow2int(k);
            assert(pow2int(0nat) == 1);
            assert(m == 2 * pow2int(k) && pow2int(k) * pow2int(0nat) == self.num_slots());
            lemma_pow2int_pos(k);
        }
        while m > 2
            invariant
                self.wf(),
                2 * self.num_slots() <= usize::MAX,
                (exists|j: nat| m == 2 * (#[trigger] pow2int(j)) && pow2int(j) * pow2int(
                    h as nat,
                ) == self.num_slots()),
                m >= 2,
                pow2int(h as nat) <= self.num_slots(),
                h <= 64,
            decreases m,
        {
            proof {
                let j = choose|j: nat| m == 2 * (#[trigger] pow2int(j)) && pow2int(j) * pow2int(
                    h as nat,
                ) == self.num_slots();
                assert(j >= 1) by {
                    if j == 0 {
                        assert(pow2int(0) == 1);
                    }
                }
                assert(pow2int(j) == 2 * pow2int((j - 1) as nat));
                vstd::arithmetic::div_mod::lemma_div_multiples_vanish(
                    pow2int((j - 1) as nat),
                    2,
                );
                assert(m / 2 == (2 * pow2int((j - 1) as nat) * 2) / 2);
                assert(pow2int((j - 1) as nat) * pow2int((h + 1) as nat) == pow2int(j)
                    * pow2int(h as nat)) by (nonlinear_arith)
                    requires
                        pow2int(j) == 2 * pow2int((j - 1) as nat),
                        pow2int((h + 1) as nat) == 2 * pow2int(h as nat),
                ;
                lemma_pow2int_pos((j - 1) as nat);
                lemma_pow2int_pos((h + 1) as nat);
                assert(pow2int((h + 1) as nat) <= self.num_slots()) by (nonlinear_arith)
                    requires
                        pow2int((j - 1) as nat) >= 1,
                        pow2int((h + 1) as nat) >= 1,
                        pow2int((j - 1) as nat) * pow2int((h + 1) as nat)
                            == self.num_slots(),
                ;
                // The counter stays far below its range: two to its power
                // still fits beside the slot count.
                lemma_pow2int_64();
                if h + 1 > 64 {
                    lemma_pow2int_grows(64, (h + 1) as nat);
                    assert(false);
                }
                assert(exists|j2: nat| m / 2 == 2 * (#[trigger] pow2int(j2)) && pow2int(j2)
                    * pow2int((h + 1) as nat) == self.num_slots()) by {
                    assert(m / 2 == 2 * pow2int((j - 1) as nat) && pow2int((j - 1) as nat)
                        * pow2int((h + 1) as nat) == self.num_slots());
                }
            }
            m = m / 2;
            h = h + 1;
        }
        proof {
            let j = choose|j: nat| m == 2 * (#[trigger] pow2int(j)) && pow2int(j) * pow2int(
                h as nat,
            ) == self.num_slots();
            assert(pow2int(j) == 1) by {
                if j >= 1 {
                    lemma_pow2int_pos((j - 1) as nat);
                }
            }
            assert(pow2int(h as nat) == self.num_slots()) by (nonlinear_arith)
                requires
                    pow2int(j) == 1,
                    pow2int(j) * pow2int(h as nat) == self.num_slots(),
            ;
        }
        h
    }

    /// The record stored at a leaf slot.
    pub fn get_elem(&self, idx: usize) -> (r: UserInfo)
        requires
            self.wf(),
            (idx as int) < self.num_slots(),
        ensures
            (r.email@, r.balance) == self.leaf_at(idx as int),
    {
        self.leafs[idx].dup()
    }

    /// The inclusion proof for a leaf slot: the record there, the slot,
    /// and the sibling of each node on the way from that leaf to the root.
    #[verifier::rlimit(100)]
    #[verifier::spinoff_prover]
    pub fn get_proof(&self, idx: usize) -> (r: Proof)
        requires
            self.wf(),
            (idx as int) < self.num_slots(),
        ensures
            r.idx == idx,
            (r.element.email@, r.element.balance) == self.leaf_at(idx as int),
            pow2int(r.path@.len()) == self.num_slots(),
            forall|t: int| 0 <= t < r.path@.len() ==> (#[trigger] r.path@[t]).view_pair()
                == self.node_at(sibling(path_pos(idx as int + self.num_slots(), t as nat))),
    {
        let element = self.get_elem(idx);
        let h = self.height();
        let half = self.leafs.len();
        let total = self.nodes.len();
        proof {
            assert(total == 2 * half);
        }
        let mut path: Vec<Node> = Vec::new();
        let mut curr: usize = idx + half;
        let mut low: usize = half;
        let mut t: usize = 0;
        while t < h as usize
            invariant
                self.wf(),
                pow2int(h as nat) == self.num_slots(),
                half == self.num_slots(),
                0 <= t <= h,
                low == pow2int((h - t) as nat),
                low <= curr < 2 * low,
                2 * low <= 2 * half,
                curr as int == path_pos(idx as int + self.num_slots(), t as nat),
                path@.len() == t,
                forall|t2: int| 0 <= t2 < t ==> (#[trigger] path@[t2]).view_pair()
                    == self.node_at(
                    sibling(path_pos(idx as int + self.num_slots(), t2 as nat)),
                ),
            decreases h - t,
        {
            proof {
                lemma_pow2int_pos((h - t) as nat);
                if h - t >= 1 {
                    assert(pow2int((h - t) as nat) == 2 * pow2int((h - t - 1) as nat));
                    lemma_pow2int_pos((h - t - 1) as nat);
                }
            }
            let sib = if curr % 2 == 0 {
                curr + 1
            } else {
                curr - 1
            };
            path.push(self.nodes[sib].dup());
            proof {
                assert(path_pos(idx as int + self.num_slots(), (t + 1) as nat) == path_pos(
                    idx as int + self.num_slots(),
                    t as nat,
                ) / 2);
                vstd::arithmetic::div_mod::lemma_div_multiples_vanish(
                    pow2int((h - t - 1) as nat),
                    2,
                );
            }
            curr = curr / 2;
            low = low / 2;
            t += 1;
        }
        Proof { element, idx, path }
    }

    /// Decides an inclusion proof against a commitment by recomputing the
    /// hash chain; exactly `verify_spec` of the claim and the path.
    pub fn verify(proof: Proof, commitment: Node) -> (r: bool)
        ensures
            r == verify_spec(
                proof.element.email@,
                proof.element.balance,
                proof.idx as int,
                proof.path@.map_values(|n: Node| n.view_pair()),
                commitment.view_pair(),
            ),
    {
        let ghost pview = proof.path@.map_values(|n: Node| n.view_pair());
        // The claimed index must lie under the path's height.
        let hlen = proof.path.len();
        let mut sh: usize = proof.idx;
        let mut t: usize = 0;
        while t < hlen
            invariant
                0 <= t <= hlen,
                sh as int == shr_div(proof.idx as int, t as nat),
                sh >= 0,
            decreases hlen - t,
        {
            proof {
                lemma_shr_div_commute(proof.idx as int, t as nat);
            }
            sh = sh / 2;
            t += 1;
        }
        proof {
            lemma_shr_div_zero(proof.idx as int, hlen as nat);
        }
        if sh != 0 {
            return false;
        }
        // Recompute the chain from the claimed record.
        let leaf_hash = Self::hash_leaf(proof.element.dup());
        let mut cur = Node { sum: proof.element.balance, hash: leaf_hash };
        let mut idx: usize = proof.idx;
        let mut i: usize = 0;
        proof {
            assert(pview.skip(0) =~= pview);
        }
        while i < hlen
            invariant
                hlen == proof.path@.len(),
                pview == proof.path@.map_values(|n: Node| n.view_pair()),
                0 <= i <= hlen,
                idx as int == shr_div(proof.idx as int, i as nat),
                climb_ok(
                    (proof.element.balance as int,
                    leaf_hash_spec(proof.element.email@, proof.element.balance)),
                    proof.idx as int,
                    pview,
                    commitment.view_pair(),
                ) == climb_ok(
                    cur.view_pair(),
                    idx as int,
                    pview.skip(i as int),
                    commitment.view_pair(),
                ),
            decreases hlen - i,
        {
            let nb = proof.path[i].dup();
            proof {
                assert(pview.skip(i as int)[0] == pview[i as int]);
                assert(pview[i as int] == proof.path@[i as int].view_pair());
                assert(pview.skip(i as int).drop_first() =~= pview.skip(i as int + 1));
                lemma_shr_div_commute(proof.idx as int, i as nat);
            }
            let next = if idx % 2 == 1 {
                if nb.sum > u128::MAX - cur.sum {
                    return false;
                }
                Self::combine_nodes(nb, cur)
            } else {
                if cur.sum > u128::MAX - nb.sum {
                    return false;
                }
                Self::combine_nodes(cur, nb)
            };
            cur = next;
            idx = idx / 2;
            i += 1;
        }
        proof {
            assert(pview.skip(hlen as int) =~= Seq::<(int, Seq<u8>)>::empty());
        }
        let sums_ok = cur.sum == commitment.sum;
        let hash_ok = vec_u8_eq(&cur.hash, &commitment.hash);
        sums_ok && hash_ok
    }
}

/// Halving commutes with iterated halving.
pub proof fn lemma_shr_div_commute(x: int, k: nat)
    ensures
        shr_div(x, k) / 2 == shr_div(x / 2, k),
    decreases k,
{
    if k > 0 {
        lemma_shr_div_commute(x / 2, (k - 1) as nat);
    }
}

/// The node index after climbing `k` levels from `start`.
pub open spec fn path_pos(start: int, k: nat) -> int
    decreases k,
{
    if k == 0 {
        start
    } else {
        path_pos(start, (k - 1) as nat) / 2
    }
}

/// The sibling of a node index.
pub open spec fn sibling(j: int) -> int {
    if j % 2 == 0 {
        j + 1
    } else {
        j - 1
    }
}

/// `2^k` is positive.
pub proof fn lemma_pow2int_pos(k: nat)
    ensures
        pow2int(k) >= 1,
    decreases k,
{
    if k > 0 {
        lemma_pow2int_pos((k - 1) as nat);
    }
}

/// The value of `2^64`, past any machine word used here.
pub proof fn lemma_pow2int_64()
    ensures
        pow2int(64) == 0x1_0000_0000_0000_0000,
{
    reveal_with_fuel(pow2int, 65);
}

/// The value of `2^29`, just past the two-adic reach used for domains.
pub proof fn lemma_pow2int_29()
    ensures
        pow2int(29) == 0x2000_0000,
{
    reveal_with_fuel(pow2int, 30);
}

/// `2^k` grows with `k`.
pub proof fn lemma_pow2int_grows(a: nat, b: nat)
    requires
        a <= b,
    ensures
        pow2int(a) <= pow2int(b),
    decreases b,
{
    if a < b {
        lemma_pow2int_grows(a, (b - 1) as nat);
        lemma_pow2int_pos((b - 1) as nat);
    }
}

/// Bounds feeding the combining loop: children bounded by the weighted
/// invariant give a parent that fits and is bounded in turn.
proof fn lemma_weighted_sum_bounds(s1: int, s2: int, i: int, h: int, cap: int)
    requires
        0 <= s1,
        0 <= s2,
        1 <= i,
        i <= h - 1,
        1 <= h,
        cap == 0xffff_ffff_ffff_ffff,
        h <= 0x1_0000_0000,
        s1 * (2 * i) <= 2 * h * cap,
        s2 * (2 * i + 1) <= 2 * h * cap,
    ensures
        s1 + s2 <= u128::MAX,
        (s1 + s2) * i <= 2 * h * cap,
{
    assert(s2 * (2 * i) <= s2 * (2 * i + 1)) by (nonlinear_arith)
        requires 0 <= s2, 1 <= i;
    assert((s1 + s2) * (2 * i) == s1 * (2 * i) + s2 * (2 * i)) by (nonlinear_arith);
    assert((s1 + s2) * (2 * i) <= 4 * h * cap);
    assert((s1 + s2) * (2 * i) == 2 * ((s1 + s2) * i)) by (nonlinear_arith);
    assert((s1 + s2) * i <= 2 * h * cap);
    assert(s1 + s2 <= (s1 + s2) * i) by (nonlinear_arith)
        requires 1 <= i, 0 <= s1 + s2;
    assert(2 * h * cap <= u128::MAX) by (nonlinear_arith)
        requires h <= 0x1_0000_0000, cap == 0xffff_ffff_ffff_ffff;
}


/// The balance sum of a record range.
pub open spec fn balance_range_sum(s: Seq<UserInfo>, lo: int, hi: int) -> int
    decreases hi - lo,
{
    if lo >= hi {
        0
    } else {
        s[lo].balance + balance_range_sum(s, lo + 1, hi)
    }
}

/// The balance sum of a whole record vector.
pub open spec fn balance_total(s: Seq<UserInfo>) -> int {
    balance_range_sum(s, 0, s.len() as int)
}

/// The balance sum of a range of the tree's leaf slots.
pub open spec fn tree_balance_sum(t: &MerkleTree, lo: int, hi: int) -> int
    decreases hi - lo,
{
    if lo >= hi {
        0
    } else {
        t.leaf_at(lo).1 + tree_balance_sum(t, lo + 1, hi)
    }
}

/// Range sums concatenate.
proof fn lemma_range_sum_concat(s: Seq<UserInfo>, lo: int, mid: int, hi: int)
    requires
        lo <= mid <= hi,
    ensures
        balance_range_sum(s, lo, hi) == balance_range_sum(s, lo, mid) + balance_range_sum(
            s,
            mid,
            hi,
        ),
    decreases mid - lo,
{
    if lo < mid {
        lemma_range_sum_concat(s, lo + 1, mid, hi);
    }
}

/// A range of zero balances sums to zero.
proof fn lemma_range_sum_zero(s: Seq<UserInfo>, lo: int, hi: int)
    requires
        forall|i: int| lo <= i < hi ==> (#[trigger] s[i]).balance == 0,
    ensures
        balance_range_sum(s, lo, hi) == 0,
    decreases hi - lo,
{
    if lo < hi {
        lemma_range_sum_zero(s, lo + 1, hi);
    }
}

/// Range sums read only the balances in range.
proof fn lemma_range_sum_congruent(s1: Seq<UserInfo>, s2: Seq<UserInfo>, lo: int, hi: int)
    requires
        forall|i: int| lo <= i < hi ==> (#[trigger] s1[i]).balance == s2[i].balance,
    ensures
        balance_range_sum(s1, lo, hi) == balance_range_sum(s2, lo, hi),
    decreases hi - lo,
{
    if lo < hi {
        lemma_range_sum_congruent(s1, s2, lo + 1, hi);
    }
}

/// Inside a well-formed tree, the node at index `i` whose subtree is `w`
/// slots wide sums exactly the balances of those slots.
#[verifier::rlimit(100)]
#[verifier::spinoff_prover]
proof fn lemma_node_range_sum(t: &MerkleTree, i: int, w: int, k: nat)
    requires
        t.wf(),
        1 <= i,
        w == pow2int(k),
        i * w >= t.num_slots(),
        (i + 1) * w <= 2 * t.num_slots(),
    ensures
        t.node_at(i).0 == balance_range_sum(t.leafs@, i * w - t.num_slots(), (i + 1) * w
            - t.num_slots()),
    decreases k,
{
    let half = t.num_slots();
    lemma_pow2int_pos(k);
    if i >= half {
        // A leaf node: the width collapses to one slot.
        assert(w == 1) by (nonlinear_arith)
            requires w >= 1, i >= half, half >= 1, i * w >= half, (i + 1) * w <= 2 * half;
        assert(i < 2 * half);
        assert(t.node_at(i).0 == t.leafs@[i - half].balance as int);
        assert(balance_range_sum(t.leafs@, i + 1 - half, i + 1 - half) == 0);
        assert(balance_range_sum(t.leafs@, i - half, i + 1 - half) == t.leafs@[i
            - half].balance + balance_range_sum(t.leafs@, i + 1 - half, i + 1 - half));
    } else {
        // An inner node: both children cover half the width each.
        assert(w >= 2) by {
            if w == 1 {
                assert(i * 1 == i) by (nonlinear_arith);
            }
        }
        assert(k >= 1) by {
            if k == 0 {
                assert(pow2int(0) == 1);
            }
        }
        let w2 = pow2int((k - 1) as nat);
        assert(w == 2 * w2);
        lemma_pow2int_pos((k - 1) as nat);
        assert((2 * i) * w2 == i * w && (2 * i + 2) * w2 == (i + 1) * w && (2 * i + 1)
            * w2 == i * w + w2 && (i + 1) * w == i * w + 2 * w2) by (nonlinear_arith)
            requires w == 2 * w2;
        assert((2 * i) * w2 >= half);
        assert((2 * i + 1) * w2 >= half);
        assert((2 * i + 1) * w2 <= 2 * half);
        assert((2 * i + 2) * w2 <= 2 * half);
        lemma_node_range_sum(t, 2 * i, w2, (k - 1) as nat);
        lemma_node_range_sum(t, 2 * i + 1, w2, (k - 1) as nat);
        assert(t.node_at(i).0 == t.node_at(2 * i).0 + t.node_at(2 * i + 1).0) by {
            assert(t.nodes@[i].sum as int == t.nodes@[2 * i].sum + t.nodes@[2 * i
                + 1].sum);
        }
        lemma_range_sum_concat(t.leafs@, i * w - half, i * w + w2 - half, (i + 1) * w
            - half);
    }
}

impl MerkleTree {
    /// The solvency total: the root's sum field is exactly the balance
    /// sum of every leaf slot. An induction over the tree's invariant,
    /// exported so that callers can conclude it of any well-formed tree.
    pub proof fn lemma_root_total(&self)
        requires
            self.wf(),
        ensures
            self.node_at(1).0 == tree_balance_sum(self, 0, self.num_slots()),
    {
        let half = self.num_slots();
        let k = choose|k: nat| self.leafs@.len() == pow2int(k);
        lemma_node_range_sum(self, 1, half, k);
        assert(1 * half == half) by (nonlinear_arith);
        assert(2 * half == (1 + 1) * half) by (nonlinear_arith);
        lemma_tree_sum_is_range_sum(self, 0, half);
    }
}

/// The public per-slot sum equals the internal record-range sum.
proof fn lemma_tree_sum_is_range_sum(t: &MerkleTree, lo: int, hi: int)
    ensures
        tree_balance_sum(t, lo, hi) == balance_range_sum(t.leafs@, lo, hi),
    decreases hi - lo,
{
    if lo < hi {
        lemma_tree_sum_is_range_sum(t, lo + 1, hi);
    }
}

/// Halving commutes with the sibling-path position chain.
proof fn lemma_path_pos_shift(start: int, k: nat)
    ensures
        path_pos(start, k + 1) == path_pos(start / 2, k),
    decreases k,
{
    if k == 0 {
        assert(path_pos(start, 1) == path_pos(start, 0) / 2);
        assert(path_pos(start, 0) == start);
        assert(path_pos(start / 2, 0) == start / 2);
    } else {
        lemma_path_pos_shift(start, (k - 1) as nat);
        assert(path_pos(start, k + 1) == path_pos(start, k) / 2);
        assert(path_pos(start / 2, k) == path_pos(start / 2, (k - 1) as nat) / 2);
        assert(path_pos(start, k) == path_pos(start, (k - 1) as nat) / 2);
    }
}

/// Climbing from a slot under a power-of-two offset lands on the root.
proof fn lemma_path_pos_lands(sd: int, k: nat)
    requires
        0 <= sd < pow2int(k),
    ensures
        path_pos(sd + pow2int(k), k) == 1,
    decreases k,
{
    if k == 0 {
        assert(path_pos(sd + 1, 0) == sd + 1);
    } else {
        let w2 = pow2int((k - 1) as nat);
        lemma_pow2int_pos((k - 1) as nat);
        vstd::arithmetic::div_mod::lemma_fundamental_div_mod(sd, 2);
        vstd::arithmetic::div_mod::lemma_fundamental_div_mod_converse_div(
            sd + 2 * w2,
            2,
            sd / 2 + w2,
            sd % 2,
        );
        assert((sd + pow2int(k)) / 2 == sd / 2 + w2);
        assert(sd / 2 < w2);
        lemma_path_pos_shift(sd + pow2int(k), (k - 1) as nat);
        lemma_path_pos_lands(sd / 2, (k - 1) as nat);
    }
}

/// One climbing step: combining the node at an index with its stored
/// sibling, in the order its parity dictates, yields the stored parent.
#[verifier::spinoff_prover]
proof fn lemma_climb_step(t: &MerkleTree, pos: int, parity: int)
    requires
        t.wf(),
        2 <= pos < 2 * t.num_slots(),
        1 <= pos / 2 < t.num_slots(),
        parity == pos % 2,
    ensures
        parity == 1 ==> pos == 2 * (pos / 2) + 1 && sibling(pos) == pos - 1 && t.node_at(
            pos / 2,
        ) == (t.node_at(pos - 1).0 + t.node_at(pos).0, node_hash_spec(
            t.node_at(pos - 1),
            t.node_at(pos),
        )),
        parity == 0 ==> pos == 2 * (pos / 2) && sibling(pos) == pos + 1 && t.node_at(
            pos / 2,
        ) == (t.node_at(pos).0 + t.node_at(pos + 1).0, node_hash_spec(
            t.node_at(pos),
            t.node_at(pos + 1),
        )),
        t.node_at(pos / 2).0 <= u128::MAX,
{
    vstd::arithmetic::div_mod::lemma_fundamental_div_mod(pos, 2);
    assert(t.nodes@[pos / 2].sum as int == t.nodes@[2 * (pos / 2)].sum + t.nodes@[2 * (pos
        / 2) + 1].sum);
    assert(t.nodes@[pos / 2].hash@ == node_hash_spec(
        t.nodes@[2 * (pos / 2)].view_pair(),
        t.nodes@[2 * (pos / 2) + 1].view_pair(),
    ));
}

/// The honest climb: starting from the node at `pos` and combining with
/// the stored sibling at every level reproduces the stored ancestor.
#[verifier::rlimit(100)]
#[verifier::spinoff_prover]
proof fn lemma_climb(t: &MerkleTree, sd: int, pos: int, k: nat, path: Seq<(int, Seq<u8>)>)
    requires
        t.wf(),
        0 <= sd < pow2int(k),
        pos == sd + pow2int(k),
        pow2int(k) <= t.num_slots(),
        path.len() == k,
        forall|t2: int| 0 <= t2 < path.len() ==> #[trigger] path[t2] == t.node_at(
            sibling(path_pos(pos, t2 as nat)),
        ),
    ensures
        climb_ok(t.node_at(pos), sd, path, t.node_at(path_pos(pos, k))),
    decreases k,
{
    let half = t.num_slots();
    lemma_pow2int_pos(k);
    if k == 0 {
        assert(path_pos(pos, 0) == pos);
    } else {
        let w2 = pow2int((k - 1) as nat);
        lemma_pow2int_pos((k - 1) as nat);
        assert(pos / 2 == sd / 2 + w2 && pos % 2 == sd % 2 && sd / 2 < w2) by {
            vstd::arithmetic::div_mod::lemma_fundamental_div_mod(sd, 2);
            vstd::arithmetic::div_mod::lemma_fundamental_div_mod_converse_div(
                sd + 2 * w2,
                2,
                sd / 2 + w2,
                sd % 2,
            );
            vstd::arithmetic::div_mod::lemma_fundamental_div_mod_converse_mod(
                sd + 2 * w2,
                2,
                sd / 2 + w2,
                sd % 2,
            );
        }
        assert(1 <= pos / 2 < half);
        assert(path[0] == t.node_at(sibling(path_pos(pos, 0))));
        assert(path_pos(pos, 0) == pos);
        lemma_climb_step(t, pos, sd % 2);
        // The tail of the path serves the parent.
        let tail = path.drop_first();
        assert forall|t2: int| 0 <= t2 < tail.len() implies #[trigger] tail[t2]
            == t.node_at(sibling(path_pos(pos / 2, t2 as nat))) by {
            assert(tail[t2] == path[t2 + 1]);
            assert(path[t2 + 1] == t.node_at(sibling(path_pos(pos, (t2 + 1) as nat))));
            lemma_path_pos_shift(pos, t2 as nat);
        }
        lemma_climb(t, sd / 2, pos / 2, (k - 1) as nat, tail);
        lemma_path_pos_shift(pos, (k - 1) as nat);
        assert(climb_ok(t.node_at(pos), sd, path, t.node_at(path_pos(pos, k)))) by {
            let nb = path[0];
            let cur = t.node_at(pos);
            let combined: (int, Seq<u8>) = if sd % 2 == 1 {
                (nb.0 + cur.0, node_hash_spec(nb, cur))
            } else {
                (cur.0 + nb.0, node_hash_spec(cur, nb))
            };
            assert(combined == t.node_at(pos / 2));
            assert(combined.0 <= u128::MAX);
            assert(climb_ok(combined, sd / 2, tail, t.node_at(path_pos(pos / 2, (k
                - 1) as nat))));
            assert(path_pos(pos, k) == path_pos(pos / 2, (k - 1) as nat));
        }
    }
}

/// Completeness of the accumulator: in a well-formed tree, the record at
/// any slot, climbed along its stored sibling path, reproduces the root —
/// an honestly issued inclusion proof always verifies against the tree's
/// own commitment. The hypotheses are exactly what `new`, `get_proof` and
/// `height` ensure.
pub proof fn lemma_honest_proof_verifies(t: &MerkleTree, idx: int, path: Seq<(int, Seq<u8>)>)
    requires
        t.wf(),
        0 <= idx < t.num_slots(),
        pow2int(path.len()) == t.num_slots(),
        forall|i: int| 0 <= i < path.len() ==> #[trigger] path[i] == t.node_at(
            sibling(path_pos(idx + t.num_slots(), i as nat)),
        ),
    ensures
        verify_spec(t.leaf_at(idx).0, t.leaf_at(idx).1, idx, path, t.node_at(1)),
{
    let half = t.num_slots();
    let k = path.len();
    let pos = idx + half;
    assert(t.node_at(pos) == (t.leaf_at(idx).1 as int, leaf_hash_spec(
        t.leaf_at(idx).0,
        t.leaf_at(idx).1,
    )));
    lemma_climb(t, idx, pos, k, path);
    lemma_path_pos_lands(idx, k);
}

/// A vector commitment: commit to a vector, prove and check membership.
/// Implementations say through the spec hooks which inputs they accept
/// and what a well-formed accumulator is.
pub trait VectorCommitment<T, C, P>: Sized {
    /// Which input vectors the accumulator accepts.
    spec fn vc_accepts(vector: Seq<T>) -> bool;

    /// A built accumulator in a usable state.
    spec fn vc_wf(&self) -> bool;

    /// How many slots the accumulator holds.
    spec fn vc_slots(&self) -> int;

    fn init(vector: Vec<T>) -> (s: Self)
        requires
            Self::vc_accepts(vector@),
        ensures
            s.vc_wf(),
    ;

    fn get_commitment(&self) -> C
        requires
            self.vc_wf(),
    ;

    fn get_proof(&self, idx: usize) -> P
        requires
            self.vc_wf(),
            (idx as int) < self.vc_slots(),
    ;

    fn verify(proof: P, commitment: C) -> bool;
}

impl VectorCommitment<UserInfo, Node, Proof> for MerkleTree {
    open spec fn vc_accepts(vector: Seq<UserInfo>) -> bool {
        &&& vector.len() >= 1
        &&& vector.len() <= 0x4000_0000
        &&& forall|i: int| 0 <= i < vector.len() ==> (#[trigger] vector[i]).balance
            <= 0xffff_ffff_ffff_ffffu128
    }

    open spec fn vc_wf(&self) -> bool {
        self.wf()
    }

    open spec fn vc_slots(&self) -> int {
        self.num_slots()
    }

    fn init(vector: Vec<UserInfo>) -> (s: Self) {
        Self::new(vector)
    }

    fn get_commitment(&self) -> Node {
        self.root()
    }

    fn get_proof(&self, idx: usize) -> Proof {
        self.get_proof(idx)
    }

    fn verify(proof: Proof, commitment: Node) -> bool {
        Self::verify(proof, commitment)
    }
}

} // verus!
