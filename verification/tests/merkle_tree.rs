use kzg_solvency::merkle::{MerkleTree, Node, Proof, UserInfo};

fn users(balances: &[u128]) -> Vec<UserInfo> {
    balances
        .iter()
        .enumerate()
        .map(|(i, b)| UserInfo { email: format!("user_{i}@example.com"), balance: *b })
        .collect()
}

#[test]
fn root_sums_all_balances() {
    let tree = MerkleTree::new(users(&[10, 20, 30, 40]));
    assert_eq!(tree.root().sum, 100);
    assert_eq!(tree.height(), 2);
}

#[test]
fn padding_keeps_sum_and_grows_to_power_of_two() {
    let tree = MerkleTree::new(users(&[7, 8, 9]));
    assert_eq!(tree.root().sum, 24);
    assert_eq!(tree.height(), 2);
    assert_eq!(tree.get_elem(3).balance, 0);
}

#[test]
fn proof_roundtrip_verifies() {
    let tree = MerkleTree::new(users(&[10, 20, 30, 40]));
    let root = tree.root();
    for i in 0..4 {
        let proof = tree.get_proof(i);
        assert_eq!(proof.idx, i);
        assert!(MerkleTree::verify(proof, root.dup()));
    }
}

#[test]
fn tampered_balance_rejected() {
    let tree = MerkleTree::new(users(&[10, 20, 30, 40]));
    let root = tree.root();
    let honest = tree.get_proof(2);
    let tampered = Proof {
        element: UserInfo { email: honest.element.email.clone(), balance: 31 },
        idx: honest.idx,
        path: honest.path,
    };
    assert!(!MerkleTree::verify(tampered, root));
}

#[test]
fn proof_against_wrong_root_rejected() {
    let tree = MerkleTree::new(users(&[10, 20, 30, 40]));
    let other = MerkleTree::new(users(&[10, 20, 30, 41]));
    let proof = tree.get_proof(1);
    assert!(!MerkleTree::verify(proof, other.root()));
}

#[test]
fn single_leaf_tree_verifies() {
    let tree = MerkleTree::new(users(&[55]));
    assert_eq!(tree.root().sum, 55);
    assert_eq!(tree.height(), 0);
    let proof = tree.get_proof(0);
    assert!(MerkleTree::verify(proof, tree.root()));
}

#[test]
fn combine_nodes_adds_sums() {
    let tree = MerkleTree::new(users(&[1, 2]));
    let a = tree.get_proof(0);
    let b = tree.get_proof(1);
    let left = Node { sum: a.element.balance, hash: MerkleTree::hash_leaf(a.element) };
    let right = Node { sum: b.element.balance, hash: MerkleTree::hash_leaf(b.element) };
    let parent = MerkleTree::combine_nodes(left, right);
    assert_eq!(parent.sum, 3);
    assert_eq!(parent.hash, tree.root().hash);
}
