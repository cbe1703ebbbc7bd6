use common::merkle::{MerkleTree, CAPACITY, DEPTH};
use common::types::L2Account;

fn make_account(seed: u8, lamports: u64) -> L2Account {
    L2Account {
        pubkey: [seed; 32],
        lamports,
        nonce: 0,
    }
}

#[test]
fn build_and_verify_all_proofs() {
    let accounts: Vec<L2Account> = (0..10).map(|i| make_account(i, 1000 * i as u64)).collect();
    let tree = MerkleTree::from_accounts(&accounts);
    let root = tree.root();

    for i in 0..10 {
        let proof = tree.inclusion_proof(i);
        assert!(proof.verify(&root), "proof {} should verify", i);
    }
}

#[test]
fn modified_account_changes_root() {
    let accounts: Vec<L2Account> = (0..10).map(|i| make_account(i, 1000)).collect();
    let tree1 = MerkleTree::from_accounts(&accounts);

    let mut modified = accounts.clone();
    modified[5].lamports = 9999;
    let tree2 = MerkleTree::from_accounts(&modified);

    assert_ne!(tree1.root(), tree2.root());
}

#[test]
fn tampered_proof_fails() {
    let accounts: Vec<L2Account> = (0..10).map(|i| make_account(i, 1000)).collect();
    let tree = MerkleTree::from_accounts(&accounts);
    let root = tree.root();

    let mut proof = tree.inclusion_proof(3);
    proof.siblings[0] = [0xff; 32]; // corrupt one sibling
    assert!(!proof.verify(&root));
}

#[test]
fn wrong_index_proof_fails() {
    let accounts: Vec<L2Account> = (0..10).map(|i| make_account(i, 1000)).collect();
    let tree = MerkleTree::from_accounts(&accounts);
    let root = tree.root();

    let mut proof = tree.inclusion_proof(2);
    proof.index = 7; // wrong path
    assert!(!proof.verify(&root));
}

#[test]
fn empty_slots_are_zero_hashes() {
    // 10 accounts -> leaves 10..15 should be [0;32]
    let accounts: Vec<L2Account> = (0..10).map(|i| make_account(i, 1000)).collect();
    let tree = MerkleTree::from_accounts(&accounts);
    for i in 10..CAPACITY {
        assert_eq!(tree.leaves()[i], [0u8; 32]);
    }
}

#[test]
fn every_slot_has_a_verifying_proof() {
    let accounts: Vec<L2Account> = (0..16).map(|i| make_account(i, 7 * i as u64)).collect();
    let tree = MerkleTree::from_accounts(&accounts);
    let root = tree.root();
    for i in 0..CAPACITY {
        let proof = tree.inclusion_proof(i);
        assert_eq!(proof.siblings.len(), DEPTH);
        assert_eq!(proof.index, i as u32);
        assert_eq!(proof.leaf, tree.leaves()[i]);
        assert!(proof.verify(&root));
    }
}

#[test]
fn empty_slot_proof_verifies() {
    let tree = MerkleTree::from_accounts(&[make_account(1, 5)]);
    let proof = tree.inclusion_proof(12);
    assert_eq!(proof.leaf, [0u8; 32]);
    assert!(proof.verify(&tree.root()));
}

#[test]
fn leaves_are_sorted_by_pubkey() {
    let accounts = vec![make_account(9, 1), make_account(3, 2), make_account(6, 3)];
    let tree = MerkleTree::from_accounts(&accounts);
    let leaves = tree.leaves();
    assert_eq!(leaves[0], common::hash::hash_account(&make_account(3, 2)));
    assert_eq!(leaves[1], common::hash::hash_account(&make_account(6, 3)));
    assert_eq!(leaves[2], common::hash::hash_account(&make_account(9, 1)));
    assert_eq!(leaves[3], [0u8; 32]);
}

#[test]
fn input_order_does_not_change_root() {
    let accounts: Vec<L2Account> = (0..12).map(|i| make_account(i, 100 + i as u64)).collect();
    let mut reversed = accounts.clone();
    reversed.reverse();
    let tree1 = MerkleTree::from_accounts(&accounts);
    let tree2 = MerkleTree::from_accounts(&reversed);
    assert_eq!(tree1.root(), tree2.root());
    assert_eq!(tree1.leaves(), tree2.leaves());
}

#[test]
fn accounts_beyond_capacity_are_ignored() {
    // 20 accounts given in descending key order: only the 16 smallest keys are kept.
    let accounts: Vec<L2Account> = (0..20).rev().map(|i| make_account(i, 1)).collect();
    let tree = MerkleTree::from_accounts(&accounts);
    let first_sixteen: Vec<L2Account> = (0..16).map(|i| make_account(i, 1)).collect();
    let expected = MerkleTree::from_accounts(&first_sixteen);
    assert_eq!(tree.root(), expected.root());
    assert_eq!(tree.leaves()[15], common::hash::hash_account(&make_account(15, 1)));
}

#[test]
fn empty_tree_root_is_zero_tree_hash() {
    let tree = MerkleTree::from_accounts(&[]);
    let mut level = [0u8; 32];
    for _ in 0..DEPTH {
        level = common::hash::hash_pair(&level, &level);
    }
    assert_eq!(tree.root(), level);
}

#[test]
fn root_of_two_accounts_by_hand() {
    let a = make_account(2, 10);
    let b = make_account(1, 20);
    let tree = MerkleTree::from_accounts(&[a.clone(), b.clone()]);
    let zero = [0u8; 32];
    let la = common::hash::hash_account(&a);
    let lb = common::hash::hash_account(&b);
    // leaves: b (smaller key), a, then zeros
    let mut level: Vec<[u8; 32]> = vec![lb, la];
    level.resize(CAPACITY, zero);
    while level.len() > 1 {
        level = level
            .chunks(2)
            .map(|pair| common::hash::hash_pair(&pair[0], &pair[1]))
            .collect();
    }
    assert_eq!(tree.root(), level[0]);
}

#[test]
fn equal_keys_keep_input_order() {
    let first = L2Account { pubkey: [4; 32], lamports: 1, nonce: 1 };
    let second = L2Account { pubkey: [4; 32], lamports: 2, nonce: 2 };
    let smaller = L2Account { pubkey: [1; 32], lamports: 3, nonce: 3 };
    let tree = MerkleTree::from_accounts(&[first.clone(), second.clone(), smaller.clone()]);
    let leaves = tree.leaves();
    assert_eq!(leaves[0], common::hash::hash_account(&smaller));
    assert_eq!(leaves[1], common::hash::hash_account(&first));
    assert_eq!(leaves[2], common::hash::hash_account(&second));
}
