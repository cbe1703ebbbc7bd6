use common::hash::{hash_account, hash_bytes, hash_pair};
use common::order::{pubkey_lt, sort_accounts_by_pubkey};
use common::types::{digest_eq, L2Account, MerkleProof};
use sha2::{Digest, Sha256};

fn sha(data: &[u8]) -> [u8; 32] {
    let mut hasher = Sha256::new();
    hasher.update(data);
    hasher.finalize().into()
}

#[test]
fn hash_bytes_matches_known_vector() {
    // SHA-256("abc")
    let expected: [u8; 32] = [
        0xba, 0x78, 0x16, 0xbf, 0x8f, 0x01, 0xcf, 0xea, 0x41, 0x41, 0x40, 0xde, 0x5d, 0xae, 0x22,
        0x23, 0xb0, 0x03, 0x61, 0xa3, 0x96, 0x17, 0x7a, 0x9c, 0xb4, 0x10, 0xff, 0x61, 0xf2, 0x00,
        0x15, 0xad,
    ];
    assert_eq!(hash_bytes(b"abc"), expected);
}

#[test]
fn hash_bytes_of_empty_input() {
    // SHA-256("")
    let expected: [u8; 32] = [
        0xe3, 0xb0, 0xc4, 0x42, 0x98, 0xfc, 0x1c, 0x14, 0x9a, 0xfb, 0xf4, 0xc8, 0x99, 0x6f, 0xb9,
        0x24, 0x27, 0xae, 0x41, 0xe4, 0x64, 0x9b, 0x93, 0x4c, 0xa4, 0x95, 0x99, 0x1b, 0x78, 0x52,
        0xb8, 0x55,
    ];
    assert_eq!(hash_bytes(&[]), expected);
}

#[test]
fn hash_pair_hashes_left_then_right() {
    let left = [1u8; 32];
    let right = [2u8; 32];
    let mut both = Vec::new();
    both.extend_from_slice(&left);
    both.extend_from_slice(&right);
    assert_eq!(hash_pair(&left, &right), sha(&both));
    assert_ne!(hash_pair(&left, &right), hash_pair(&right, &left));
}

#[test]
fn hash_account_hashes_key_balance_nonce() {
    let account = L2Account {
        pubkey: [7u8; 32],
        lamports: 0x0102_0304_0506_0708,
        nonce: 42,
    };
    let mut bytes = Vec::new();
    bytes.extend_from_slice(&account.pubkey);
    bytes.extend_from_slice(&[8, 7, 6, 5, 4, 3, 2, 1]);
    bytes.extend_from_slice(&[42, 0, 0, 0, 0, 0, 0, 0]);
    assert_eq!(bytes.len(), 48);
    assert_eq!(hash_account(&account), sha(&bytes));
}

#[test]
fn pubkey_order_is_lexicographic() {
    let mut a = [0u8; 32];
    let mut b = [0u8; 32];
    a[3] = 1;
    b[3] = 1;
    b[31] = 9;
    assert!(pubkey_lt(&a, &b));
    assert!(!pubkey_lt(&b, &a));
    assert!(!pubkey_lt(&a, &a));
    let mut c = [0u8; 32];
    c[0] = 1;
    assert!(pubkey_lt(&b, &c));
    assert_eq!(pubkey_lt(&b, &c), b < c);
}

#[test]
fn sort_is_stable_by_pubkey() {
    let acct = |k: u8, n: u64| L2Account { pubkey: [k; 32], lamports: 0, nonce: n };
    let input = vec![acct(5, 0), acct(2, 1), acct(5, 2), acct(1, 3), acct(2, 4)];
    let sorted = sort_accounts_by_pubkey(&input);
    let nonces: Vec<u64> = sorted.iter().map(|a| a.nonce).collect();
    assert_eq!(nonces, vec![3, 1, 4, 0, 2]);
}

#[test]
fn digest_eq_compares_all_bytes() {
    let a = [3u8; 32];
    let mut b = a;
    assert!(digest_eq(&a, &b));
    b[31] = 4;
    assert!(!digest_eq(&a, &b));
}

#[test]
fn proof_without_siblings_checks_the_leaf() {
    let proof = MerkleProof { leaf: [5u8; 32], siblings: vec![], index: 0 };
    assert!(proof.verify(&[5u8; 32]));
    assert!(!proof.verify(&[6u8; 32]));
}

#[test]
fn right_child_bit_puts_sibling_on_the_left() {
    let leaf = [1u8; 32];
    let sibling = [2u8; 32];
    let left_proof = MerkleProof { leaf, siblings: vec![sibling], index: 0 };
    let right_proof = MerkleProof { leaf, siblings: vec![sibling], index: 1 };
    assert!(left_proof.verify(&hash_pair(&leaf, &sibling)));
    assert!(right_proof.verify(&hash_pair(&sibling, &leaf)));
    assert!(!right_proof.verify(&hash_pair(&leaf, &sibling)));
}
