use vstd::prelude::*;

use vstd::arithmetic::power2::pow2;

use crate::hash::{hash_pair, lemma_node_hash_concatenates, node_hash, sha256};

verus! {

/// A single L2 account
#[derive(Clone, Debug, PartialEq, Eq)]
pub struct L2Account {
    pub pubkey: [u8; 32],
    pub lamports: u64,
    pub nonce: u64,
}

/// A batch of executed transactions committed to L1
#[derive(Clone, Debug)]
pub struct StateBatch {
    pub batch_number: u64,
    pub prev_state_root: [u8; 32],
    pub new_state_root: [u8; 32],
    pub tx_count: u32,
    pub sequencer_signature: [u8; 64],
}

/// An L2 transfer transaction
#[derive(Clone, Debug)]
pub struct L2Transaction {
    pub from: [u8; 32],
    pub to: [u8; 32],
    pub amount: u64,
    pub nonce: u64,
    pub signature: [u8; 64],
}

/// Merkle inclusion proof for an L2 account
#[derive(Clone, Debug)]
pub struct MerkleProof {
    /// The leaf hash being proven
    pub leaf: [u8; 32],
    /// Sibling hashes from leaf to root (depth 4 for 16 leaves)
    pub siblings: Vec<[u8; 32]>,
    /// Bit-path: bit i = 0 means leaf is on left at level i
    pub index: u32,
}

/// Bit `level` of `index`: 0 when the path runs through a left child at
/// that level, 1 when through a right child.
pub open spec fn path_bit(index: u32, level: int) -> u32 {
    (index >> (level as u32)) & 1u32
}

/// The digest reached from `leaf` by combining it, level by level, with the
/// digests in `siblings`: on the left where the path bit is 0, on the right
/// where it is 1.
pub open spec fn fold_path(leaf: Seq<u8>, siblings: Seq<Seq<u8>>, index: u32) -> Seq<u8>
    decreases siblings.len(),
{
    if siblings.len() == 0 {
        leaf
    } else {
        let below = fold_path(leaf, siblings.drop_last(), index);
        if path_bit(index, siblings.len() - 1) == 0 {
            node_hash(below, siblings.last())
        } else {
            node_hash(siblings.last(), below)
        }
    }
}

/// Bit `level` of `index` is its binary digit of weight `2^level`.
pub proof fn lemma_path_bit_digit(index: u32, level: int)
    requires
        0 <= level < 32,
    ensures
        path_bit(index, level) as int == (index as int / pow2(level as nat) as int) % 2,
{
    let y = index >> (level as u32);
    vstd::bits::lemma_u32_shr_is_div(index, level as u32);
    assert(y & 1u32 == y % 2) by (bit_vector);
}

/// Checking a proof starts from the leaf, and each further sibling is
/// hashed together with the digest reached so far: the digest so far on the
/// left when the index's binary digit for that level is 0, on the right when
/// it is 1.
pub proof fn lemma_fold_path_steps(leaf: Seq<u8>, siblings: Seq<Seq<u8>>, sibling: Seq<u8>, index: u32)
    requires
        siblings.len() < 32,
    ensures
        fold_path(leaf, Seq::empty(), index) == leaf,
        fold_path(leaf, siblings.push(sibling), index) == if (index as int / pow2(
            siblings.len(),
        ) as int) % 2 == 0 {
            sha256(fold_path(leaf, siblings, index) + sibling)
        } else {
            sha256(sibling + fold_path(leaf, siblings, index))
        },
{
    let longer = siblings.push(sibling);
    assert(longer.drop_last() =~= siblings);
    lemma_path_bit_digit(index, siblings.len() as int);
    let below = fold_path(leaf, siblings, index);
    lemma_node_hash_concatenates(below, sibling);
    lemma_node_hash_concatenates(sibling, below);
}

/// The digests held in a list of 32-byte nodes.
pub open spec fn digests(nodes: Seq<[u8; 32]>) -> Seq<Seq<u8>> {
    nodes.map_values(|d: [u8; 32]| d@)
}

/// Compares two digests byte by byte.
pub fn digest_eq(a: &[u8; 32], b: &[u8; 32]) -> (eq: bool)
    ensures
        eq == (a@ == b@),
{
    let mut i: usize = 0;
    while i < 32
        invariant
            0 <= i <= 32,
            forall|j: int| 0 <= j < i ==> a@[j] == b@[j],
        decreases 32 - i,
    {
        if a[i] != b[i] {
            return false;
        }
        i = i + 1;
    }
    assert(a@ =~= b@);
    true
}

impl MerkleProof {
    /// The digest this proof leads to from its leaf.
    pub open spec fn computed_root(&self) -> Seq<u8> {
        fold_path(self.leaf@, digests(self.siblings@), self.index)
    }

    /// Verify this proof against a known root
    pub fn verify(&self, root: &[u8; 32]) -> (valid: bool)
        requires
            self.siblings@.len() <= 32,
        ensures
            valid == (self.computed_root() == root@),
    {
        let ghost sibs = digests(self.siblings@);
        let mut current: [u8; 32] = self.leaf;
        let n = self.siblings.len();
        let mut i: usize = 0;
        assert(sibs.take(0) =~= Seq::<Seq<u8>>::empty());
        while i < n
            invariant
                n == self.siblings@.len(),
                n <= 32,
                0 <= i <= n,
                sibs == digests(self.siblings@),
                current@ == fold_path(self.leaf@, sibs.take(i as int), self.index),
            decreases n - i,
        {
            let sibling = &self.siblings[i];
            let bit = (self.index >> (i as u32)) & 1;
            assert(sibs.take(i + 1).drop_last() =~= sibs.take(i as int));
            assert(sibs.take(i + 1).last() == sibling@);
            current = if bit == 0 {
                hash_pair(&current, sibling)
            } else {
                hash_pair(sibling, &current)
            };
            i = i + 1;
        }
        assert(sibs.take(n as int) =~= sibs);
        digest_eq(&current, root)
    }
}

} // verus!
