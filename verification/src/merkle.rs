use vstd::prelude::*;

use crate::hash::{account_hash, hash_account, hash_pair, lemma_node_hash_concatenates, node_hash, sha256};
use crate::order::{
    distinct_pubkeys, lemma_permutation_same_selections, lemma_sort_by_pubkey_ignores_order,
    sort_accounts_by_pubkey, sort_by_pubkey, with_pubkey,
};
use crate::types::{digests, fold_path, path_bit, L2Account, MerkleProof};

verus! {

/// Capacity: 16 leaves (next power of 2 above 10 accounts)
pub const CAPACITY: usize = 16;

/// Number of levels between a leaf and the root: log2(CAPACITY)
pub const DEPTH: usize = 4;

/// The digest of an empty leaf slot: 32 zero bytes.
pub open spec fn zero_digest() -> Seq<u8> {
    Seq::new(32, |i: int| 0u8)
}

/// The digest of node `i` of the tree over `leaves`, numbered as a heap:
/// the root is node 1, the children of node `i` are `2i` and `2i + 1`, and
/// leaf `j` is node `CAPACITY + j`.
pub open spec fn node_digest(leaves: Seq<Seq<u8>>, i: int) -> Seq<u8>
    decreases 2 * CAPACITY - i,
{
    if i >= CAPACITY {
        leaves[i - CAPACITY]
    } else if i < 1 {
        zero_digest()
    } else {
        node_hash(node_digest(leaves, 2 * i), node_digest(leaves, 2 * i + 1))
    }
}

/// The root digest of the tree over `leaves`.
pub open spec fn merkle_root(leaves: Seq<Seq<u8>>) -> Seq<u8> {
    node_digest(leaves, 1)
}

/// The leaf digests of the tree over `accounts`: the digests of the first
/// `CAPACITY` accounts in order of public key, then zero digests.
pub open spec fn account_leaves(accounts: Seq<L2Account>) -> Seq<Seq<u8>> {
    let sorted = sort_by_pubkey(accounts);
    Seq::new(
        CAPACITY as nat,
        |j: int|
            if j < sorted.len() {
                account_hash(sorted[j])
            } else {
                zero_digest()
            },
    )
}

/// The node reached from leaf `index` after climbing `level` levels.
pub open spec fn path_node(index: int, level: int) -> int
    decreases level,
{
    if level <= 0 {
        CAPACITY + index
    } else {
        path_node(index, level - 1) / 2
    }
}

/// The other child of the parent of node `n`.
pub open spec fn sibling_node(n: int) -> int {
    if n % 2 == 0 {
        n + 1
    } else {
        n - 1
    }
}

/// The sibling digests on the path from leaf `index` to the root.
pub open spec fn proof_siblings(leaves: Seq<Seq<u8>>, index: int) -> Seq<Seq<u8>> {
    Seq::new(DEPTH as nat, |k: int| node_digest(leaves, sibling_node(path_node(index, k))))
}

/// The nodes on the path from a leaf to the root of the tree of `CAPACITY`
/// leaves, and how each one's parity is the path bit of the leaf's index.
proof fn lemma_path_nodes(index: u32)
    requires
        index < CAPACITY,
    ensures
        forall|k: int| 0 <= k < DEPTH ==> 2 <= #[trigger] path_node(index as int, k) < 2 * CAPACITY,
        forall|k: int| 0 <= k < DEPTH ==> path_bit(index, k) == #[trigger] path_node(index as int, k) % 2,
        path_node(index as int, DEPTH as int) == 1,
{
    reveal_with_fuel(path_node, 5);
    let i = index as int;
    assert(path_node(i, 0) == 16 + i);
    assert(path_node(i, 1) == (16 + i) / 2);
    assert(path_node(i, 2) == (16 + i) / 2 / 2);
    assert(path_node(i, 3) == (16 + i) / 2 / 2 / 2);
    assert(path_node(i, 4) == (16 + i) / 2 / 2 / 2 / 2);
    assert(index < 16 ==> (index >> 0u32) & 1u32 == (16 + index) % 2) by (bit_vector);
    assert(index < 16 ==> (index >> 1u32) & 1u32 == ((16 + index) / 2) % 2) by (bit_vector);
    assert(index < 16 ==> (index >> 2u32) & 1u32 == ((16 + index) / 2 / 2) % 2) by (bit_vector);
    assert(index < 16 ==> (index >> 3u32) & 1u32 == ((16 + index) / 2 / 2 / 2) % 2) by (bit_vector);
    assert forall|k: int| 0 <= k < DEPTH implies path_bit(index, k) == #[trigger] path_node(i, k) % 2 by {
        if k == 0 {
        } else if k == 1 {
        } else if k == 2 {
        } else {
        }
    }
}

/// Combining leaf `index` with its first `k` sibling digests yields the
/// digest of its ancestor `k` levels up.
proof fn lemma_fold_reaches_ancestor(leaves: Seq<Seq<u8>>, index: u32, k: int)
    requires
        leaves.len() == CAPACITY,
        index < CAPACITY,
        0 <= k <= DEPTH,
    ensures
        fold_path(leaves[index as int], proof_siblings(leaves, index as int).take(k), index)
            == node_digest(leaves, path_node(index as int, k)),
    decreases k,
{
    let sibs = proof_siblings(leaves, index as int);
    if k == 0 {
        assert(sibs.take(0) =~= Seq::<Seq<u8>>::empty());
    } else {
        lemma_fold_reaches_ancestor(leaves, index, k - 1);
        lemma_path_nodes(index);
        let taken = sibs.take(k);
        assert(taken.drop_last() =~= sibs.take(k - 1));
        let n = path_node(index as int, k - 1);
        let parent = path_node(index as int, k);
        assert(parent == n / 2);
        assert(path_bit(index, k - 1) == n % 2);
        assert(taken.last() == node_digest(leaves, sibling_node(n)));
        assert(1 <= parent < CAPACITY);
        if n % 2 == 0 {
            assert(2 * parent == n);
        } else {
            assert(2 * parent + 1 == n);
        }
    }
}

/// Every inclusion proof of the tree over `leaves` leads back to its root:
/// combining leaf `index` with the sibling digests that `inclusion_proof`
/// hands out, as `verify` does, yields `merkle_root(leaves)`.
pub proof fn lemma_inclusion_proof_verifies(leaves: Seq<Seq<u8>>, index: int)
    requires
        leaves.len() == CAPACITY,
        0 <= index < CAPACITY,
    ensures
        fold_path(leaves[index], proof_siblings(leaves, index), index as u32) == merkle_root(leaves),
{
    lemma_fold_reaches_ancestor(leaves, index as u32, DEPTH as int);
    lemma_path_nodes(index as u32);
    assert(proof_siblings(leaves, index).take(DEPTH as int) =~= proof_siblings(leaves, index));
}

/// The digests one level up from `level`: each is the SHA-256 digest of a
/// consecutive pair, the left digest first.
pub open spec fn pair_up(level: Seq<Seq<u8>>) -> Seq<Seq<u8>> {
    Seq::new(level.len() / 2, |j: int| sha256(level[2 * j] + level[2 * j + 1]))
}

/// The root of the tree is what pairing the 16 leaves up, level by level,
/// leaves over: every inner node hashes its left child's digest followed by
/// its right child's.
pub proof fn lemma_merkle_root_pairs_levels(leaves: Seq<Seq<u8>>)
    requires
        leaves.len() == CAPACITY,
    ensures
        merkle_root(leaves) == pair_up(pair_up(pair_up(pair_up(leaves))))[0],
        forall|i: int| 8 <= i < 16 ==> #[trigger] node_digest(leaves, i) == pair_up(leaves)[i - 8],
        forall|i: int| 4 <= i < 8 ==> #[trigger] node_digest(leaves, i) == pair_up(pair_up(leaves))[i - 4],
        forall|i: int|
            2 <= i < 4 ==> #[trigger] node_digest(leaves, i) == pair_up(pair_up(pair_up(leaves)))[i - 2],
{
    let l1 = pair_up(leaves);
    let l2 = pair_up(l1);
    let l3 = pair_up(l2);
    let l4 = pair_up(l3);
    assert forall|i: int| 8 <= i < 16 implies #[trigger] node_digest(leaves, i) == l1[i - 8] by {
        let a = node_digest(leaves, 2 * i);
        let b = node_digest(leaves, 2 * i + 1);
        assert(a == leaves[2 * (i - 8)]);
        assert(b == leaves[2 * (i - 8) + 1]);
        lemma_node_hash_concatenates(a, b);
    }
    assert forall|i: int| 4 <= i < 8 implies #[trigger] node_digest(leaves, i) == l2[i - 4] by {
        let a = node_digest(leaves, 2 * i);
        let b = node_digest(leaves, 2 * i + 1);
        assert(a == l1[2 * (i - 4)]);
        assert(b == l1[2 * (i - 4) + 1]);
        lemma_node_hash_concatenates(a, b);
    }
    assert forall|i: int| 2 <= i < 4 implies #[trigger] node_digest(leaves, i) == l3[i - 2] by {
        let a = node_digest(leaves, 2 * i);
        let b = node_digest(leaves, 2 * i + 1);
        assert(a == l2[2 * (i - 2)]);
        assert(b == l2[2 * (i - 2) + 1]);
        lemma_node_hash_concatenates(a, b);
    }
    let a = node_digest(leaves, 2);
    let b = node_digest(leaves, 3);
    assert(a == l3[0]);
    assert(b == l3[1]);
    lemma_node_hash_concatenates(a, b);
}

/// The leaves of the tree over a list of accounts do not depend on the order
/// of the list, as long as accounts that share a public key keep their
/// relative order.
pub proof fn lemma_account_leaves_ignore_order(a1: Seq<L2Account>, a2: Seq<L2Account>)
    requires
        forall|key: Seq<u8>| #[trigger] with_pubkey(a1, key) == with_pubkey(a2, key),
    ensures
        account_leaves(a1) == account_leaves(a2),
{
    lemma_sort_by_pubkey_ignores_order(a1, a2);
}

/// Any reordering of accounts with distinct public keys builds the same tree.
pub proof fn lemma_account_leaves_permutation(a1: Seq<L2Account>, a2: Seq<L2Account>)
    requires
        a1.to_multiset() == a2.to_multiset(),
        distinct_pubkeys(a1),
        distinct_pubkeys(a2),
    ensures
        account_leaves(a1) == account_leaves(a2),
{
    lemma_permutation_same_selections(a1, a2);
    lemma_sort_by_pubkey_ignores_order(a1, a2);
}

pub struct MerkleTree {
    /// Leaf hashes, length == CAPACITY, padded with [0u8;32]
    leaves: [[u8; 32]; 16],
    /// Full binary tree stored flat, length == 2*CAPACITY
    /// nodes[1] = root, nodes[2..3] = depth-1, nodes[CAPACITY..2*CAPACITY-1] = leaves
    nodes: [[u8; 32]; 32],
}

impl View for MerkleTree {
    type V = Seq<Seq<u8>>;

    /// The leaf digests, in slot order.
    closed spec fn view(&self) -> Seq<Seq<u8>> {
        digests(self.leaves@)
    }
}

impl MerkleTree {
    /// Every stored inner node and leaf node holds the digest that the leaves determine.
    #[verifier::type_invariant]
    spec fn well_formed(self) -> bool {
        forall|i: int| 1 <= i < 2 * CAPACITY ==> (#[trigger] self.nodes@[i])@ == node_digest(digests(self.leaves@), i)
    }

    /// The tree has exactly `CAPACITY` leaves.
    pub proof fn lemma_len(&self)
        ensures
            self@.len() == CAPACITY,
    {
    }

    /// Build tree from accounts sorted by pubkey. Accounts beyond CAPACITY are ignored.
    pub fn from_accounts(accounts: &[L2Account]) -> (tree: Self)
        ensures
            tree@ == account_leaves(accounts@),
    {
        // Sort by pubkey for determinism
        let sorted = sort_accounts_by_pubkey(accounts);
        let ghost target = account_leaves(accounts@);

        let mut leaves: [[u8; 32]; 16] = [[0u8; 32]; 16];
        let count = if sorted.len() < CAPACITY { sorted.len() } else { CAPACITY };
        let mut i: usize = 0;
        while i < CAPACITY
            invariant
                count <= CAPACITY,
                count <= sorted@.len(),
                count == sorted@.len() || count == CAPACITY,
                sorted@ == sort_by_pubkey(accounts@),
                target == account_leaves(accounts@),
                0 <= i <= CAPACITY,
                forall|j: int| 0 <= j < i ==> (#[trigger] leaves@[j])@ == target[j],
                forall|j: int| i <= j < CAPACITY ==> (#[trigger] leaves@[j])@ == zero_digest(),
            decreases CAPACITY - i,
        {
            if i < count {
                leaves[i] = hash_account(&sorted[i]);
            }
            i = i + 1;
        }
        assert(digests(leaves@) =~= target);

        let mut nodes: [[u8; 32]; 32] = [[0u8; 32]; 32];
        // Copy leaves into bottom of tree (indices CAPACITY..2*CAPACITY)
        let mut j: usize = 0;
        while j < CAPACITY
            invariant
                0 <= j <= CAPACITY,
                digests(leaves@) == target,
                forall|m: int| CAPACITY <= m < CAPACITY + j ==> (#[trigger] nodes@[m])@ == target[m - CAPACITY],
            decreases CAPACITY - j,
        {
            nodes[CAPACITY + j] = leaves[j];
            j = j + 1;
        }
        // Build internal nodes bottom-up
        let mut k: usize = CAPACITY;
        while k > 1
            invariant
                1 <= k <= CAPACITY,
                digests(leaves@) == target,
                forall|m: int| k <= m < 2 * CAPACITY ==> (#[trigger] nodes@[m])@ == node_digest(target, m),
            decreases k,
        {
            k = k - 1;
            let parent = hash_pair(&nodes[2 * k], &nodes[2 * k + 1]);
            nodes[k] = parent;
        }
        MerkleTree { leaves, nodes }
    }

    /// Root hash of the tree
    pub fn root(&self) -> (root: [u8; 32])
        ensures
            root@ == merkle_root(self@),
    {
        proof {
            use_type_invariant(self);
        }
        self.nodes[1]
    }

    /// The leaf hashes, in slot order.
    pub fn leaves(&self) -> (leaves: [[u8; 32]; 16])
        ensures
            digests(leaves@) == self@,
    {
        self.leaves
    }

    /// Generate a merkle proof for the leaf at `index` (0-based among sorted leaves)
    pub fn inclusion_proof(&self, index: usize) -> (result: MerkleProof)
        requires
            index < CAPACITY,
        ensures
            result.leaf@ == self@[index as int],
            result.siblings@.len() == DEPTH,
            digests(result.siblings@) == proof_siblings(self@, index as int),
            result.index == index,
    {
        proof {
            use_type_invariant(self);
        }
        let leaf = self.leaves[index];
        let mut siblings: Vec<[u8; 32]> = Vec::new();
        let mut node_idx = CAPACITY + index;
        let mut level: usize = 0;
        while level < DEPTH
            invariant
                index < CAPACITY,
                0 <= level <= DEPTH,
                node_idx == path_node(index as int, level as int),
                level == 0 ==> CAPACITY <= node_idx < 2 * CAPACITY,
                level == 1 ==> 8 <= node_idx < 16,
                level == 2 ==> 4 <= node_idx < 8,
                level == 3 ==> 2 <= node_idx < 4,
                level == 4 ==> node_idx == 1,
                siblings@.len() == level,
                forall|m: int| 0 <= m < level ==> (#[trigger] siblings@[m])@ == proof_siblings(self@, index as int)[m],
            decreases DEPTH - level,
        {
            let sibling_idx = if node_idx % 2 == 0 {
                node_idx + 1
            } else {
                node_idx - 1
            };
            proof {
                use_type_invariant(self);
            }
            assert(sibling_idx == sibling_node(node_idx as int));
            assert(self.nodes@[sibling_idx as int]@ == node_digest(self@, sibling_idx as int));
            assert(proof_siblings(self@, index as int)[level as int] == node_digest(self@, sibling_idx as int));
            siblings.push(self.nodes[sibling_idx]);
            node_idx = node_idx / 2;
            level = level + 1;
        }
        assert(digests(siblings@) =~= proof_siblings(self@, index as int));
        MerkleProof { leaf, siblings, index: index as u32 }
    }
}

} // verus!
