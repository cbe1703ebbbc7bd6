use sha2::Digest;
use vstd::arithmetic::power::pow;
use vstd::prelude::*;

use crate::types::L2Account;

verus! {

/// The SHA-256 digest of a byte string.
pub uninterp spec fn sha256(data: Seq<u8>) -> Seq<u8>;

/// Byte `i` (least significant first) of the little-endian encoding of `x`.
pub open spec fn le_byte(x: u64, i: int) -> u8 {
    ((x >> ((8 * i) as u64)) & 0xffu64) as u8
}

/// The 8-byte little-endian encoding of `x`.
pub open spec fn le_bytes(x: u64) -> Seq<u8> {
    Seq::new(8, |i: int| le_byte(x, i))
}

/// The bytes that are hashed to form an account's leaf:
/// public key, then balance and nonce, each as 8 little-endian bytes.
pub open spec fn account_bytes(account: L2Account) -> Seq<u8> {
    account.pubkey@ + le_bytes(account.lamports) + le_bytes(account.nonce)
}

/// The leaf digest of an account.
pub open spec fn account_hash(account: L2Account) -> Seq<u8> {
    sha256(account_bytes(account))
}

/// The digest of an inner node whose children have digests `left` and `right`.
pub open spec fn node_hash(left: Seq<u8>, right: Seq<u8>) -> Seq<u8> {
    sha256(left + right)
}

/// The little-endian encoding lists the base-256 digits of `x`, least
/// significant first: byte `i` is `(x / 256^i) % 256`.
pub proof fn lemma_le_bytes_digits(x: u64)
    ensures
        le_bytes(x).len() == 8,
        forall|i: int| 0 <= i < 8 ==> (#[trigger] le_bytes(x)[i]) as int == (x as int / pow(256, i as nat)) % 256,
{
    reveal_with_fuel(pow, 9);
    assert(pow(256, 0) == 0x1);
    assert(pow(256, 1) == 0x100);
    assert(pow(256, 2) == 0x10000);
    assert(pow(256, 3) == 0x1000000);
    assert(pow(256, 4) == 0x100000000);
    assert(pow(256, 5) == 0x10000000000);
    assert(pow(256, 6) == 0x1000000000000);
    assert(pow(256, 7) == 0x100000000000000);
    assert((x >> 0u64) & 0xffu64 == (x / 0x1u64) % 0x100u64) by (bit_vector);
    assert((x >> 8u64) & 0xffu64 == (x / 0x100u64) % 0x100u64) by (bit_vector);
    assert((x >> 16u64) & 0xffu64 == (x / 0x10000u64) % 0x100u64) by (bit_vector);
    assert((x >> 24u64) & 0xffu64 == (x / 0x1000000u64) % 0x100u64) by (bit_vector);
    assert((x >> 32u64) & 0xffu64 == (x / 0x100000000u64) % 0x100u64) by (bit_vector);
    assert((x >> 40u64) & 0xffu64 == (x / 0x10000000000u64) % 0x100u64) by (bit_vector);
    assert((x >> 48u64) & 0xffu64 == (x / 0x1000000000000u64) % 0x100u64) by (bit_vector);
    assert((x >> 56u64) & 0xffu64 == (x / 0x100000000000000u64) % 0x100u64) by (bit_vector);
    assert forall|i: int| 0 <= i < 8 implies (#[trigger] le_bytes(x)[i]) as int == (x as int / pow(
        256,
        i as nat,
    )) % 256 by {
        assert(le_bytes(x)[i] == le_byte(x, i));
        if i == 0 {
        } else if i == 1 {
        } else if i == 2 {
        } else if i == 3 {
        } else if i == 4 {
        } else if i == 5 {
        } else if i == 6 {
        } else {
        }
    }
}

/// An account's leaf is the SHA-256 digest of 48 bytes: the 32 public-key
/// bytes in their stored order, then the balance and then the nonce, each
/// as 8 base-256 digits, least significant first.
pub proof fn lemma_account_hash_layout(a: L2Account)
    ensures
        account_hash(a) == sha256(account_bytes(a)),
        account_bytes(a).len() == 48,
        account_bytes(a).take(32) == a.pubkey@,
        forall|i: int| 0 <= i < 32 ==> #[trigger] account_bytes(a)[i] == a.pubkey[i],
        forall|i: int|
            0 <= i < 8 ==> (#[trigger] account_bytes(a)[32 + i]) as int == (a.lamports as int / pow(
                256,
                i as nat,
            )) % 256,
        forall|i: int|
            0 <= i < 8 ==> (#[trigger] account_bytes(a)[40 + i]) as int == (a.nonce as int / pow(
                256,
                i as nat,
            )) % 256,
{
    lemma_le_bytes_digits(a.lamports);
    lemma_le_bytes_digits(a.nonce);
    let b = account_bytes(a);
    assert(b.take(32) =~= a.pubkey@);
    assert forall|i: int| 0 <= i < 8 implies (#[trigger] b[32 + i]) as int == (a.lamports as int / pow(
        256,
        i as nat,
    )) % 256 by {
        assert(b[32 + i] == le_bytes(a.lamports)[i]);
    }
    assert forall|i: int| 0 <= i < 8 implies (#[trigger] b[40 + i]) as int == (a.nonce as int / pow(
        256,
        i as nat,
    )) % 256 by {
        assert(b[40 + i] == le_bytes(a.nonce)[i]);
    }
}

/// A parent's digest is the SHA-256 digest of its two children's digests
/// laid end to end, left child first, each in its own byte order.
pub proof fn lemma_node_hash_concatenates(left: Seq<u8>, right: Seq<u8>)
    ensures
        node_hash(left, right) == sha256(left + right),
        (left + right).take(left.len() as int) == left,
        (left + right).skip(left.len() as int) == right,
{
    assert((left + right).take(left.len() as int) =~= left);
    assert((left + right).skip(left.len() as int) =~= right);
}

/// Hash arbitrary bytes.
///
/// Calls `sha2::Sha256::digest`; the contract claims only that the 32 bytes
/// returned are the SHA-256 digest of `data`, which Verus takes on trust.
#[verifier::external_body]
pub fn hash_bytes(data: &[u8]) -> (digest: [u8; 32])
    ensures
        digest@ == sha256(data@),
{
    sha2::Sha256::digest(data).into()
}

/// Appends the little-endian encoding of `x` to `out`.
fn push_le_bytes(out: &mut Vec<u8>, x: u64)
    ensures
        final(out)@ == old(out)@ + le_bytes(x),
{
    let ghost start = out@;
    let mut i: usize = 0;
    while i < 8
        invariant
            0 <= i <= 8,
            out@ == start + le_bytes(x).take(i as int),
        decreases 8 - i,
    {
        let byte: u8 = ((x >> ((8 * i) as u64)) & 0xff) as u8;
        assert(byte == le_byte(x, i as int));
        out.push(byte);
        assert(le_bytes(x).take(i + 1) =~= le_bytes(x).take(i as int).push(byte));
        i = i + 1;
    }
    assert(le_bytes(x).take(8) =~= le_bytes(x));
}

/// Appends the 32 bytes of `digest` to `out`.
fn push_digest(out: &mut Vec<u8>, digest: &[u8; 32])
    ensures
        final(out)@ == old(out)@ + digest@,
{
    let ghost start = out@;
    let mut i: usize = 0;
    while i < 32
        invariant
            0 <= i <= 32,
            out@ == start + digest@.take(i as int),
        decreases 32 - i,
    {
        out.push(digest[i]);
        assert(digest@.take(i + 1) =~= digest@.take(i as int).push(digest@[i as int]));
        i = i + 1;
    }
    assert(digest@.take(32) =~= digest@);
}

/// Hash a single L2 account into a 32-byte leaf
pub fn hash_account(account: &L2Account) -> (digest: [u8; 32])
    ensures
        digest@ == account_hash(*account),
        digest@ == sha256(account_bytes(*account)),
{
    let mut bytes: Vec<u8> = Vec::new();
    push_digest(&mut bytes, &account.pubkey);
    push_le_bytes(&mut bytes, account.lamports);
    push_le_bytes(&mut bytes, account.nonce);
    assert(bytes@ =~= account_bytes(*account));
    hash_bytes(bytes.as_slice())
}

/// Hash two 32-byte nodes into a parent node (left || right)
pub fn hash_pair(left: &[u8; 32], right: &[u8; 32]) -> (digest: [u8; 32])
    ensures
        digest@ == node_hash(left@, right@),
        digest@ == sha256(left@ + right@),
{
    let mut bytes: Vec<u8> = Vec::new();
    push_digest(&mut bytes, left);
    push_digest(&mut bytes, right);
    assert(bytes@ =~= left@ + right@);
    hash_bytes(bytes.as_slice())
}

} // verus!
