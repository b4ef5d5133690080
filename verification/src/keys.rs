//! The keys that entries are stored under.
use crate::outside::encode_u32;
use crate::scale::{little_endian, u32_bytes};
use crate::scale_laws::{lemma_hash, lemma_same_head, lemma_u32};
use crate::types::{BlockNumber, CandidateHash, H256};
use vstd::prelude::*;

verus! {

/// `Approvals_`, which every key begins with.
pub open spec fn family_prefix() -> Seq<u8> {
    seq![65u8, 112, 112, 114, 111, 118, 97, 108, 115, 95]
}

/// `Approvals_StoredBlocks`, the key of the range of stored blocks.
#[verifier::opaque]
pub open spec fn range_key() -> Seq<u8> {
    family_prefix() + seq![83u8, 116, 111, 114, 101, 100, 66, 108, 111, 99, 107, 115]
}

/// The key of a block entry: `Approvals_blck` and the hash.
#[verifier::opaque]
pub open spec fn block_key(block_hash: H256) -> Seq<u8> {
    family_prefix() + seq![98u8, 108, 99, 107] + block_hash@
}

/// The key of a candidate entry: `Approvals_cand` and the hash.
#[verifier::opaque]
pub open spec fn candidate_key(candidate_hash: CandidateHash) -> Seq<u8> {
    family_prefix() + seq![99u8, 97, 110, 100] + candidate_hash@
}

/// The key of the list of blocks at a height: `Approvals_at` and the encoded number.
#[verifier::opaque]
pub open spec fn height_key(block_number: BlockNumber) -> Seq<u8> {
    family_prefix() + seq![97u8, 116] + u32_bytes(block_number)
}

/// Bytes begin with the characters of a text.
pub open spec fn spells(key: Seq<u8>, text: Seq<char>) -> bool {
    &&& text.len() <= key.len()
    &&& forall|i: int| 0 <= i < text.len() ==> key[i] as int == #[trigger] text[i] as int
}

/// The key of the range of stored blocks.
pub fn stored_blocks_key() -> (key: [u8; 22])
    ensures
        key@ == range_key(),
        spells(key@, "Approvals_StoredBlocks"@),
{
    proof {
        reveal(range_key);
        reveal_strlit("Approvals_StoredBlocks");
    }
    let key: [u8; 22] = [
        65,
        112,
        112,
        114,
        111,
        118,
        97,
        108,
        115,
        95,
        83,
        116,
        111,
        114,
        101,
        100,
        66,
        108,
        111,
        99,
        107,
        115,
    ];
    assert(key@ =~= range_key());
    key
}

/// A key of 46 bytes that is a prefix of 14 bytes followed by a hash.
fn prefixed_hash(prefix: [u8; 14], hash: &H256) -> (key: [u8; 46])
    ensures
        key@ == prefix@ + hash@,
{
    let mut key: [u8; 46] = [0;46];
    let mut i: usize = 0;
    while i < 14
        invariant
            i <= 14,
            forall|j: int| 0 <= j < i ==> key@[j] == prefix@[j],
        decreases 14 - i,
    {
        key[i] = prefix[i];
        i = i + 1;
    }
    let mut k: usize = 0;
    while k < 32
        invariant
            k <= 32,
            forall|j: int| 0 <= j < 14 ==> key@[j] == prefix@[j],
            forall|j: int| 0 <= j < k ==> key@[14 + j] == hash@[j],
        decreases 32 - k,
    {
        key[14 + k] = hash[k];
        k = k + 1;
    }
    assert forall|j: int| 0 <= j < 46 implies key@[j] == (prefix@ + hash@)[j] by {
        if j >= 14 {
            assert(key@[14 + (j - 14)] == hash@[j - 14]);
        }
    }
    assert(key@ =~= prefix@ + hash@);
    key
}

/// The key a given block entry is stored under.
pub fn block_entry_key(block_hash: &H256) -> (key: [u8; 46])
    ensures
        key@ == block_key(*block_hash),
        spells(key@, "Approvals_blck"@),
        forall|i: int| 0 <= i < 32 ==> #[trigger] key@[14 + i] == block_hash@[i],
{
    let prefix: [u8; 14] = [65, 112, 112, 114, 111, 118, 97, 108, 115, 95, 98, 108, 99, 107];
    proof {
        reveal(block_key);
        reveal_strlit("Approvals_blck");
    }
    assert(prefix@ =~= family_prefix() + seq![98u8, 108, 99, 107]);
    prefixed_hash(prefix, block_hash)
}

/// The key a given candidate entry is stored under.
pub fn candidate_entry_key(candidate_hash: &CandidateHash) -> (key: [u8; 46])
    ensures
        key@ == candidate_key(*candidate_hash),
        spells(key@, "Approvals_cand"@),
        forall|i: int| 0 <= i < 32 ==> #[trigger] key@[14 + i] == candidate_hash@[i],
{
    let prefix: [u8; 14] = [65, 112, 112, 114, 111, 118, 97, 108, 115, 95, 99, 97, 110, 100];
    proof {
        reveal(candidate_key);
        reveal_strlit("Approvals_cand");
    }
    assert(prefix@ =~= family_prefix() + seq![99u8, 97, 110, 100]);
    prefixed_hash(prefix, candidate_hash)
}

/// The key a set of block hashes corresponding to a block number is stored under.
pub fn blocks_at_height_key(block_number: BlockNumber) -> (key: [u8; 16])
    ensures
        key@ == height_key(block_number),
        spells(key@, "Approvals_at"@),
        key@[12] + 0x100 * key@[13] + 0x1_0000 * key@[14] + 0x100_0000 * key@[15] == block_number,
{
    let number = encode_u32(block_number);
    proof {
        reveal(height_key);
        reveal_strlit("Approvals_at");
        reveal_with_fuel(little_endian, 5);
    }
    let key: [u8; 16] = [
        65,
        112,
        112,
        114,
        111,
        118,
        97,
        108,
        115,
        95,
        97,
        116,
        number[0],
        number[1],
        number[2],
        number[3],
    ];
    assert(key@ =~= height_key(block_number));
    key
}

/// Two blocks have two keys.
pub proof fn block_keys_differ(a: H256, b: H256)
    requires
        block_key(a) == block_key(b),
    ensures
        a == b,
{
    reveal(block_key);
    let prefix = family_prefix() + seq![98u8, 108, 99, 107];
    lemma_same_head(prefix, prefix, a@, b@);
    lemma_hash(a, b, Seq::empty(), Seq::empty());
}

/// Two candidates have two keys.
pub proof fn candidate_keys_differ(a: CandidateHash, b: CandidateHash)
    requires
        candidate_key(a) == candidate_key(b),
    ensures
        a == b,
{
    reveal(candidate_key);
    let prefix = family_prefix() + seq![99u8, 97, 110, 100];
    lemma_same_head(prefix, prefix, a@, b@);
    lemma_hash(a, b, Seq::empty(), Seq::empty());
}

/// Two heights have two keys.
pub proof fn height_keys_differ(a: BlockNumber, b: BlockNumber)
    requires
        height_key(a) == height_key(b),
    ensures
        a == b,
{
    reveal(height_key);
    let prefix = family_prefix() + seq![97u8, 116];
    let x = Seq::<u8>::empty();
    assert(height_key(a) == prefix + u32_bytes(a));
    reveal_with_fuel(little_endian, 5);
    lemma_same_head(prefix, prefix, u32_bytes(a), u32_bytes(b));
    lemma_u32(a, b, x, x);
}

/// No key is that of two things of different kinds.
pub proof fn key_families_differ(block: H256, candidate: CandidateHash, height: BlockNumber)
    ensures
        block_key(block) != candidate_key(candidate),
        block_key(block) != height_key(height),
        block_key(block) != range_key(),
        candidate_key(candidate) != height_key(height),
        candidate_key(candidate) != range_key(),
        height_key(height) != range_key(),
{
    reveal(range_key);
    reveal(block_key);
    reveal(candidate_key);
    reveal(height_key);
    reveal_with_fuel(little_endian, 5);
    assert(block_key(block)[10] == 98);
    assert(candidate_key(candidate)[10] == 99);
    assert(height_key(height)[10] == 97);
    assert(range_key()[10] == 83);
}

/// All keys differ: each is that of one thing only.
pub proof fn keys_differ()
    ensures
        forall|h: BlockNumber| #[trigger] height_key(h) != range_key(),
        forall|b: H256| #[trigger] block_key(b) != range_key(),
        forall|c: CandidateHash| #[trigger] candidate_key(c) != range_key(),
        forall|h: BlockNumber, b: H256| #[trigger] height_key(h) != #[trigger] block_key(b),
        forall|h: BlockNumber, c: CandidateHash| #[trigger]
            height_key(h) != #[trigger] candidate_key(c),
        forall|b: H256, c: CandidateHash| #[trigger] block_key(b) != #[trigger] candidate_key(c),
        forall|a: BlockNumber, b: BlockNumber| #[trigger]
            height_key(a) == #[trigger] height_key(b) ==> a == b,
        forall|a: H256, b: H256| #[trigger] block_key(a) == #[trigger] block_key(b) ==> a == b,
        forall|a: CandidateHash, b: CandidateHash| #[trigger]
            candidate_key(a) == #[trigger] candidate_key(b) ==> a == b,
{
    assert forall|h: BlockNumber| #[trigger] height_key(h) != range_key() by {
        key_families_differ(arbitrary(), arbitrary(), h);
    }
    assert forall|b: H256| #[trigger] block_key(b) != range_key() by {
        key_families_differ(b, b, 0);
    }
    assert forall|c: CandidateHash| #[trigger] candidate_key(c) != range_key() by {
        key_families_differ(c, c, 0);
    }
    assert forall|h: BlockNumber, b: H256| #[trigger] height_key(h) != #[trigger] block_key(b) by {
        key_families_differ(b, b, h);
    }
    assert forall|h: BlockNumber, c: CandidateHash| #[trigger]
        height_key(h) != #[trigger] candidate_key(c) by {
        key_families_differ(c, c, h);
    }
    assert forall|b: H256, c: CandidateHash| #[trigger]
        block_key(b) != #[trigger] candidate_key(c) by {
        key_families_differ(b, c, 0);
    }
    assert forall|a: BlockNumber, b: BlockNumber| #[trigger]
        height_key(a) == #[trigger] height_key(b) implies a == b by {
        height_keys_differ(a, b);
    }
    assert forall|a: H256, b: H256| #[trigger] block_key(a) == #[trigger] block_key(b) implies a
        == b by {
        block_keys_differ(a, b);
    }
    assert forall|a: CandidateHash, b: CandidateHash| #[trigger]
        candidate_key(a) == #[trigger] candidate_key(b) implies a == b by {
        candidate_keys_differ(a, b);
    }
}

} // verus!
