//! The calls into `bitvec` and `parity_scale_codec`.
//!
//! What the functions here ensure is not proved: it is what the two crates document, or what their
//! code shows. Everything else in this crate is proved from it.
use bitvec::order::Lsb0;
use bitvec::vec::BitVec;
use crate::assignments::ascending;
use crate::codec::{bad_length, fields_layout, memory_layout, CandidateFields};
use crate::scale::{block_bytes, hashes_bytes, layout_bytes, range_bytes, u32_bytes, Layout};
use crate::types::{
    ApprovalEntry, Block, BlockEntry, CandidateEntry, CandidateReceipt, OurAssignment,
    StoredBlockRange, TrancheEntry, H256,
};
use parity_scale_codec::{Decode, Encode};
use vstd::prelude::*;

verus! {

/// A vector of bits, one for each validator or one for each candidate.
///
/// It holds a `bitvec::vec::BitVec`, whose type Verus cannot be told of, because its parameters
/// are bound by traits of that crate.
#[verifier::external_body]
#[derive(Debug, PartialEq)]
pub struct Bitfield {
    inner: BitVec<Lsb0, u8>,
}

/// How many bits a bit vector has.
pub uninterp spec fn bit_count(b: Bitfield) -> nat;

/// The bytes that a bit vector's bits lie in, from the first byte that holds one of its bits to
/// the last.
pub uninterp spec fn bit_bytes(b: Bitfield) -> Seq<u8>;

/// `BitVec::repeat(false, n)`: `n` zero bits, in `n / 8` bytes, rounded up, that are all zero.
#[verifier::external_body]
pub(crate) fn repeat_false(n: usize) -> (r: Bitfield)
    requires
        n <= usize::MAX / 8,
    ensures
        bit_count(r) == n,
        bit_bytes(r) == Seq::new(((n + 7) / 8) as nat, |i: int| 0u8),
{
    Bitfield { inner: BitVec::repeat(false, n) }
}

/// `BitVec::from_vec`: all the bits that lie in the given bytes.
#[verifier::external_body]
pub(crate) fn all_bits(bytes: Vec<u8>) -> (r: Bitfield)
    requires
        bytes.len() * 8 <= usize::MAX / 8,
    ensures
        bit_count(r) == bytes@.len() * 8,
        bit_bytes(r) == bytes@,
{
    Bitfield { inner: BitVec::from_vec(bytes) }
}

/// `BitVec::truncate`: the first `n` bits. They are claimed to begin the first byte because before
/// the call the bits fill their bytes. The bits of the last byte beyond the end stay as they are.
#[verifier::external_body]
pub(crate) fn truncate_bits(b: &mut Bitfield, n: usize)
    requires
        n <= bit_count(*old(b)),
        bit_count(*old(b)) == bit_bytes(*old(b)).len() * 8,
    ensures
        bit_count(*final(b)) == n,
        bit_bytes(*final(b)) == bit_bytes(*old(b)).take((n + 7) / 8),
{
    b.inner.truncate(n)
}

/// `BitVec::from_bitslice`: an exact copy, also of the bits of the last byte beyond the end.
#[verifier::external_body]
pub(crate) fn copy_bits(b: &Bitfield) -> (r: Bitfield)
    ensures
        bit_count(r) == bit_count(*b),
        bit_bytes(r) == bit_bytes(*b),
{
    Bitfield { inner: BitVec::from_bitslice(b.inner.as_bitslice()) }
}

/// `BitSlice::len`: the number of bits.
#[verifier::external_body]
pub(crate) fn number_of_bits(b: &Bitfield) -> (r: usize)
    ensures
        r == bit_count(*b),
{
    b.inner.len()
}

/// `BitSlice::as_slice`: the bytes that the bits lie in.
#[verifier::external_body]
pub(crate) fn bytes_of_bits(b: &Bitfield) -> (r: Vec<u8>)
    ensures
        r@ == bit_bytes(*b),
{
    b.inner.as_bitslice().as_slice().to_vec()
}

/// The tranches of an approval entry as the codec reads them.
type TrancheParts = Vec<(u32, Vec<(u32, u64)>)>;

/// An approval entry as the codec reads it.
type ApprovalParts = (TrancheParts, u32, u64, Option<()>, BitVec<Lsb0, u8>, bool);

/// A candidate entry as the codec reads it.
type CandidateParts = (Vec<u8>, u32, Vec<(H256, ApprovalParts)>, BitVec<Lsb0, u8>);

/// The `Debug` form of a codec error that has the given description, and no cause. What the form
/// looks like is left unsaid: the standard library does not call it stable.
pub uninterp spec fn error_text(description: Seq<char>) -> Seq<char>;

/// The text of the error that decoding a block entry from the given bytes ends in. Of this text,
/// and of the one that follows, nothing is said but that the same bytes give the same text.
pub uninterp spec fn block_error(raw: Seq<u8>) -> Seq<char>;

/// The text of the error that decoding a candidate entry from the given bytes ends in.
pub uninterp spec fn candidate_error(raw: Seq<u8>) -> Seq<char>;

/// `u32::encode`: the four bytes of the number, the least significant first.
#[verifier::external_body]
pub(crate) fn encode_u32(n: u32) -> (r: Vec<u8>)
    ensures
        r@ == u32_bytes(n),
{
    n.encode()
}

/// `Encode::encode` of a pair of numbers: the one after the other.
#[verifier::external_body]
pub(crate) fn encode_range(range: &StoredBlockRange) -> (r: Vec<u8>)
    ensures
        r@ == range_bytes(range.0, range.1),
{
    (range.0, range.1).encode()
}

/// `Decode::decode` of a pair of numbers: succeeds on bytes that begin with the encoding of one.
/// What follows is not looked at. It fails in one way only, where there are too few bytes; the text
/// is the `Debug` form of that error.
#[verifier::external_body]
pub(crate) fn decode_range(raw: &Vec<u8>) -> (r: Result<StoredBlockRange, String>)
    ensures
        match r {
            Ok(range) => range_bytes(range.0, range.1).is_prefix_of(raw@),
            Err(text) => {
                &&& text@ == error_text("Not enough data to fill buffer"@)
                &&& forall|lo: u32, hi: u32| !(#[trigger] range_bytes(lo, hi)).is_prefix_of(raw@)
            },
        },
{
    match <(u32, u32)>::decode(&mut &raw[..]) {
        Ok((lo, hi)) => Ok(StoredBlockRange(lo, hi)),
        Err(e) => Err(format!("{:?}", e)),
    }
}

/// `Encode::encode` of a list of hashes: its length in compact form, then the hashes. The codec
/// panics on a list that is longer than a 32-bit number says.
#[verifier::external_body]
pub(crate) fn encode_hashes(list: &Vec<H256>) -> (r: Vec<u8>)
    requires
        list@.len() <= u32::MAX,
    ensures
        r@ == hashes_bytes(list@),
{
    list.encode()
}

/// `Decode::decode` of a list of hashes: succeeds on bytes that begin with the encoding of one.
/// What follows is not looked at. It fails where the length is not in its shortest form, and else
/// where there are too few bytes; the text is the `Debug` form of the error.
#[verifier::external_body]
pub(crate) fn decode_hashes(raw: &Vec<u8>) -> (r: Result<Vec<H256>, String>)
    ensures
        match r {
            Ok(list) => list@.len() <= u32::MAX && hashes_bytes(list@).is_prefix_of(raw@),
            Err(text) => {
                &&& text@ == if bad_length(raw@) {
                    error_text("out of range decoding Compact<u32>"@)
                } else {
                    error_text("Not enough data to fill buffer"@)
                }
                &&& forall|list: Seq<H256>|
                    list.len() <= u32::MAX ==> !(#[trigger] hashes_bytes(list)).is_prefix_of(raw@)
            },
        },
{
    match Vec::<H256>::decode(&mut &raw[..]) {
        Ok(list) => Ok(list),
        Err(e) => Err(format!("{:?}", e)),
    }
}

/// `Encode::encode` of the fields of a block entry, one after the other. The codec panics on a
/// list that is longer than a 32-bit number says.
#[verifier::external_body]
pub(crate) fn encode_block(entry: &BlockEntry) -> (r: Vec<u8>)
    requires
        entry@.encodable(),
    ensures
        r@ == block_bytes(entry@),
{
    (
        &entry.block_hash,
        entry.session,
        entry.slot,
        &entry.relay_vrf_story,
        &entry.candidates,
        &entry.approved_bitfield.inner,
        &entry.children,
    ).encode()
}

/// `Decode::decode` of the fields of a block entry: succeeds on bytes that begin with the
/// encoding of an entry, if its bit vector is not longer than the codec lets it be. What follows
/// is not looked at.
#[verifier::external_body]
pub(crate) fn decode_block(raw: &Vec<u8>) -> (r: Result<BlockEntry, String>)
    ensures
        match r {
            Ok(entry) => entry@.storable() && block_bytes(entry@).is_prefix_of(raw@),
            Err(text) => {
                &&& text@ == block_error(raw@)
                &&& forall|b: Block|
                    b.storable() ==> !(#[trigger] block_bytes(b)).is_prefix_of(raw@)
            },
        },
{
    let (block_hash, session, slot, relay_vrf_story, candidates, inner, children) = <(
        H256, u32, u64, [u8; 32], Vec<(u32, H256)>, BitVec<Lsb0, u8>, Vec<H256>,
    )>::decode(&mut &raw[..]).map_err(|e| format!("{:?}", e))?;
    let approved_bitfield = Bitfield { inner };
    Ok(BlockEntry {
        block_hash, session, slot, relay_vrf_story, candidates, approved_bitfield, children,
    })
}

/// `Encode::encode` of the fields of a candidate entry, one after the other, its approval
/// entries as a list of pairs. The codec panics on a list that is longer than a 32-bit number
/// says.
#[verifier::external_body]
pub(crate) fn encode_candidate(entry: &CandidateEntry) -> (r: Vec<u8>)
    requires
        entry@.encodable(),
        ascending(entry.block_assignments.entries@),
    ensures
        r@ == layout_bytes(memory_layout(*entry)),
{
    let pairs: Vec<_> = entry.block_assignments.entries.iter().map(|(hash, a)| {
        let tranches: Vec<_> = a.tranches.iter().map(|t| (t.tranche, &t.assignments)).collect();
        let mark = a.our_assignment.as_ref().map(|_| ());
        let bits = &a.assignments.inner;
        (hash, (tranches, a.backing_group, a.next_wakeup, mark, bits, a.approved))
    }).collect();
    (&entry.candidate.encoded, entry.session, pairs, &entry.approvals.inner).encode()
}

/// `Decode::decode` of the fields of a candidate entry, its approval entries as a list of pairs:
/// succeeds on bytes that begin with the encoding of such fields, if their bit vectors are not
/// longer than the codec lets them be. What follows is not looked at.
#[verifier::external_body]
pub(crate) fn decode_candidate(raw: &Vec<u8>) -> (r: Result<CandidateFields, String>)
    ensures
        match r {
            Ok(fields) => {
                let l = fields_layout(fields);
                l.storable() && layout_bytes(l).is_prefix_of(raw@)
            },
            Err(text) => {
                &&& text@ == candidate_error(raw@)
                &&& forall|l: Layout|
                    l.storable() ==> !(#[trigger] layout_bytes(l)).is_prefix_of(raw@)
            },
        },
{
    let (encoded, session, pairs, inner) = CandidateParts::decode(&mut &raw[..]).map_err(
        |e| format!("{:?}", e),
    )?;
    let entries = pairs.into_iter().map(|(hash, parts)| {
        let (t, backing_group, next_wakeup, mark, b, approved) = parts;
        let one = |(tranche, assignments)| TrancheEntry { tranche, assignments };
        let tranches = t.into_iter().map(one).collect();
        let our_assignment = mark.map(|_| OurAssignment {  });
        let assignments = Bitfield { inner: b };
        (hash, ApprovalEntry {
            tranches, backing_group, next_wakeup, our_assignment, assignments, approved,
        })
    }).collect();
    Ok((CandidateReceipt { encoded }, session, entries, Bitfield { inner }))
}

} // verus!
