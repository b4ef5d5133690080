//! How values are laid out in the database: the SCALE encoding.
//!
//! An integer is written in little-endian order, a structure as its fields one after the other,
//! and a list as its length in compact form, followed by its items. No encoding is the beginning
//! of the encoding of another value of the same type, so a value can be told from the bytes that
//! begin with it, whatever comes behind them.
use crate::assignments::{ascending, collected};
use crate::bitfield::Bits;
use crate::types::{Approval, Block, Candidate, Tranche, H256};
use vstd::prelude::*;

verus! {

/// The `width` lowest bytes of a number, the least significant first.
pub open spec fn little_endian(n: nat, width: nat) -> Seq<u8>
    decreases width,
{
    if width == 0 {
        Seq::empty()
    } else {
        seq![(n % 256) as u8] + little_endian(n / 256, (width - 1) as nat)
    }
}

/// A number fits in `width` bytes.
pub open spec fn fits_width(n: nat, width: nat) -> bool
    decreases width,
{
    if width == 0 {
        n == 0
    } else {
        fits_width(n / 256, (width - 1) as nat)
    }
}

/// The compact form of a length: small numbers take fewer bytes, and the two lowest bits of the
/// first byte say how many there are.
pub open spec fn compact(n: nat) -> Seq<u8> {
    if n < 0x40 {
        little_endian(n * 4, 1)
    } else if n < 0x4000 {
        little_endian(n * 4 + 1, 2)
    } else if n < 0x4000_0000 {
        little_endian(n * 4 + 2, 4)
    } else {
        seq![3u8] + little_endian(n, 4)
    }
}

/// The encodings of all the items of a list, one after the other.
pub open spec fn items_bytes<T>(s: Seq<T>, item: spec_fn(T) -> Seq<u8>) -> Seq<u8>
    decreases s.len(),
{
    if s.len() == 0 {
        Seq::empty()
    } else {
        item(s[0]) + items_bytes(s.skip(1), item)
    }
}

/// The encoding of a list.
pub open spec fn list_bytes<T>(s: Seq<T>, item: spec_fn(T) -> Seq<u8>) -> Seq<u8> {
    compact(s.len()) + items_bytes(s, item)
}

/// The encoding of a 32-bit number.
pub open spec fn u32_bytes(n: u32) -> Seq<u8> {
    little_endian(n as nat, 4)
}

/// The encoding of a 64-bit number.
pub open spec fn u64_bytes(n: u64) -> Seq<u8> {
    little_endian(n as nat, 8)
}

/// The encoding of a truth value.
pub open spec fn bool_bytes(b: bool) -> Seq<u8> {
    if b {
        seq![1u8]
    } else {
        seq![0u8]
    }
}

/// The encoding of an optional value that has no contents of its own.
pub open spec fn mark_bytes<T>(mark: Option<T>) -> Seq<u8> {
    bool_bytes(mark.is_some())
}

/// The encoding of a byte.
pub open spec fn byte_item() -> spec_fn(u8) -> Seq<u8> {
    |b: u8| seq![b]
}

/// The encoding of a hash: its bytes.
pub open spec fn hash_item() -> spec_fn(H256) -> Seq<u8> {
    |h: H256| h@
}

/// The encoding of an index with a hash.
pub open spec fn indexed_hash_item() -> spec_fn((u32, H256)) -> Seq<u8> {
    |p: (u32, H256)| u32_bytes(p.0) + p.1@
}

/// The encoding of a validator's assignment and the tick at which it came.
pub open spec fn assignment_item() -> spec_fn((u32, u64)) -> Seq<u8> {
    |p: (u32, u64)| u32_bytes(p.0) + u64_bytes(p.1)
}

/// The encoding of a list of hashes.
#[verifier::opaque]
pub open spec fn hashes_bytes(s: Seq<H256>) -> Seq<u8> {
    list_bytes(s, hash_item())
}

/// The encoding of a pair of block numbers.
#[verifier::opaque]
pub open spec fn range_bytes(lo: u32, hi: u32) -> Seq<u8> {
    u32_bytes(lo) + u32_bytes(hi)
}

/// The encoding of a bit vector: the number of bits, then the bytes that they lie in.
pub open spec fn bits_bytes(b: Bits) -> Seq<u8> {
    compact(b.count) + b.bytes
}

/// The encoding of a tranche entry.
pub open spec fn tranche_item() -> spec_fn(Tranche) -> Seq<u8> {
    |t: Tranche| u32_bytes(t.tranche) + list_bytes(t.assignments, assignment_item())
}

/// The encoding of an approval entry.
#[verifier::opaque]
pub open spec fn approval_bytes(a: Approval) -> Seq<u8> {
    list_bytes(a.tranches, tranche_item()) + u32_bytes(a.backing_group) + u64_bytes(a.next_wakeup)
        + mark_bytes(a.our_assignment) + bits_bytes(a.assignments) + bool_bytes(a.approved)
}

/// The encoding of a block hash with the approval entry under that block.
pub open spec fn approval_item() -> spec_fn((H256, Approval)) -> Seq<u8> {
    |p: (H256, Approval)| p.0@ + approval_bytes(p.1)
}

/// A candidate entry as it is laid out: its approval entries are a list, in which a block may
/// even occur twice.
#[verifier::ext_equal]
pub struct Layout {
    pub candidate: Seq<u8>,
    pub session: u32,
    pub pairs: Seq<(H256, Approval)>,
    pub approvals: Bits,
}

impl Layout {
    /// The layout can be encoded, and decoding brings it back.
    pub open spec fn storable(self) -> bool {
        &&& self.candidate.len() <= u32::MAX
        &&& self.pairs.len() <= u32::MAX
        &&& forall|i: int| 0 <= i < self.pairs.len() ==> (#[trigger] self.pairs[i]).1.storable()
        &&& self.approvals.storable()
    }

    /// The entry that is read from it. Where a block occurs more than once, the last one counts.
    pub open spec fn entry(self) -> Candidate {
        Candidate {
            candidate: self.candidate,
            session: self.session,
            block_assignments: collected(self.pairs),
            approvals: self.approvals,
        }
    }
}

/// The encoding of a candidate entry.
#[verifier::opaque]
pub open spec fn layout_bytes(l: Layout) -> Seq<u8> {
    list_bytes(l.candidate, byte_item()) + u32_bytes(l.session) + list_bytes(
        l.pairs,
        approval_item(),
    ) + bits_bytes(l.approvals)
}

/// The layout that a candidate entry is written in: its approval entries in ascending order of
/// the blocks' hashes.
pub open spec fn layout_of(c: Candidate) -> Layout {
    Layout {
        candidate: c.candidate,
        session: c.session,
        pairs: choose|pairs: Seq<(H256, Approval)>|
            ascending(pairs) && #[trigger] collected(pairs) == c.block_assignments,
        approvals: c.approvals,
    }
}

/// The encoding of a block entry.
#[verifier::opaque]
pub open spec fn block_bytes(b: Block) -> Seq<u8> {
    b.block_hash@ + u32_bytes(b.session) + u64_bytes(b.slot) + b.relay_vrf_story@ + list_bytes(
        b.candidates,
        indexed_hash_item(),
    ) + bits_bytes(b.approved_bitfield) + hashes_bytes(b.children)
}

} // verus!
