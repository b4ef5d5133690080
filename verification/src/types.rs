//! The entries that the approvals database holds, and what each of them stands for.
//!
//! Every entry has a view: a ghost record with the same fields, in which vectors are sequences,
//! bit vectors are [`Bits`] and the map of approval entries is a map.
use crate::assignments::BlockAssignments;
use crate::bitfield::Bits;
use crate::outside::Bitfield;
use vstd::prelude::*;

verus! {

/// A hash of 32 bytes.
pub type H256 = [u8; 32];

/// The hash of a candidate receipt.
pub type CandidateHash = H256;

/// The number of a block; its height in the chain.
pub type BlockNumber = u32;

/// The index of a session.
pub type SessionIndex = u32;

/// The index of a validator within its session.
pub type ValidatorIndex = u32;

/// The index of a group of backing validators.
pub type GroupIndex = u32;

/// The index of an availability core.
pub type CoreIndex = u32;

/// A slot of the block production protocol.
pub type Slot = u64;

/// The number of ticks since a block was produced, at which an assignment may be broadcast.
pub type DelayTranche = u32;

/// A point in time, in steps of half a second.
pub type Tick = u64;

/// A candidate receipt. The database only carries it, so it stays in its encoded form. In an entry
/// its length stands before it.
#[derive(Debug, Clone, PartialEq)]
pub struct CandidateReceipt {
    pub encoded: Vec<u8>,
}

/// Our own assignment to check a candidate.
#[derive(Debug, Clone, Copy, PartialEq)]
pub struct OurAssignment {}

/// Metadata regarding a specific tranche of assignments for a specific candidate.
#[derive(Debug, Clone, PartialEq)]
pub struct TrancheEntry {
    pub tranche: DelayTranche,
    /// Assigned validators, and the instant we received their assignment, rounded
    /// to the nearest tick.
    pub assignments: Vec<(ValidatorIndex, Tick)>,
}

/// Metadata regarding approval of a particular candidate within the context of some
/// particular block.
#[derive(Debug, Clone, PartialEq)]
pub struct ApprovalEntry {
    pub tranches: Vec<TrancheEntry>,
    pub backing_group: GroupIndex,
    /// When the next wakeup for this entry should occur. This is either to
    /// check a no-show or to check if we need to broadcast an assignment.
    pub next_wakeup: Tick,
    pub our_assignment: Option<OurAssignment>,
    /// One bit for each validator.
    pub assignments: Bitfield,
    pub approved: bool,
}

/// Metadata regarding approval of a particular candidate.
#[derive(Debug, Clone, PartialEq)]
pub struct CandidateEntry {
    pub candidate: CandidateReceipt,
    pub session: SessionIndex,
    /// Assignments are based on blocks, so we need to track assignments separately
    /// based on the block we are looking at.
    pub block_assignments: BlockAssignments,
    pub approvals: Bitfield,
}

/// Metadata regarding approval of a particular block, by way of approval of the
/// candidates contained within it.
#[derive(Debug, Clone, PartialEq)]
pub struct BlockEntry {
    pub block_hash: H256,
    pub session: SessionIndex,
    pub slot: Slot,
    pub relay_vrf_story: [u8; 32],
    /// The candidates included as-of this block and the index of the core they are
    /// leaving. Sorted ascending by core index.
    pub candidates: Vec<(CoreIndex, CandidateHash)>,
    /// A bitfield where the i'th bit corresponds to the i'th candidate in `candidates`.
    /// The i'th bit is `true` iff the candidate has been approved in the context of this
    /// block. The block can be considered approved if the bitfield has all bits set to `true`.
    pub approved_bitfield: Bitfield,
    pub children: Vec<H256>,
}

/// A range from earliest..last block number stored within the database.
#[derive(Debug, Clone, Copy, PartialEq)]
pub struct StoredBlockRange(pub BlockNumber, pub BlockNumber);

/// Information about a new candidate necessary to instantiate the requisite
/// candidate and approval entries.
#[derive(Debug, Clone, PartialEq)]
pub struct NewCandidateInfo {
    pub candidate: CandidateReceipt,
    pub backing_group: GroupIndex,
    pub our_assignment: Option<OurAssignment>,
}

/// What a [`TrancheEntry`] stands for.
#[verifier::ext_equal]
pub struct Tranche {
    pub tranche: DelayTranche,
    pub assignments: Seq<(ValidatorIndex, Tick)>,
}

/// What an [`ApprovalEntry`] stands for.
#[verifier::ext_equal]
pub struct Approval {
    pub tranches: Seq<Tranche>,
    pub backing_group: GroupIndex,
    pub next_wakeup: Tick,
    pub our_assignment: Option<OurAssignment>,
    pub assignments: Bits,
    pub approved: bool,
}

/// What a [`CandidateEntry`] stands for.
#[verifier::ext_equal]
pub struct Candidate {
    pub candidate: Seq<u8>,
    pub session: SessionIndex,
    pub block_assignments: Map<H256, Approval>,
    pub approvals: Bits,
}

/// What a [`BlockEntry`] stands for.
#[verifier::ext_equal]
pub struct Block {
    pub block_hash: H256,
    pub session: SessionIndex,
    pub slot: Slot,
    pub relay_vrf_story: [u8; 32],
    pub candidates: Seq<(CoreIndex, CandidateHash)>,
    pub approved_bitfield: Bits,
    pub children: Seq<H256>,
}

/// What a [`NewCandidateInfo`] stands for.
#[verifier::ext_equal]
pub struct CandidateInfo {
    pub candidate: Seq<u8>,
    pub backing_group: GroupIndex,
    pub our_assignment: Option<OurAssignment>,
}

impl View for TrancheEntry {
    type V = Tranche;

    open spec fn view(&self) -> Tranche {
        Tranche { tranche: self.tranche, assignments: self.assignments@ }
    }
}

/// What a list of tranche entries stands for.
pub open spec fn tranches(s: Seq<TrancheEntry>) -> Seq<Tranche> {
    Seq::new(s.len(), |i: int| s[i]@)
}

impl View for ApprovalEntry {
    type V = Approval;

    open spec fn view(&self) -> Approval {
        Approval {
            tranches: tranches(self.tranches@),
            backing_group: self.backing_group,
            next_wakeup: self.next_wakeup,
            our_assignment: self.our_assignment,
            assignments: self.assignments@,
            approved: self.approved,
        }
    }
}

impl View for CandidateEntry {
    type V = Candidate;

    open spec fn view(&self) -> Candidate {
        Candidate {
            candidate: self.candidate.encoded@,
            session: self.session,
            block_assignments: self.block_assignments@,
            approvals: self.approvals@,
        }
    }
}

impl View for BlockEntry {
    type V = Block;

    open spec fn view(&self) -> Block {
        Block {
            block_hash: self.block_hash,
            session: self.session,
            slot: self.slot,
            relay_vrf_story: self.relay_vrf_story,
            candidates: self.candidates@,
            approved_bitfield: self.approved_bitfield@,
            children: self.children@,
        }
    }
}

impl View for NewCandidateInfo {
    type V = CandidateInfo;

    open spec fn view(&self) -> CandidateInfo {
        CandidateInfo {
            candidate: self.candidate.encoded@,
            backing_group: self.backing_group,
            our_assignment: self.our_assignment,
        }
    }
}

impl Approval {
    /// The entry that a candidate gets for a block in which it was just included.
    pub open spec fn fresh(
        backing_group: GroupIndex,
        our_assignment: Option<OurAssignment>,
        n_validators: nat,
    ) -> Approval {
        Approval {
            tranches: Seq::empty(),
            backing_group,
            next_wakeup: 0,
            our_assignment,
            assignments: Bits::zeros(n_validators),
            approved: false,
        }
    }

    /// Every list in the entry is short enough to be encoded.
    pub open spec fn encodable(self) -> bool {
        &&& self.tranches.len() <= u32::MAX
        &&& forall|i: int|
            0 <= i < self.tranches.len() ==> (#[trigger] self.tranches[i]).assignments.len()
                <= u32::MAX
        &&& self.assignments.encodable()
    }

    /// The entry can be encoded, and decoding brings it back.
    pub open spec fn storable(self) -> bool {
        self.encodable() && self.assignments.storable()
    }
}

impl Candidate {
    /// Every list in the entry is short enough to be encoded.
    pub open spec fn encodable(self) -> bool {
        &&& self.candidate.len() <= u32::MAX
        &&& self.block_assignments.dom().finite()
        &&& self.block_assignments.len() <= u32::MAX
        &&& forall|b: H256| #[trigger]
            self.block_assignments.contains_key(b) ==> self.block_assignments[b].encodable()
        &&& self.approvals.encodable()
    }

    /// The entry can be encoded, and decoding brings it back.
    pub open spec fn storable(self) -> bool {
        &&& self.encodable()
        &&& forall|b: H256| #[trigger]
            self.block_assignments.contains_key(b) ==> self.block_assignments[b].storable()
        &&& self.approvals.storable()
    }

    /// The entry without what it says of one block.
    pub open spec fn without(self, block_hash: H256) -> Candidate {
        Candidate { block_assignments: self.block_assignments.remove(block_hash), ..self }
    }

    /// The entry with the given approval entry for one block.
    pub open spec fn with(self, block_hash: H256, approval: Approval) -> Candidate {
        Candidate {
            block_assignments: self.block_assignments.insert(block_hash, approval),
            ..self
        }
    }
}

impl Block {
    /// Every list in the entry is short enough to be encoded.
    pub open spec fn encodable(self) -> bool {
        &&& self.candidates.len() <= u32::MAX
        &&& self.children.len() <= u32::MAX
        &&& self.approved_bitfield.encodable()
    }

    /// The entry can be encoded, and decoding brings it back.
    pub open spec fn storable(self) -> bool {
        self.encodable() && self.approved_bitfield.storable()
    }

    /// The block includes the given candidate.
    pub open spec fn includes(self, candidate_hash: CandidateHash) -> bool {
        exists|i: int|
            0 <= i < self.candidates.len() && (#[trigger] self.candidates[i]).1 == candidate_hash
    }

    /// The entry with one more child.
    pub open spec fn with_child(self, child: H256) -> Block {
        Block { children: self.children.push(child), ..self }
    }
}

} // verus!
