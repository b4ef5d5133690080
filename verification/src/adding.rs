//! What recording a new block does: which entries it reads, in which order, and what it writes.
use crate::bitfield::{bits_fit, Bits};
use crate::codec::Stored;
use crate::keys::{block_key, candidate_key, height_key, range_key};
use crate::operation::{ask, ask_info, done, fail, Plan};
use crate::store::{block_of, candidate_of, list_of, lookup, range_of, Batch, Db, Failure};
use crate::types::{
    Approval, Block, BlockEntry, BlockNumber, Candidate, CandidateEntry, CandidateInfo,
    StoredBlockRange, H256,
};
use vstd::prelude::*;

verus! {

/// A block that is recorded.
pub struct NewBlock {
    pub parent: H256,
    pub number: BlockNumber,
    pub entry: Block,
    pub n_validators: nat,
    /// What is known of the candidates that the block includes, in their order.
    pub infos: Infos,
}

/// What is known of candidates: `None` where nothing is.
pub type Infos = Seq<Option<CandidateInfo>>;

/// What is known of the candidate at place `i`.
pub open spec fn info_at(infos: Infos, i: int) -> Option<CandidateInfo> {
    if 0 <= i < infos.len() {
        infos[i]
    } else {
        None
    }
}

/// Insertions, in order.
pub type Items = Seq<(Seq<u8>, Seq<u8>)>;

/// The stored range has to grow for a block to lie in it.
pub open spec fn range_grows(range: Option<StoredBlockRange>, number: BlockNumber) -> bool {
    match range {
        None => true,
        Some(range) => range.1 <= number || number < range.0,
    }
}

/// The smallest range that holds the stored range and a block.
pub open spec fn grown_range(
    range: Option<StoredBlockRange>,
    number: BlockNumber,
) -> StoredBlockRange {
    let above = (number + 1) as BlockNumber;
    match range {
        None => StoredBlockRange(number, above),
        Some(range) => StoredBlockRange(
            if range.0 <= number {
                range.0
            } else {
                number
            },
            if above <= range.1 {
                range.1
            } else {
                above
            },
        ),
    }
}

/// What is written of the range.
pub open spec fn range_items(range: Option<StoredBlockRange>, number: BlockNumber) -> Items {
    if range_grows(range, number) {
        seq![(range_key(), StoredBlockRange::encoded(grown_range(range, number)))]
    } else {
        Seq::empty()
    }
}

/// The entry of a candidate that had none.
pub open spec fn fresh_candidate(n: NewBlock, info: CandidateInfo) -> Candidate {
    Candidate {
        candidate: info.candidate,
        session: n.entry.session,
        block_assignments: Map::empty(),
        approvals: Bits::zeros(n.n_validators),
    }
}

/// The entry of a candidate with the new block's approval entry.
pub open spec fn with_block(n: NewBlock, info: CandidateInfo, old: Option<Candidate>) -> Candidate {
    let entry = match old {
        Some(entry) => entry,
        None => fresh_candidate(n, info),
    };
    entry.with(
        n.entry.block_hash,
        Approval::fresh(info.backing_group, info.our_assignment, n.n_validators),
    )
}

/// The end: the block becomes a child of its parent, if the parent has an entry.
pub open spec fn record_parent(db: Db, n: NewBlock, items: Items) -> Plan {
    ask(
        block_key(n.parent),
        match block_of(db, n.parent) {
            Err(e) => fail(e),
            Ok(parent) => {
                let own = seq![(block_key(n.entry.block_hash), BlockEntry::encoded(n.entry))];
                match parent {
                    None => if n.entry.encodable() {
                        done(Some(Batch { inserted: items + own, deleted: Seq::empty() }))
                    } else {
                        fail(Failure::Overflow)
                    },
                    Some(parent) => {
                        let grown = parent.with_child(n.entry.block_hash);
                        let above = seq![(block_key(n.parent), BlockEntry::encoded(grown))];
                        if grown.encodable() && n.entry.encodable() {
                            let inserted = items + own + above;
                            done(Some(Batch { inserted, deleted: Seq::empty() }))
                        } else {
                            fail(Failure::Overflow)
                        }
                    },
                }
            },
        },
    )
}

/// Record the block with the candidates from the `i`-th on. For each, it is asked what is known of
/// the candidate. Nothing is written if that is nothing.
pub open spec fn record_candidates(db: Db, n: NewBlock, i: nat, items: Items) -> Plan
    decreases n.entry.candidates.len() - i, 0nat,
{
    if i >= n.entry.candidates.len() {
        record_parent(db, n, items)
    } else {
        ask_info(
            n.entry.candidates[i as int].1,
            match info_at(n.infos, i as int) {
                None => done(None),
                Some(info) => record_candidate(db, n, i, info, items),
            },
        )
    }
}

/// Record the block with the `i`-th candidate, of which `info` is known, and those after it.
pub open spec fn record_candidate(
    db: Db,
    n: NewBlock,
    i: nat,
    info: CandidateInfo,
    items: Items,
) -> Plan
    decreases n.entry.candidates.len() - i - 1, 1nat,
{
    let c = n.entry.candidates[i as int].1;
    ask(
        candidate_key(c),
        match candidate_of(db, c) {
            Err(e) => fail(e),
            Ok(old) => {
                let entry = with_block(n, info, old);
                if bits_fit(n.n_validators) && entry.encodable() {
                    let more = items.push((candidate_key(c), CandidateEntry::encoded(entry)));
                    record_candidates(db, n, i + 1, more)
                } else {
                    fail(Failure::Overflow)
                }
            },
        },
    )
}

/// Record the block, unless it has an entry. `list` is what is listed at its height.
pub open spec fn record_unless_present(db: Db, n: NewBlock, list: Seq<H256>, items: Items) -> Plan {
    ask(
        block_key(n.entry.block_hash),
        if lookup(db, block_key(n.entry.block_hash)) is Some {
            done(None)
        } else if list.len() >= u32::MAX {
            fail(Failure::Overflow)
        } else {
            let longer = list.push(n.entry.block_hash);
            record_candidates(
                db,
                n,
                0,
                items.push((height_key(n.number), Vec::<H256>::encoded(longer))),
            )
        },
    )
}

/// Record the block, unless it is listed at its height.
pub open spec fn record_unless_listed(db: Db, n: NewBlock, items: Items) -> Plan {
    ask(
        height_key(n.number),
        match list_of(db, n.number) {
            Err(e) => fail(e),
            Ok(list) => if list.contains(n.entry.block_hash) {
                done(None)
            } else {
                record_unless_present(db, n, list, items)
            },
        },
    )
}

/// What recording a block does. It grows the range if the block lies outside it, adds the block to
/// the list at its height, adds an approval entry to each candidate that it includes, writes the
/// block's entry and makes it a child of its parent. Nothing is done if the block is there
/// already, or if nothing is known of one of its candidates.
pub open spec fn add_plan(db: Db, n: NewBlock) -> Plan {
    ask(
        range_key(),
        match range_of(db) {
            Err(e) => fail(e),
            Ok(range) => if range_grows(range, n.number) && n.number == u32::MAX {
                fail(Failure::Overflow)
            } else {
                record_unless_listed(db, n, range_items(range, n.number))
            },
        },
    )
}

} // verus!
