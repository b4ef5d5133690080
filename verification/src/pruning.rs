//! What canonicalizing a block does: which entries it reads, in which order, and what it writes.
use crate::codec::Stored;
use crate::hashes::remove_first;
use crate::keys::{block_key, candidate_key, height_key, range_key};
use crate::operation::{ask, done, fail, follow, Plan, Traced};
use crate::store::{
    block_keys, block_of, candidate_of, height_keys, list_of, range_of, Batch, Db, Failure,
};
use crate::types::{
    Approval, BlockNumber, Candidate, CandidateEntry, CandidateHash, CoreIndex, StoredBlockRange,
    H256,
};
use vstd::prelude::*;

verus! {

/// What a canonicalization has found out so far.
#[verifier::ext_equal]
pub struct Pruned {
    /// The heights that are cleared, in the order in which they were visited.
    pub heights: Seq<BlockNumber>,
    /// The blocks whose entries go, in the order in which they were visited.
    pub blocks: Seq<H256>,
    /// The candidates that those blocks include, each with its entry without what it says of
    /// them, in the order in which they were first visited.
    pub candidates: Seq<(CandidateHash, Candidate)>,
    /// The heights above the canonical block that lose blocks, each with the blocks that are left
    /// there, in the order in which they were first visited.
    pub lists: Seq<(BlockNumber, Seq<H256>)>,
}

/// The block that is canonicalized, and the end of the stored range.
pub struct Target {
    pub number: BlockNumber,
    pub hash: H256,
    pub top: BlockNumber,
}

/// One of the pairs has the given key.
pub open spec fn known<K, V>(s: Seq<(K, V)>, key: K) -> bool {
    exists|i: int| #[trigger] first_at(s, key, i)
}

/// The first pair with the given key is at place `i`.
pub open spec fn first_at<K, V>(s: Seq<(K, V)>, key: K, i: int) -> bool {
    &&& 0 <= i < s.len()
    &&& s[i].0 == key
    &&& forall|j: int| 0 <= j < i ==> (#[trigger] s[j]).0 != key
}

/// Where the first pair with the given key is.
pub open spec fn place<K, V>(s: Seq<(K, V)>, key: K) -> int {
    choose|i: int| #[trigger] first_at(s, key, i)
}

/// The value of the first pair with the given key.
pub open spec fn at<K, V>(s: Seq<(K, V)>, key: K) -> V {
    s[place(s, key)].1
}

/// The pairs with another value for the given key.
pub open spec fn replaced<K, V>(s: Seq<(K, V)>, key: K, value: V) -> Seq<(K, V)> {
    s.update(place(s, key), (key, value))
}

impl Pruned {
    /// Nothing found out yet.
    pub open spec fn nothing() -> Pruned {
        Pruned {
            heights: Seq::empty(),
            blocks: Seq::empty(),
            candidates: Seq::empty(),
            lists: Seq::empty(),
        }
    }

    /// One more height is cleared.
    pub open spec fn clear_height(self, height: BlockNumber) -> Pruned {
        Pruned { heights: self.heights.push(height), ..self }
    }

    /// One more block entry goes.
    pub open spec fn drop_block(self, block: H256) -> Pruned {
        Pruned { blocks: self.blocks.push(block), ..self }
    }

    /// A candidate that was not visited before is no longer under a block.
    pub open spec fn release_new(
        self,
        candidate: CandidateHash,
        entry: Candidate,
        block: H256,
    ) -> Pruned {
        Pruned { candidates: self.candidates.push((candidate, entry.without(block))), ..self }
    }

    /// A candidate that was visited before is no longer under a block.
    pub open spec fn release_again(self, candidate: CandidateHash, block: H256) -> Pruned {
        Pruned {
            candidates: replaced(
                self.candidates,
                candidate,
                at(self.candidates, candidate).without(block),
            ),
            ..self
        }
    }

    /// A block is no longer listed at a height that was not visited before.
    pub open spec fn strike_new(self, height: BlockNumber, list: Seq<H256>, block: H256) -> Pruned {
        Pruned { lists: self.lists.push((height, remove_first(list, block))), ..self }
    }

    /// A block is no longer listed at a height that was visited before.
    pub open spec fn strike_again(self, height: BlockNumber, block: H256) -> Pruned {
        Pruned {
            lists: replaced(self.lists, height, remove_first(at(self.lists, height), block)),
            ..self
        }
    }
}

/// Take a block out of the entries of the candidates that it includes. A candidate is read once.
/// One without an entry is passed over.
pub open spec fn release(
    db: Db,
    block: H256,
    candidates: Seq<(CoreIndex, CandidateHash)>,
    p: Pruned,
) -> Traced<Pruned>
    decreases candidates.len(),
{
    if candidates.len() == 0 {
        done(p)
    } else {
        let c = candidates[0].1;
        let rest = candidates.skip(1);
        if known(p.candidates, c) {
            release(db, block, rest, p.release_again(c, block))
        } else {
            ask(
                candidate_key(c),
                match candidate_of(db, c) {
                    Err(e) => fail(e),
                    Ok(None) => release(db, block, rest, p),
                    Ok(Some(entry)) => release(db, block, rest, p.release_new(c, entry, block)),
                },
            )
        }
    }
}

/// Visit a block: if it has an entry, the entry goes, and the candidates that it includes are no
/// longer under it. The second value is the block's children.
#[verifier::opaque]
pub open spec fn visit(db: Db, block: H256, p: Pruned) -> Traced<(Pruned, Seq<H256>)> {
    ask(
        block_key(block),
        match block_of(db, block) {
            Err(e) => fail(e),
            Ok(None) => done((p, Seq::empty())),
            Ok(Some(entry)) => {
                let r = release(db, block, entry.candidates, p.drop_block(block));
                follow(r, done((r.value(), entry.children)))
            },
        },
    )
}

/// The branches that a block at the given height leaves behind: its children, if it competes with
/// the canonical block.
pub open spec fn branches(
    target: Target,
    height: BlockNumber,
    block: H256,
    children: Seq<H256>,
) -> Seq<H256> {
    if height == target.number && block != target.hash {
        children
    } else {
        Seq::empty()
    }
}

/// Visit the blocks that are listed at a height, one after the other. The second value adds the
/// branches that they leave behind to those in `left`.
pub open spec fn visit_listed(
    db: Db,
    target: Target,
    height: BlockNumber,
    list: Seq<H256>,
    p: Pruned,
    left: Seq<H256>,
) -> Traced<(Pruned, Seq<H256>)>
    decreases list.len(),
{
    if list.len() == 0 {
        done((p, left))
    } else {
        let v = visit(db, list[0], p);
        let left2 = left + branches(target, height, list[0], v.value().1);
        follow(v, visit_listed(db, target, height, list.skip(1), v.value().0, left2))
    }
}

/// Clear the heights from `height` up to the canonical block's. The second value is the branches
/// that the blocks competing with it leave behind.
pub open spec fn sweep(db: Db, target: Target, height: BlockNumber, p: Pruned) -> Traced<
    (Pruned, Seq<H256>),
>
    decreases target.number - height,
{
    ask(
        height_key(height),
        match list_of(db, height) {
            Err(e) => fail(e),
            Ok(list) => {
                let v = visit_listed(
                    db,
                    target,
                    height,
                    list,
                    p.clear_height(height),
                    Seq::empty(),
                );
                if height >= target.number {
                    v
                } else {
                    follow(v, sweep(db, target, (height + 1) as BlockNumber, v.value().0))
                }
            },
        },
    )
}

/// Take a block off the list at its height. A list is read once.
#[verifier::opaque]
pub open spec fn strike(db: Db, height: BlockNumber, block: H256, p: Pruned) -> Traced<Pruned> {
    if known(p.lists, height) {
        done(p.strike_again(height, block))
    } else {
        ask(
            height_key(height),
            match list_of(db, height) {
                Err(e) => fail(e),
                Ok(list) => done(p.strike_new(height, list, block)),
            },
        )
    }
}

/// Visit the given blocks at a height, from the last to the first, each with all its descendants,
/// and take them off the lists at their heights.
pub open spec fn descend(db: Db, height: BlockNumber, blocks: Seq<H256>, p: Pruned) -> Traced<
    Pruned,
>
    decreases u32::MAX - height, blocks.len(),
{
    if blocks.len() == 0 {
        done(p)
    } else {
        let block = blocks.last();
        let v = visit(db, block, p);
        let children = v.value().1;
        if children.len() > 0 && height == u32::MAX {
            follow(v, fail(Failure::Overflow))
        } else {
            let s = strike(db, height, block, v.value().0);
            let d = if children.len() > 0 {
                descend(db, (height + 1) as BlockNumber, children, s.value())
            } else {
                done(s.value())
            };
            follow(v, follow(s, follow(d, descend(db, height, blocks.drop_last(), d.value()))))
        }
    }
}

/// What `make` makes of the items that `pick` picks, in their order.
pub open spec fn picked<A, B>(
    s: Seq<A>,
    pick: spec_fn(A) -> bool,
    make: spec_fn(A) -> B,
) -> Seq<B>
    decreases s.len(),
{
    if s.len() == 0 {
        Seq::empty()
    } else {
        let before = picked(s.drop_last(), pick, make);
        if pick(s.last()) {
            before.push(make(s.last()))
        } else {
            before
        }
    }
}

/// An entry of a candidate that is under no block.
pub open spec fn orphaned(entry: Candidate) -> bool {
    entry.block_assignments == Map::<H256, Approval>::empty()
}

/// What is written for a candidate.
pub open spec fn candidate_item(item: (CandidateHash, Candidate)) -> (Seq<u8>, Seq<u8>) {
    (candidate_key(item.0), CandidateEntry::encoded(item.1))
}

/// What is written for a height.
pub open spec fn list_item(item: (BlockNumber, Seq<H256>)) -> (Seq<u8>, Seq<u8>) {
    (height_key(item.0), Vec::<H256>::encoded(item.1))
}

/// The entries that are written for candidates that are still under some block.
pub open spec fn kept_candidates(s: Seq<(CandidateHash, Candidate)>) -> Seq<(Seq<u8>, Seq<u8>)> {
    picked(
        s,
        |item: (CandidateHash, Candidate)| !orphaned(item.1),
        |item: (CandidateHash, Candidate)| candidate_item(item),
    )
}

/// The keys of candidates that are no longer under any block.
pub open spec fn gone_candidates(s: Seq<(CandidateHash, Candidate)>) -> Seq<Seq<u8>> {
    picked(
        s,
        |item: (CandidateHash, Candidate)| orphaned(item.1),
        |item: (CandidateHash, Candidate)| candidate_key(item.0),
    )
}

/// The lists that are written for heights at which some block is left.
pub open spec fn kept_lists(s: Seq<(BlockNumber, Seq<H256>)>) -> Seq<(Seq<u8>, Seq<u8>)> {
    picked(
        s,
        |item: (BlockNumber, Seq<H256>)| item.1.len() > 0,
        |item: (BlockNumber, Seq<H256>)| list_item(item),
    )
}

/// The keys of heights at which no block is left.
pub open spec fn gone_lists(s: Seq<(BlockNumber, Seq<H256>)>) -> Seq<Seq<u8>> {
    picked(
        s,
        |item: (BlockNumber, Seq<H256>)| item.1.len() == 0,
        |item: (BlockNumber, Seq<H256>)| height_key(item.0),
    )
}

/// The stored range afterwards: it begins behind the canonical block, and has room for one block
/// at least.
pub open spec fn new_range(target: Target) -> StoredBlockRange
    recommends
        target.number <= u32::MAX - 2,
{
    StoredBlockRange(
        (target.number + 1) as BlockNumber,
        if target.top >= target.number + 2 {
            target.top
        } else {
            (target.number + 2) as BlockNumber
        },
    )
}

/// The writes that a canonicalization ends with.
pub open spec fn pruning_batch(target: Target, p: Pruned) -> Batch {
    Batch {
        inserted: seq![(range_key(), StoredBlockRange::encoded(new_range(target)))]
            + kept_candidates(p.candidates) + kept_lists(p.lists),
        deleted: block_keys(p.blocks) + height_keys(p.heights) + gone_lists(p.lists)
            + gone_candidates(p.candidates),
    }
}

/// The end of a canonicalization.
#[verifier::opaque]
pub open spec fn conclude(target: Target, p: Pruned) -> Plan {
    if target.number > u32::MAX - 2 {
        fail(Failure::Overflow)
    } else {
        done(Some(pruning_batch(target, p)))
    }
}

/// Everything after the sweep: the branches that it leaves behind, and the end.
pub open spec fn cut_branches(db: Db, target: Target, p: Pruned, left: Seq<H256>) -> Plan {
    if left.len() == 0 {
        conclude(target, p)
    } else if target.number == u32::MAX {
        fail(Failure::Overflow)
    } else {
        let d = descend(db, (target.number + 1) as BlockNumber, left, p);
        follow(d, conclude(target, d.value()))
    }
}

/// What canonicalizing a block does. Everything up to its height goes, and with it every branch
/// that descends from a block competing with it. Nothing is done if there is no stored range, or
/// if the range begins above the block.
pub open spec fn canonicalize_plan(db: Db, number: BlockNumber, hash: H256) -> Plan {
    ask(
        range_key(),
        match range_of(db) {
            Err(e) => fail(e),
            Ok(None) => done(None),
            Ok(Some(range)) => {
                if range.0 > number {
                    done(None)
                } else {
                    let target = Target { number, hash, top: range.1 };
                    let s = sweep(db, target, range.0, Pruned::nothing());
                    follow(s, cut_branches(db, target, s.value().0, s.value().1))
                }
            },
        },
    )
}

} // verus!
