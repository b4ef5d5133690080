//! What canonicalizing a block does to the database.
use crate::branch_laws::{
    any_struck_at, found_from, lemma_descend, lemma_remaining_all, list_ok, lists_ok, met_from,
    reaches, remaining, struck_at, with_strikes,
};
use crate::codec::{candidate_reads_back, hashes_read_back, range_reads_back, Stored};
use crate::keys::{block_key, candidate_key, height_key, keys_differ, range_key};
use crate::pruning::{
    at, candidate_item, canonicalize_plan, conclude, cut_branches, descend, gone_candidates,
    gone_lists, kept_candidates, kept_lists, known, list_item, new_range, orphaned, picked, place,
    pruning_batch, sweep, Pruned, Target,
};
use crate::pruning_laws::{
    account_ok, block_includes, distinct, left_behind, lemma_known, lemma_sweep, listed_between,
    released_from_some, releases_of, stripped,
};
use crate::sequences::{lemma_contains_concat, lemma_contains_push};
use crate::store::{
    after_end, after_writes, block_keys, block_of, candidate_of, height_keys, list_of, lookup,
    range_of, Batch, Db, Failure,
};
use crate::store_laws::{
    blocks_at, candidate_at, deleted_is_gone, has_block, has_candidate, insertions_give,
    insertions_keep, inserts, ours, read_entries_are_storable, readable, same_values_read_the_same,
    undeleted_stays,
};
use crate::types::{BlockNumber, Candidate, CandidateEntry, CandidateHash, StoredBlockRange, H256};
use vstd::prelude::*;

verus! {

/// An item is made of one that is picked.
spec fn made<A, B>(s: Seq<A>, pick: spec_fn(A) -> bool, make: spec_fn(A) -> B, item: B) -> bool {
    exists|j: int| 0 <= j < s.len() && pick(#[trigger] s[j]) && item == make(s[j])
}

/// The picked items are those that are made of one that is picked.
proof fn lemma_picked<A, B>(s: Seq<A>, pick: spec_fn(A) -> bool, make: spec_fn(A) -> B)
    ensures
        forall|item: B| #[trigger]
            picked(s, pick, make).contains(item) == made(s, pick, make, item),
    decreases s.len(),
{
    if s.len() > 0 {
        let t = s.drop_last();
        let last = s.last();
        let before = picked(t, pick, make);
        lemma_picked(t, pick, make);
        assert forall|item: B| #[trigger]
            picked(s, pick, make).contains(item) == made(s, pick, make, item) by {
            if pick(last) {
                lemma_contains_push(before, make(last), item);
                if item == make(last) {
                    assert(pick(s[s.len() - 1]));
                }
            }
            assert(before.contains(item) == made(t, pick, make, item));
            if made(t, pick, make, item) {
                let j = choose|j: int|
                    0 <= j < t.len() && pick(#[trigger] t[j]) && item == make(t[j]);
                assert(s[j] == t[j]);
            }
            if made(s, pick, make, item) {
                let j = choose|j: int|
                    0 <= j < s.len() && pick(#[trigger] s[j]) && item == make(s[j]);
                if j < t.len() {
                    assert(t[j] == s[j]);
                }
            }
        }
    }
}

/// What is inserted.
pub(crate) proof fn lemma_inserted(target: Target, p: Pruned, item: (Seq<u8>, Seq<u8>))
    ensures
        pruning_batch(target, p).inserted.contains(item) == ({
            ||| item == (range_key(), StoredBlockRange::encoded(new_range(target)))
            ||| exists|j: int|
                0 <= j < p.candidates.len() && !orphaned((#[trigger] p.candidates[j]).1) && item
                    == candidate_item(p.candidates[j])
            ||| exists|j: int|
                0 <= j < p.lists.len() && (#[trigger] p.lists[j]).1.len() > 0 && item == list_item(
                    p.lists[j],
                )
        }),
{
    let first = seq![(range_key(), StoredBlockRange::encoded(new_range(target)))];
    lemma_contains_concat(first + kept_candidates(p.candidates), kept_lists(p.lists), item);
    lemma_contains_concat(first, kept_candidates(p.candidates), item);
    assert(first.contains(item) == (item == first[0])) by {
        if first.contains(item) {
            let i = choose|i: int| 0 <= i < first.len() && first[i] == item;
            assert(i == 0);
        }
        assert(first.contains(first[0]));
    }
    lemma_picked(
        p.candidates,
        |item: (CandidateHash, Candidate)| !orphaned(item.1),
        |item: (CandidateHash, Candidate)| candidate_item(item),
    );
    lemma_picked(
        p.lists,
        |item: (BlockNumber, Seq<H256>)| item.1.len() > 0,
        |item: (BlockNumber, Seq<H256>)| list_item(item),
    );
    assert(kept_candidates(p.candidates).contains(item) == exists|j: int|
        0 <= j < p.candidates.len() && !orphaned((#[trigger] p.candidates[j]).1) && item
            == candidate_item(p.candidates[j]));
    assert(kept_lists(p.lists).contains(item) == exists|j: int|
        0 <= j < p.lists.len() && (#[trigger] p.lists[j]).1.len() > 0 && item == list_item(
            p.lists[j],
        ));
}

/// What is deleted.
pub(crate) proof fn lemma_deleted(target: Target, p: Pruned, key: Seq<u8>)
    ensures
        pruning_batch(target, p).deleted.contains(key) == ({
            ||| exists|b: H256| #[trigger] p.blocks.contains(b) && key == block_key(b)
            ||| exists|h: BlockNumber| #[trigger] p.heights.contains(h) && key == height_key(h)
            ||| exists|j: int|
                0 <= j < p.lists.len() && (#[trigger] p.lists[j]).1.len() == 0 && key == height_key(
                    p.lists[j].0,
                )
            ||| exists|j: int|
                0 <= j < p.candidates.len() && orphaned((#[trigger] p.candidates[j]).1) && key
                    == candidate_key(p.candidates[j].0)
        }),
{
    let d1 = block_keys(p.blocks);
    let d2 = height_keys(p.heights);
    let d3 = gone_lists(p.lists);
    let d4 = gone_candidates(p.candidates);
    lemma_contains_concat(d1 + d2 + d3, d4, key);
    lemma_contains_concat(d1 + d2, d3, key);
    lemma_contains_concat(d1, d2, key);
    lemma_block_keys(p.blocks, key);
    lemma_height_keys(p.heights, key);
    lemma_picked(
        p.candidates,
        |item: (CandidateHash, Candidate)| orphaned(item.1),
        |item: (CandidateHash, Candidate)| candidate_key(item.0),
    );
    lemma_picked(
        p.lists,
        |item: (BlockNumber, Seq<H256>)| item.1.len() == 0,
        |item: (BlockNumber, Seq<H256>)| height_key(item.0),
    );
    assert(d3.contains(key) == exists|j: int|
        0 <= j < p.lists.len() && (#[trigger] p.lists[j]).1.len() == 0 && key == height_key(
            p.lists[j].0,
        ));
    assert(d4.contains(key) == exists|j: int|
        0 <= j < p.candidates.len() && orphaned((#[trigger] p.candidates[j]).1) && key
            == candidate_key(p.candidates[j].0));
}

/// Which keys are those of some blocks.
pub(crate) proof fn lemma_block_keys(blocks: Seq<H256>, key: Seq<u8>)
    ensures
        block_keys(blocks).contains(key) == exists|b: H256| #[trigger]
            blocks.contains(b) && key == block_key(b),
{
    let keys = block_keys(blocks);
    if keys.contains(key) {
        let i = choose|i: int| 0 <= i < keys.len() && keys[i] == key;
        assert(blocks.contains(blocks[i]));
    }
    if exists|b: H256| #[trigger] blocks.contains(b) && key == block_key(b) {
        let b = choose|b: H256| #[trigger] blocks.contains(b) && key == block_key(b);
        let i = choose|i: int| 0 <= i < blocks.len() && blocks[i] == b;
        assert(keys[i] == key);
    }
}

/// Which keys are those of some heights.
pub(crate) proof fn lemma_height_keys(heights: Seq<BlockNumber>, key: Seq<u8>)
    ensures
        height_keys(heights).contains(key) == exists|h: BlockNumber| #[trigger]
            heights.contains(h) && key == height_key(h),
{
    let keys = height_keys(heights);
    if keys.contains(key) {
        let i = choose|i: int| 0 <= i < keys.len() && keys[i] == key;
        assert(heights.contains(heights[i]));
    }
    if exists|h: BlockNumber| #[trigger] heights.contains(h) && key == height_key(h) {
        let h = choose|h: BlockNumber| #[trigger] heights.contains(h) && key == height_key(h);
        let i = choose|i: int| 0 <= i < heights.len() && heights[i] == h;
        assert(keys[i] == key);
    }
}

/// What an insertion is under, by the item at a place.
proof fn lemma_inserts(items: Seq<(Seq<u8>, Seq<u8>)>, key: Seq<u8>)
    ensures
        inserts(items, key) == exists|item: (Seq<u8>, Seq<u8>)| #[trigger]
            items.contains(item) && item.0 == key,
{
    if inserts(items, key) {
        let i = choose|i: int| 0 <= i < items.len() && (#[trigger] items[i]).0 == key;
        assert(items.contains(items[i]));
    }
    if exists|item: (Seq<u8>, Seq<u8>)| #[trigger] items.contains(item) && item.0 == key {
        let item = choose|item: (Seq<u8>, Seq<u8>)| #[trigger]
            items.contains(item) && item.0 == key;
        let i = choose|i: int| 0 <= i < items.len() && items[i] == item;
        assert(items[i].0 == key);
    }
}

/// The range afterwards.
proof fn lemma_range_after(db: Db, target: Target, p: Pruned)
    ensures
        lookup(after_writes(db, pruning_batch(target, p)), range_key()) == Some(
            StoredBlockRange::encoded(new_range(target)),
        ),
{
    let batch = pruning_batch(target, p);
    let items = batch.inserted;
    let value = StoredBlockRange::encoded(new_range(target));
    let key = range_key();
    keys_differ();
    assert(!batch.deleted.contains(key)) by {
        lemma_deleted(target, p, key);
    }
    undeleted_stays(db, batch, key);
    lemma_inserted(target, p, (key, value));
    lemma_inserts(items, key);
    assert forall|i: int| 0 <= i < items.len() && (#[trigger] items[i]).0 == key implies items[i].1
        == value by {
        lemma_inserted(target, p, items[i]);
        assert(items.contains(items[i]));
    }
    insertions_give(db, items, key, value);
}

/// Block entries afterwards.
proof fn lemma_block_after(db: Db, target: Target, p: Pruned, b: H256)
    ensures
        lookup(after_writes(db, pruning_batch(target, p)), block_key(b)) == (if p.blocks.contains(
            b,
        ) {
            None
        } else {
            lookup(db, block_key(b))
        }),
{
    let batch = pruning_batch(target, p);
    let items = batch.inserted;
    let key = block_key(b);
    keys_differ();
    lemma_deleted(target, p, key);
    if p.blocks.contains(b) {
        deleted_is_gone(db, batch, key);
    } else {
        undeleted_stays(db, batch, key);
        assert forall|i: int| 0 <= i < items.len() implies (#[trigger] items[i]).0 != key by {
            lemma_inserted(target, p, items[i]);
            assert(items.contains(items[i]));
        }
        insertions_keep(db, items, key);
    }
}

/// Lists afterwards.
proof fn lemma_list_after(db: Db, target: Target, p: Pruned, h: BlockNumber)
    requires
        distinct(p.lists),
    ensures
        lookup(after_writes(db, pruning_batch(target, p)), height_key(h)) == (
        if p.heights.contains(h) {
            None
        } else if known(p.lists, h) {
            let list = at(p.lists, h);
            if list.len() == 0 {
                None
            } else {
                Some(Vec::<H256>::encoded(list))
            }
        } else {
            lookup(db, height_key(h))
        }),
{
    let batch = pruning_batch(target, p);
    let items = batch.inserted;
    let key = height_key(h);
    keys_differ();
    lemma_deleted(target, p, key);
    lemma_known(p.lists, h);
    let k = place(p.lists, h);
    let list = at(p.lists, h);
    if p.heights.contains(h) || (known(p.lists, h) && list.len() == 0) {
        if known(p.lists, h) {
            assert(p.lists[k].0 == h);
        }
        deleted_is_gone(db, batch, key);
    } else {
        assert(!batch.deleted.contains(key)) by {
            if batch.deleted.contains(key) {
                let j = choose|j: int|
                    0 <= j < p.lists.len() && (#[trigger] p.lists[j]).1.len() == 0 && key
                        == height_key(p.lists[j].0);
                assert(p.lists[j].0 == h);
                assert(known(p.lists, h));
                assert(j == k);
            }
        }
        undeleted_stays(db, batch, key);
        if known(p.lists, h) {
            let value = Vec::<H256>::encoded(list);
            assert(p.lists[k].1.len() > 0);
            lemma_inserted(target, p, (key, value));
            assert(items.contains((key, value)));
            lemma_inserts(items, key);
            assert forall|i: int|
                0 <= i < items.len() && (#[trigger] items[i]).0 == key implies items[i].1
                == value by {
                lemma_inserted(target, p, items[i]);
                assert(items.contains(items[i]));
                let j = choose|j: int|
                    0 <= j < p.lists.len() && (#[trigger] p.lists[j]).1.len() > 0 && items[i]
                        == list_item(p.lists[j]);
                assert(p.lists[j].0 == h);
                assert(j == k);
            }
            insertions_give(db, items, key, value);
        } else {
            assert forall|i: int| 0 <= i < items.len() implies (#[trigger] items[i]).0 != key by {
                lemma_inserted(target, p, items[i]);
                assert(items.contains(items[i]));
                if items[i].0 == key {
                    let j = choose|j: int|
                        0 <= j < p.lists.len() && (#[trigger] p.lists[j]).1.len() > 0 && items[i]
                            == list_item(p.lists[j]);
                    assert(p.lists[j].0 == h);
                }
            }
            insertions_keep(db, items, key);
        }
    }
}

/// Candidate entries afterwards.
proof fn lemma_candidate_after(db: Db, target: Target, p: Pruned, c: CandidateHash)
    requires
        distinct(p.candidates),
    ensures
        lookup(after_writes(db, pruning_batch(target, p)), candidate_key(c)) == (if known(
            p.candidates,
            c,
        ) {
            let entry = at(p.candidates, c);
            if orphaned(entry) {
                None
            } else {
                Some(CandidateEntry::encoded(entry))
            }
        } else {
            lookup(db, candidate_key(c))
        }),
{
    let batch = pruning_batch(target, p);
    let items = batch.inserted;
    let key = candidate_key(c);
    keys_differ();
    lemma_deleted(target, p, key);
    lemma_known(p.candidates, c);
    let k = place(p.candidates, c);
    let entry = at(p.candidates, c);
    if known(p.candidates, c) && orphaned(entry) {
        assert(p.candidates[k].0 == c);
        deleted_is_gone(db, batch, key);
    } else {
        assert(!batch.deleted.contains(key)) by {
            if batch.deleted.contains(key) {
                let j = choose|j: int|
                    0 <= j < p.candidates.len() && orphaned((#[trigger] p.candidates[j]).1) && key
                        == candidate_key(p.candidates[j].0);
                assert(p.candidates[j].0 == c);
                assert(known(p.candidates, c));
                assert(j == k);
            }
        }
        undeleted_stays(db, batch, key);
        if known(p.candidates, c) {
            let value = CandidateEntry::encoded(entry);
            assert(!orphaned(p.candidates[k].1));
            lemma_inserted(target, p, (key, value));
            assert(items.contains((key, value)));
            lemma_inserts(items, key);
            assert forall|i: int|
                0 <= i < items.len() && (#[trigger] items[i]).0 == key implies items[i].1
                == value by {
                lemma_inserted(target, p, items[i]);
                assert(items.contains(items[i]));
                let j = choose|j: int|
                    0 <= j < p.candidates.len() && !orphaned((#[trigger] p.candidates[j]).1)
                        && items[i] == candidate_item(p.candidates[j]);
                assert(p.candidates[j].0 == c);
                assert(j == k);
            }
            insertions_give(db, items, key, value);
        } else {
            assert forall|i: int| 0 <= i < items.len() implies (#[trigger] items[i]).0 != key by {
                lemma_inserted(target, p, items[i]);
                assert(items.contains(items[i]));
                if items[i].0 == key {
                    let j = choose|j: int|
                        0 <= j < p.candidates.len() && !orphaned((#[trigger] p.candidates[j]).1)
                            && items[i] == candidate_item(p.candidates[j]);
                    assert(p.candidates[j].0 == c);
                }
            }
            insertions_keep(db, items, key);
        }
    }
}

/// Other values afterwards.
proof fn lemma_other_after(db: Db, target: Target, p: Pruned, key: Seq<u8>)
    requires
        !ours(key),
    ensures
        lookup(after_writes(db, pruning_batch(target, p)), key) == lookup(db, key),
{
    let batch = pruning_batch(target, p);
    let items = batch.inserted;
    lemma_deleted(target, p, key);
    undeleted_stays(db, batch, key);
    assert forall|i: int| 0 <= i < items.len() implies (#[trigger] items[i]).0 != key by {
        lemma_inserted(target, p, items[i]);
        assert(items.contains(items[i]));
    }
    insertions_keep(db, items, key);
}

/// A block descends from a block that competes with the canonical one at its height.
pub open spec fn on_cut_branch(db: Db, target: Target, b: H256) -> bool {
    exists|child: H256, steps: nat|
        left_behind(db, target, blocks_at(db, target.number), child) && #[trigger] reaches(
            db,
            child,
            b,
            steps,
        )
}

/// A block descends from a block that competes with the canonical one, and is met at height `h`
/// on the way there.
pub open spec fn cut_at(db: Db, target: Target, h: BlockNumber, b: H256) -> bool {
    exists|child: H256, steps: nat|
        left_behind(db, target, blocks_at(db, target.number), child) && h == target.number + 1
            + steps && #[trigger] reaches(db, child, b, steps)
}

/// The blocks that go from the list at a height above the canonical block.
pub open spec fn cut_from(db: Db, target: Target, h: BlockNumber) -> Set<H256> {
    Set::new(|b: H256| cut_at(db, target, h, b))
}

/// A block entry goes: it is listed at one of the cleared heights, or it descends from a block that
/// competes with the canonical one.
pub open spec fn is_pruned(db: Db, target: Target, lo: BlockNumber, b: H256) -> bool {
    has_block(db, b) && (listed_between(db, lo, target.number, b) || on_cut_branch(db, target, b))
}

/// The candidates that are released from the blocks whose entries go.
pub open spec fn pruning_releases(db: Db, target: Target, lo: BlockNumber) -> Set<
    (H256, CandidateHash),
> {
    Set::new(
        |r: (H256, CandidateHash)|
            is_pruned(db, target, lo, r.0) && block_includes(db, r.0, r.1),
    )
}

/// A block whose entry goes includes a candidate.
pub open spec fn loses_a_block(db: Db, target: Target, lo: BlockNumber, c: CandidateHash) -> bool {
    exists|b: H256| #[trigger] is_pruned(db, target, lo, b) && block_includes(db, b, c)
}

/// What is left of the entry of a candidate: `None` if it is under no block any more.
pub open spec fn candidate_left(
    db: Db,
    target: Target,
    lo: BlockNumber,
    c: CandidateHash,
) -> Option<Candidate> {
    let entry = stripped(db, c, pruning_releases(db, target, lo));
    if orphaned(entry) {
        None
    } else {
        Some(entry)
    }
}

/// The account that a canonicalization ends with.
spec fn final_account(db: Db, target: Target, lo: BlockNumber, p: Pruned) -> bool {
    &&& account_ok(db, p)
    &&& lists_ok(
        db,
        p,
        Set::new(|s: (BlockNumber, H256)| cut_at(db, target, s.0, s.1)),
    )
    &&& forall|h: BlockNumber| #[trigger]
        p.heights.contains(h) == (lo <= h <= target.number)
    &&& forall|b: H256| #[trigger] p.blocks.contains(b) == is_pruned(db, target, lo, b)
}

proof fn lemma_cut_left(db: Db, target: Target, left: Seq<H256>)
    requires
        forall|x: H256| #[trigger]
            left.contains(x) == left_behind(db, target, blocks_at(db, target.number), x),
    ensures
        forall|b: H256| #[trigger] found_from(db, left, b) == on_cut_branch(db, target, b),
        target.number < u32::MAX ==> forall|h: BlockNumber, b: H256| #[trigger]
            met_from(db, (target.number + 1) as BlockNumber, left, h, b) == cut_at(
                db,
                target,
                h,
                b,
            ),
        left.len() == 0 ==> forall|h: BlockNumber, b: H256| !#[trigger] cut_at(db, target, h, b),
{
    assert forall|b: H256| #[trigger] found_from(db, left, b) == on_cut_branch(db, target, b) by {
        if found_from(db, left, b) {
            let (x, steps) = choose|x: H256, steps: nat|
                left.contains(x) && #[trigger] reaches(db, x, b, steps);
            assert(left_behind(db, target, blocks_at(db, target.number), x));
        }
        if on_cut_branch(db, target, b) {
            let (x, steps) = choose|x: H256, steps: nat|
                left_behind(db, target, blocks_at(db, target.number), x) && #[trigger] reaches(
                    db,
                    x,
                    b,
                    steps,
                );
            assert(left.contains(x));
        }
    }
    if target.number < u32::MAX {
        let above = (target.number + 1) as BlockNumber;
        assert forall|h: BlockNumber, b: H256| #[trigger]
            met_from(db, above, left, h, b) == cut_at(db, target, h, b) by {
            if met_from(db, above, left, h, b) {
                let (x, steps) = choose|x: H256, steps: nat|
                    left.contains(x) && h == above + steps && #[trigger] reaches(db, x, b, steps);
                assert(left_behind(db, target, blocks_at(db, target.number), x));
            }
            if cut_at(db, target, h, b) {
                let (x, steps) = choose|x: H256, steps: nat|
                    left_behind(db, target, blocks_at(db, target.number), x) && h == target.number
                        + 1 + steps && #[trigger] reaches(db, x, b, steps);
                assert(left.contains(x));
            }
        }
    }
    if left.len() == 0 {
        assert forall|h: BlockNumber, b: H256| !#[trigger] cut_at(db, target, h, b) by {
            if cut_at(db, target, h, b) {
                let (x, steps) = choose|x: H256, steps: nat|
                    left_behind(db, target, blocks_at(db, target.number), x) && h == target.number
                        + 1 + steps && #[trigger] reaches(db, x, b, steps);
                assert(left.contains(x));
            }
        }
    }
}

/// The account is right to begin with.
pub(crate) proof fn lemma_start(db: Db)
    ensures
        account_ok(db, Pruned::nothing()),
        lists_ok(db, Pruned::nothing(), Set::empty()),
{
    let none = Pruned::nothing();
    let nothing_struck = Set::<(BlockNumber, H256)>::empty();
    assert forall|c: CandidateHash| #[trigger]
        known(none.candidates, c) == (has_candidate(db, c) && released_from_some(
            releases_of(db, none.blocks),
            c,
        )) by {
        lemma_known(none.candidates, c);
    }
    assert forall|h: BlockNumber| #[trigger]
        known(none.lists, h) == any_struck_at(nothing_struck, h) by {
        lemma_known(none.lists, h);
    }
}

/// A canonicalization that ends well ends with the right account.
proof fn lemma_final_account(
    db: Db,
    number: BlockNumber,
    hash: H256,
    range: StoredBlockRange,
    batch: Batch,
) -> (p: Pruned)
    requires
        readable(db),
        range_of(db) == Ok::<_, Failure>(Some(range)),
        canonicalize_plan(db, number, hash).result == Ok::<_, Failure>(Some(batch)),
    ensures
        range.0 <= number <= u32::MAX - 2,
        batch == pruning_batch(Target { number, hash, top: range.1 }, p),
        final_account(db, Target { number, hash, top: range.1 }, range.0, p),
{
    let target = Target { number, hash, top: range.1 };
    let lo = range.0;
    let none = Pruned::nothing();
    assert(range.0 <= number);
    lemma_start(db);
    lemma_sweep(db, target, lo, none);
    let s = sweep(db, target, lo, none);
    let (p1, left) = s.value();
    lemma_cut_left(db, target, left);
    assert(cut_branches(db, target, p1, left).result == Ok::<_, Failure>(Some(batch)));
    reveal(conclude);
    let nothing_struck = Set::<(BlockNumber, H256)>::empty();
    assert(lists_ok(db, p1, nothing_struck));
    let cut = Set::new(|s: (BlockNumber, H256)| cut_at(db, target, s.0, s.1));
    if left.len() == 0 {
        assert(cut =~= nothing_struck);
        assert forall|b: H256| #[trigger] p1.blocks.contains(b) == is_pruned(db, target, lo, b) by {
            assert(!found_from(db, left, b));
            assert(!on_cut_branch(db, target, b));
        }
        p1
    } else {
        let above = (number + 1) as BlockNumber;
        let d = descend(db, above, left, p1);
        lemma_descend(db, above, left, p1, nothing_struck);
        let p2 = d.value();
        assert(with_strikes(db, nothing_struck, above, left) =~= cut);
        assert forall|b: H256| #[trigger] p2.blocks.contains(b) == is_pruned(db, target, lo, b) by {
            assert(found_from(db, left, b) == on_cut_branch(db, target, b));
            assert(p1.blocks.contains(b) == (has_block(db, b) && listed_between(
                db,
                lo,
                number,
                b,
            )));
        }
        p2
    }
}

/// A canonicalization of a database that can be read ends with the given writes.
pub open spec fn canonicalizes(
    db: Db,
    number: BlockNumber,
    hash: H256,
    range: StoredBlockRange,
    batch: Batch,
) -> bool {
    &&& readable(db)
    &&& range_of(db) == Ok::<Option<StoredBlockRange>, Failure>(Some(range))
    &&& canonicalize_plan(db, number, hash).result == Ok::<Option<Batch>, Failure>(Some(batch))
}

/// A canonicalization that has something to write.
pub(crate) proof fn lemma_some_account(
    db: Db,
    number: BlockNumber,
    hash: H256,
    batch: Batch,
) -> (r: (StoredBlockRange, Pruned))
    requires
        canonicalize_plan(db, number, hash).result == Ok::<Option<Batch>, Failure>(Some(batch)),
    ensures
        range_of(db) == Ok::<Option<StoredBlockRange>, Failure>(Some(r.0)),
        r.0.0 <= number <= u32::MAX - 2,
        batch == pruning_batch(Target { number, hash, top: r.0.1 }, r.1),
{
    reveal(conclude);
    let range = range_of(db)->Ok_0->Some_0;
    let target = Target { number, hash, top: range.1 };
    let (p1, left) = sweep(db, target, range.0, Pruned::nothing()).value();
    let p = if left.len() == 0 {
        p1
    } else {
        descend(db, (number + 1) as BlockNumber, left, p1).value()
    };
    (range, p)
}

/// After a canonicalization the stored range begins behind the canonical block. It ends where it
/// ended, but has room for one block at least.
pub proof fn canonicalizing_moves_the_range(
    db: Db,
    number: BlockNumber,
    hash: H256,
    range: StoredBlockRange,
    batch: Batch,
)
    requires
        range_of(db) == Ok::<Option<StoredBlockRange>, Failure>(Some(range)),
        canonicalize_plan(db, number, hash).result == Ok::<Option<Batch>, Failure>(Some(batch)),
    ensures
        range.0 <= number <= u32::MAX - 2,
        range_of(after_writes(db, batch)) == Ok::<Option<StoredBlockRange>, Failure>(
            Some(
                StoredBlockRange(
                    (number + 1) as BlockNumber,
                    if range.1 >= number + 2 {
                        range.1
                    } else {
                        (number + 2) as BlockNumber
                    },
                ),
            ),
        ),
{
    let target = Target { number, hash, top: range.1 };
    let (_, p) = lemma_some_account(db, number, hash, batch);
    lemma_range_after(db, target, p);
    range_reads_back(new_range(target));
}

/// A canonicalization removes the entry of every block that is listed from the beginning of the
/// range up to the canonical block's height, and of every block that descends from one competing
/// with the canonical block at that height. Every other block entry stays as it is.
pub proof fn canonicalizing_prunes_blocks(
    db: Db,
    number: BlockNumber,
    hash: H256,
    range: StoredBlockRange,
    batch: Batch,
    b: H256,
)
    requires
        canonicalizes(db, number, hash, range, batch),
    ensures
        block_of(after_writes(db, batch), b) == (if is_pruned(
            db,
            Target { number, hash, top: range.1 },
            range.0,
            b,
        ) {
            Ok(None)
        } else {
            block_of(db, b)
        }),
{
    let target = Target { number, hash, top: range.1 };
    let p = lemma_final_account(db, number, hash, range, batch);
    lemma_block_after(db, target, p, b);
    same_values_read_the_same(after_writes(db, batch), db, 0, b, b);
}

/// A canonicalization takes the blocks whose entries go out of the entries of the candidates that
/// they include. A candidate that is under no block then has no entry any more. Every other
/// candidate entry stays as it is.
pub proof fn canonicalizing_releases_candidates(
    db: Db,
    number: BlockNumber,
    hash: H256,
    range: StoredBlockRange,
    batch: Batch,
    c: CandidateHash,
)
    requires
        canonicalizes(db, number, hash, range, batch),
    ensures
        candidate_of(after_writes(db, batch), c) == (if has_candidate(db, c) && loses_a_block(
            db,
            Target { number, hash, top: range.1 },
            range.0,
            c,
        ) {
            Ok(candidate_left(db, Target { number, hash, top: range.1 }, range.0, c))
        } else {
            candidate_of(db, c)
        }),
{
    let target = Target { number, hash, top: range.1 };
    let lo = range.0;
    let p = lemma_final_account(db, number, hash, range, batch);
    let released = pruning_releases(db, target, lo);
    assert(releases_of(db, p.blocks) =~= released);
    assert(released_from_some(released, c) == loses_a_block(db, target, lo, c)) by {
        if released_from_some(released, c) {
            let b = choose|b: H256| #[trigger] released.contains((b, c));
            assert(is_pruned(db, target, lo, b));
        }
        if loses_a_block(db, target, lo, c) {
            let b = choose|b: H256| #[trigger]
                is_pruned(db, target, lo, b) && block_includes(db, b, c);
            assert(released.contains((b, c)));
        }
    }
    lemma_candidate_after(db, target, p, c);
    if known(p.candidates, c) {
        lemma_known(p.candidates, c);
        let entry = at(p.candidates, c);
        assert(p.candidates[place(p.candidates, c)].1 == stripped(db, c, released));
        read_entries_are_storable(db, 0, c, c);
        lemma_stripped_storable(candidate_at(db, c), Set::new(|b: H256| released.contains((b, c))));
        candidate_reads_back(entry);
    } else {
        same_values_read_the_same(after_writes(db, batch), db, 0, c, c);
    }
}

/// An entry from which some blocks are taken out can be written and read back.
proof fn lemma_stripped_storable(entry: Candidate, gone: Set<H256>)
    requires
        entry.storable(),
    ensures
        (Candidate {
            block_assignments: entry.block_assignments.remove_keys(gone),
            ..entry
        }).storable(),
{
    let m = entry.block_assignments;
    let rest = m.remove_keys(gone);
    assert(rest.dom() =~= m.dom().difference(gone));
    assert(rest.dom().subset_of(m.dom()));
    vstd::set_lib::lemma_len_subset(rest.dom(), m.dom());
}

/// A canonicalization clears the heights from the beginning of the range up to the canonical
/// block's.
pub proof fn canonicalizing_clears_heights(
    db: Db,
    number: BlockNumber,
    hash: H256,
    range: StoredBlockRange,
    batch: Batch,
    h: BlockNumber,
)
    requires
        canonicalizes(db, number, hash, range, batch),
        range.0 <= h <= number,
    ensures
        lookup(after_writes(db, batch), height_key(h)) is None,
        list_of(after_writes(db, batch), h) == Ok::<Seq<H256>, Failure>(Seq::empty()),
{
    let target = Target { number, hash, top: range.1 };
    let p = lemma_final_account(db, number, hash, range, batch);
    assert(p.heights.contains(h));
    lemma_list_after(db, target, p, h);
}

/// At every other height, a canonicalization takes off the list the blocks that descend from one
/// competing with the canonical block, where they are met on the way there. The others stay, in
/// their order.
pub proof fn canonicalizing_cuts_lists(
    db: Db,
    number: BlockNumber,
    hash: H256,
    range: StoredBlockRange,
    batch: Batch,
    h: BlockNumber,
)
    requires
        canonicalizes(db, number, hash, range, batch),
        h < range.0 || number < h,
        blocks_at(db, h).no_duplicates(),
    ensures
        list_of(after_writes(db, batch), h) == Ok::<Seq<H256>, Failure>(
            remaining(
                blocks_at(db, h),
                cut_from(db, Target { number, hash, top: range.1 }, h),
            ),
        ),
{
    let target = Target { number, hash, top: range.1 };
    let p = lemma_final_account(db, number, hash, range, batch);
    let cut = Set::new(|s: (BlockNumber, H256)| cut_at(db, target, s.0, s.1));
    let list = blocks_at(db, h);
    assert(!p.heights.contains(h));
    assert(list_of(db, h) is Ok);
    assert(struck_at(cut, h) =~= cut_from(db, target, h));
    lemma_list_after(db, target, p, h);
    lemma_known(p.lists, h);
    if known(p.lists, h) {
        let k = place(p.lists, h);
        assert(list_ok(db, p.lists[k], cut));
        let left = at(p.lists, h);
        read_entries_are_storable(db, h, hash, hash);
        if left.len() == 0 {
            assert(left =~= Seq::empty());
        } else {
            hashes_read_back(left);
        }
    } else {
        assert(!any_struck_at(cut, h));
        assert forall|b: H256| list.contains(b) implies !cut_from(db, target, h).contains(b) by {
            if cut_at(db, target, h, b) {
                assert(cut.contains((h, b)));
            }
        }
        lemma_remaining_all(list, cut_from(db, target, h));
        same_values_read_the_same(after_writes(db, batch), db, h, hash, hash);
    }
}

/// A canonicalization adds no list at a height that had none.
pub proof fn canonicalizing_adds_no_list(
    db: Db,
    number: BlockNumber,
    hash: H256,
    range: StoredBlockRange,
    batch: Batch,
    h: BlockNumber,
)
    requires
        canonicalizes(db, number, hash, range, batch),
        lookup(db, height_key(h)) is None,
    ensures
        lookup(after_writes(db, batch), height_key(h)) is None,
{
    let target = Target { number, hash, top: range.1 };
    let p = lemma_final_account(db, number, hash, range, batch);
    let cut = Set::new(|s: (BlockNumber, H256)| cut_at(db, target, s.0, s.1));
    lemma_list_after(db, target, p, h);
    lemma_known(p.lists, h);
    if known(p.lists, h) {
        assert(list_ok(db, p.lists[place(p.lists, h)], cut));
    }
}

/// A canonicalization leaves no list behind that it has emptied.
pub proof fn canonicalizing_leaves_no_empty_list(
    db: Db,
    number: BlockNumber,
    hash: H256,
    range: StoredBlockRange,
    batch: Batch,
    h: BlockNumber,
)
    requires
        canonicalizes(db, number, hash, range, batch),
        lookup(after_writes(db, batch), height_key(h)) is Some,
        lookup(after_writes(db, batch), height_key(h)) != lookup(db, height_key(h)),
    ensures
        list_of(after_writes(db, batch), h) matches Ok(list) && list.len() > 0,
{
    let target = Target { number, hash, top: range.1 };
    let p = lemma_final_account(db, number, hash, range, batch);
    let cut = Set::new(|s: (BlockNumber, H256)| cut_at(db, target, s.0, s.1));
    lemma_list_after(db, target, p, h);
    lemma_known(p.lists, h);
    assert(list_ok(db, p.lists[place(p.lists, h)], cut));
    assert(list_of(db, h) is Ok);
    read_entries_are_storable(db, h, hash, hash);
    hashes_read_back(at(p.lists, h));
}

/// A canonicalization leaves alone what does not belong to the database.
pub proof fn canonicalizing_leaves_other_values(
    db: Db,
    number: BlockNumber,
    hash: H256,
    key: Seq<u8>,
)
    requires
        !ours(key),
    ensures
        lookup(after_end(db, canonicalize_plan(db, number, hash).result), key) == lookup(db, key),
{
    if let Ok(Some(batch)) = canonicalize_plan(db, number, hash).result {
        let (range, p) = lemma_some_account(db, number, hash, batch);
        lemma_other_after(db, Target { number, hash, top: range.1 }, p, key);
    }
}

/// After a canonicalization every entry can still be read.
pub proof fn canonicalizing_keeps_readable(
    db: Db,
    number: BlockNumber,
    hash: H256,
    range: StoredBlockRange,
    batch: Batch,
)
    requires
        canonicalizes(db, number, hash, range, batch),
    ensures
        readable(after_writes(db, batch)),
{
    let db2 = after_writes(db, batch);
    let target = Target { number, hash, top: range.1 };
    let p = lemma_final_account(db, number, hash, range, batch);
    let cut = Set::new(|s: (BlockNumber, H256)| cut_at(db, target, s.0, s.1));
    canonicalizing_moves_the_range(db, number, hash, range, batch);
    assert forall|h: BlockNumber| (#[trigger] list_of(db2, h)) is Ok by {
        lemma_list_after(db, target, p, h);
        lemma_known(p.lists, h);
        assert(list_of(db, h) is Ok);
        if !p.heights.contains(h) && known(p.lists, h) {
            assert(list_ok(db, p.lists[place(p.lists, h)], cut));
            read_entries_are_storable(db, h, hash, hash);
            hashes_read_back(at(p.lists, h));
        } else {
            same_values_read_the_same(db2, db, h, hash, hash);
        }
    }
    assert forall|b: H256| (#[trigger] block_of(db2, b)) is Ok by {
        canonicalizing_prunes_blocks(db, number, hash, range, batch, b);
        assert(block_of(db, b) is Ok);
    }
    assert forall|c: CandidateHash| (#[trigger] candidate_of(db2, c)) is Ok by {
        canonicalizing_releases_candidates(db, number, hash, range, batch, c);
        assert(candidate_of(db, c) is Ok);
    }
}

/// After a canonicalization, canonicalizing a block that is not above it does nothing.
pub proof fn canonicalizing_again_does_nothing(
    db: Db,
    number: BlockNumber,
    hash: H256,
    batch: Batch,
    number2: BlockNumber,
    hash2: H256,
)
    requires
        canonicalize_plan(db, number, hash).result == Ok::<Option<Batch>, Failure>(Some(batch)),
        number2 <= number,
    ensures
        canonicalize_plan(after_writes(db, batch), number2, hash2).result == Ok::<
            Option<Batch>,
            Failure,
        >(None),
{
    let (range, _) = lemma_some_account(db, number, hash, batch);
    canonicalizing_moves_the_range(db, number, hash, range, batch);
}

/// Canonicalizing does nothing if nothing is stored, or if the stored range begins above the
/// block.
pub proof fn canonicalizing_below_the_range_does_nothing(db: Db, number: BlockNumber, hash: H256)
    requires
        range_of(db) matches Ok(range) && (range matches Some(range) ==> range.0 > number),
    ensures
        canonicalize_plan(db, number, hash).result == Ok::<Option<Batch>, Failure>(None),
{
}

} // verus!
