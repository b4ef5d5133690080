//! What holds of the database between operations.
use crate::branch_laws::{
    children_of, lemma_descend, lemma_remaining, lemma_strike, lists_ok, reaches, remaining,
    with_strikes, Strikes,
};
use crate::canonicalize_laws::{
    candidate_left, canonicalizes, canonicalizing_adds_no_list, canonicalizing_clears_heights,
    canonicalizing_cuts_lists, canonicalizing_keeps_readable, canonicalizing_leaves_no_empty_list,
    canonicalizing_moves_the_range, canonicalizing_prunes_blocks,
    canonicalizing_releases_candidates, cut_at, cut_from, is_pruned, lemma_start, loses_a_block,
    on_cut_branch, pruning_releases,
};
use crate::keys::{block_key, candidate_key, height_key, range_key};
use crate::operation::done;
use crate::pruning::{
    canonicalize_plan, conclude, descend, orphaned, strike, sweep, visit, Pruned, Target,
};
use crate::pruning_laws::{
    account_ok, block_includes, child_of, left_behind, lemma_sweep, lemma_visit, listed_between,
    stripped,
};
use crate::sequences::lemma_contains_push;
use crate::store::{after_writes, block_of, list_of, lookup, range_of, Batch, Db};
use crate::store_laws::{
    block_at, blocks_at, candidate_at, has_block, has_candidate, ours, readable,
    same_values_read_the_same,
};
use crate::types::{BlockNumber, CandidateHash, StoredBlockRange, H256};
use vstd::prelude::*;

verus! {

/// A height lies in the stored range.
pub open spec fn in_range(db: Db, h: BlockNumber) -> bool {
    range_of(db) matches Ok(Some(range)) && range.0 <= h < range.1
}

/// The lists are in order: there are lists only within the stored range, none of them is empty, no
/// block is listed twice, and the listed blocks are those that have an entry.
pub open spec fn lists_consistent(db: Db) -> bool {
    &&& forall|h: BlockNumber|
        (#[trigger] lookup(db, height_key(h))) is Some ==> in_range(db, h) && blocks_at(
            db,
            h,
        ).len() > 0
    &&& forall|h: BlockNumber| (#[trigger] blocks_at(db, h)).no_duplicates()
    &&& forall|h: BlockNumber, g: BlockNumber, b: H256| #[trigger]
        blocks_at(db, h).contains(b) && #[trigger] blocks_at(db, g).contains(b) ==> h == g
    &&& forall|h: BlockNumber, b: H256| #[trigger]
        blocks_at(db, h).contains(b) ==> has_block(db, b)
    &&& forall|b: H256| #[trigger] has_block(db, b) ==> is_listed(db, b)
}

/// A block is listed at some height.
pub open spec fn is_listed(db: Db, b: H256) -> bool {
    exists|h: BlockNumber| #[trigger] blocks_at(db, h).contains(b)
}

/// The children of a block are one height above it, and no block is a child of two.
pub open spec fn children_consistent(db: Db) -> bool {
    &&& forall|h: BlockNumber, b: H256, x: H256| #[trigger]
        blocks_at(db, h).contains(b) && #[trigger] child_of(db, b, x) && has_block(db, x) ==> h
            < u32::MAX && blocks_at(db, (h + 1) as BlockNumber).contains(x)
    &&& forall|a: H256, b: H256, x: H256| #[trigger]
        child_of(db, a, x) && #[trigger] child_of(db, b, x) ==> a == b
}

/// A candidate has an entry, which has an approval entry for a block.
pub open spec fn is_under(db: Db, c: CandidateHash, b: H256) -> bool {
    has_candidate(db, c) && candidate_at(db, c).block_assignments.contains_key(b)
}

/// The candidates are in order: each is under the blocks that include it, and under one at least.
pub open spec fn candidates_consistent(db: Db) -> bool {
    &&& forall|c: CandidateHash, b: H256| #[trigger] is_under(db, c, b) == block_includes(db, b, c)
    &&& forall|c: CandidateHash| #[trigger] has_candidate(db, c) ==> !orphaned(candidate_at(db, c))
}

/// What holds of the database between operations.
pub open spec fn consistent(db: Db) -> bool {
    &&& readable(db)
    &&& lists_consistent(db)
    &&& children_consistent(db)
    &&& candidates_consistent(db)
}

/// What clearing needs to find everything: there are lists only within the stored range, no block
/// is listed twice at a height, every block that has an entry is listed, and the candidates are in
/// order. It holds whatever blocks are recorded; where a block that is recorded is not one height
/// above its parent, a database can be clearable without being consistent.
pub open spec fn clearable(db: Db) -> bool {
    &&& readable(db)
    &&& forall|h: BlockNumber|
        (#[trigger] lookup(db, height_key(h))) is Some ==> in_range(db, h)
    &&& forall|h: BlockNumber| (#[trigger] blocks_at(db, h)).no_duplicates()
    &&& forall|b: H256| #[trigger] has_block(db, b) ==> is_listed(db, b)
    &&& candidates_consistent(db)
}

/// A consistent database is clearable.
pub proof fn consistent_is_clearable(db: Db)
    requires
        consistent(db),
    ensures
        clearable(db),
{
}

/// A store without anything of the database is clearable.
pub proof fn without_entries_is_clearable(db: Db)
    requires
        forall|key: Seq<u8>| #[trigger] ours(key) ==> !db.contains_key(key),
    ensures
        clearable(db),
        consistent(db),
{
    assert(ours(range_key()));
    assert forall|h: BlockNumber| #[trigger] lookup(db, height_key(h)) is None by {
        assert(ours(height_key(h)));
    }
    assert forall|b: H256| #[trigger] lookup(db, block_key(b)) is None by {
        assert(ours(block_key(b)));
    }
    assert forall|c: CandidateHash| #[trigger] lookup(db, candidate_key(c)) is None by {
        assert(ours(candidate_key(c)));
    }
    assert forall|c: CandidateHash, b: H256| #[trigger] is_under(db, c, b) == block_includes(
        db,
        b,
        c,
    ) by {
        assert(!has_candidate(db, c));
        assert(!has_block(db, b));
    }
}

/// A block is listed only where there is a list.
pub(crate) proof fn lemma_listed_in_range(db: Db, h: BlockNumber, b: H256)
    requires
        clearable(db),
        blocks_at(db, h).contains(b),
    ensures
        in_range(db, h),
{
    assert(list_of(db, h) is Ok);
    if lookup(db, height_key(h)) is None {
        assert(blocks_at(db, h) =~= Seq::empty());
    }
}

/// In a consistent database no branch goes above the heights that there are.
proof fn lemma_descend_succeeds(
    db: Db,
    h: BlockNumber,
    blocks: Seq<H256>,
    p: Pruned,
    struck: Strikes,
)
    requires
        consistent(db),
        account_ok(db, p),
        lists_ok(db, p, struck),
        forall|x: H256| #[trigger]
            blocks.contains(x) && has_block(db, x) ==> blocks_at(db, h).contains(x),
    ensures
        descend(db, h, blocks, p).result is Ok,
    decreases u32::MAX - h, blocks.len(),
{
    if blocks.len() > 0 {
        let last = blocks.last();
        let fewer = blocks.drop_last();
        let children = children_of(db, last);
        assert(blocks.contains(last));
        lemma_visit(db, last, p);
        let v = visit(db, last, p);
        let p1 = v.value().0;
        assert(v.value().1 == children);
        lemma_strike(db, h, last, p1, struck);
        let p2 = strike(db, h, last, p1).value();
        let struck2 = struck.insert((h, last));
        assert(account_ok(db, p2));
        if children.len() > 0 {
            assert(has_block(db, last));
            lemma_listed_in_range(db, h, last);
            let above = (h + 1) as BlockNumber;
            assert forall|x: H256| #[trigger]
                children.contains(x) && has_block(db, x) implies blocks_at(db, above).contains(
                x,
            ) by {
                assert(child_of(db, last, x));
            }
            lemma_descend_succeeds(db, above, children, p2, struck2);
            lemma_descend(db, above, children, p2, struck2);
        }
        let d = if children.len() > 0 {
            descend(db, (h + 1) as BlockNumber, children, p2)
        } else {
            done(p2)
        };
        let struck3 = if children.len() > 0 {
            with_strikes(db, struck2, (h + 1) as BlockNumber, children)
        } else {
            struck2
        };
        assert forall|x: H256| #[trigger]
            fewer.contains(x) && has_block(db, x) implies blocks_at(db, h).contains(x) by {
            assert(blocks =~= fewer.push(last));
            lemma_contains_push(fewer, last, x);
        }
        lemma_descend_succeeds(db, h, fewer, d.value(), struck3);
    }
}

/// Canonicalizing a block of a consistent database succeeds, if the numbers of the two blocks
/// after it are in range. It has something to write exactly if the stored range begins at or
/// below the block.
pub proof fn canonicalizing_succeeds(db: Db, number: BlockNumber, hash: H256)
    requires
        consistent(db),
        number <= u32::MAX - 2,
    ensures
        canonicalize_plan(db, number, hash).result is Ok,
        canonicalize_plan(db, number, hash).value() is Some == (range_of(db) matches Ok(Some(range))
            && range.0 <= number),
{
    reveal(conclude);
    match range_of(db) {
        Ok(Some(range)) if range.0 <= number => {
            let target = Target { number, hash, top: range.1 };
            let none = Pruned::nothing();
            let nothing_struck = Set::<(BlockNumber, H256)>::empty();
            lemma_start(db);
            lemma_sweep(db, target, range.0, none);
            let (p1, left) = sweep(db, target, range.0, none).value();
            if left.len() > 0 {
                let above = (number + 1) as BlockNumber;
                assert forall|x: H256| #[trigger]
                    left.contains(x) && has_block(db, x) implies blocks_at(db, above).contains(
                    x,
                ) by {
                    assert(left_behind(db, target, blocks_at(db, number), x));
                    let b = choose|b: H256| #[trigger]
                        blocks_at(db, number).contains(b) && b != hash && child_of(db, b, x);
                }
                assert(lists_ok(db, p1, nothing_struck));
                lemma_descend_succeeds(db, above, left, p1, nothing_struck);
            }
        },
        _ => {},
    }
}

/// From a block without an entry no block with an entry is found.
proof fn lemma_reaches_from_entry(db: Db, x: H256, b: H256, steps: nat)
    requires
        reaches(db, x, b, steps),
        has_block(db, b),
    ensures
        has_block(db, x),
{
    if steps > 0 {
        let c = choose|c: H256| #[trigger]
            child_of(db, x, c) && reaches(db, c, b, (steps - 1) as nat);
    }
}

/// In a consistent database, a block that is found on the way up is listed where it is met.
proof fn lemma_reached_height(db: Db, h: BlockNumber, x: H256, b: H256, steps: nat)
    requires
        consistent(db),
        blocks_at(db, h).contains(x),
        reaches(db, x, b, steps),
        has_block(db, b),
    ensures
        h + steps <= u32::MAX,
        blocks_at(db, (h + steps) as BlockNumber).contains(b),
    decreases steps,
{
    if steps > 0 {
        let c = choose|c: H256| #[trigger]
            child_of(db, x, c) && reaches(db, c, b, (steps - 1) as nat);
        lemma_reaches_from_entry(db, c, b, (steps - 1) as nat);
        lemma_reached_height(db, (h + 1) as BlockNumber, c, b, (steps - 1) as nat);
    }
}

/// In a consistent database, a listed block goes exactly if its height is cleared or if it is cut
/// there.
proof fn lemma_pruned_where_listed(
    db: Db,
    target: Target,
    lo: BlockNumber,
    h: BlockNumber,
    b: H256,
)
    requires
        consistent(db),
        target.number < u32::MAX,
        blocks_at(db, h).contains(b),
    ensures
        is_pruned(db, target, lo, b) == (lo <= h <= target.number || cut_at(db, target, h, b)),
{
    let n = target.number;
    assert(has_block(db, b));
    if lo <= h <= n {
        assert(listed_between(db, lo, n, b));
    }
    if listed_between(db, lo, n, b) {
        let g = choose|g: BlockNumber| lo <= g <= n && #[trigger] blocks_at(db, g).contains(b);
        assert(g == h);
    }
    if on_cut_branch(db, target, b) {
        let (x, steps) = choose|x: H256, steps: nat|
            left_behind(db, target, blocks_at(db, n), x) && #[trigger] reaches(db, x, b, steps);
        lemma_reaches_from_entry(db, x, b, steps);
        let from = choose|from: H256| #[trigger]
            blocks_at(db, n).contains(from) && from != target.hash && child_of(db, from, x);
        lemma_reached_height(db, (n + 1) as BlockNumber, x, b, steps);
        assert(blocks_at(db, (n + 1 + steps) as BlockNumber).contains(b));
        assert(h == n + 1 + steps);
        assert(cut_at(db, target, h, b));
    }
    if cut_at(db, target, h, b) {
        let (x, steps) = choose|x: H256, steps: nat|
            left_behind(db, target, blocks_at(db, n), x) && h == n + 1 + steps
                && #[trigger] reaches(db, x, b, steps);
        assert(on_cut_branch(db, target, b));
    }
}

/// In a consistent database, a canonicalization takes the blocks whose entries go off their lists,
/// and no others.
pub proof fn canonicalizing_unlists_pruned_blocks(
    db: Db,
    number: BlockNumber,
    hash: H256,
    range: StoredBlockRange,
    batch: Batch,
    h: BlockNumber,
    b: H256,
)
    requires
        consistent(db),
        canonicalizes(db, number, hash, range, batch),
    ensures
        blocks_at(after_writes(db, batch), h).contains(b) == (blocks_at(db, h).contains(b)
            && !is_pruned(db, Target { number, hash, top: range.1 }, range.0, b)),
        blocks_at(after_writes(db, batch), h).no_duplicates(),
{
    let target = Target { number, hash, top: range.1 };
    let db2 = after_writes(db, batch);
    canonicalizing_moves_the_range(db, number, hash, range, batch);
    let list = blocks_at(db, h);
    assert(list.no_duplicates());
    if list.contains(b) {
        lemma_pruned_where_listed(db, target, range.0, h, b);
    }
    if range.0 <= h <= number {
        canonicalizing_clears_heights(db, number, hash, range, batch, h);
    } else {
        canonicalizing_cuts_lists(db, number, hash, range, batch, h);
        lemma_remaining(list, cut_from(db, target, h));
        assert(remaining(list, cut_from(db, target, h)).contains(b) == (list.contains(b)
            && !cut_from(db, target, h).contains(b)));
    }
}

/// A canonicalization keeps a database consistent.
pub proof fn canonicalizing_keeps_consistent(
    db: Db,
    number: BlockNumber,
    hash: H256,
    range: StoredBlockRange,
    batch: Batch,
)
    requires
        consistent(db),
        canonicalizes(db, number, hash, range, batch),
    ensures
        consistent(after_writes(db, batch)),
{
    let target = Target { number, hash, top: range.1 };
    let lo = range.0;
    let db2 = after_writes(db, batch);
    canonicalizing_keeps_readable(db, number, hash, range, batch);
    canonicalizing_moves_the_range(db, number, hash, range, batch);
    assert forall|h: BlockNumber, b: H256| #[trigger]
        blocks_at(db2, h).contains(b) == (blocks_at(db, h).contains(b) && !is_pruned(
            db,
            target,
            lo,
            b,
        )) by {
        canonicalizing_unlists_pruned_blocks(db, number, hash, range, batch, h, b);
    }
    assert forall|b: H256| #[trigger]
        has_block(db2, b) == (has_block(db, b) && !is_pruned(db, target, lo, b)) && (has_block(
            db2,
            b,
        ) ==> block_at(db2, b) == block_at(db, b)) by {
        canonicalizing_prunes_blocks(db, number, hash, range, batch, b);
    }
    assert(lists_consistent(db2)) by {
        assert forall|h: BlockNumber|
            (#[trigger] lookup(db2, height_key(h))) is Some implies in_range(db2, h) && blocks_at(
            db2,
            h,
        ).len() > 0 by {
            if lookup(db, height_key(h)) is None {
                canonicalizing_adds_no_list(db, number, hash, range, batch, h);
            }
            if lo <= h <= number {
                canonicalizing_clears_heights(db, number, hash, range, batch, h);
            }
            assert(in_range(db, h));
            if lookup(db2, height_key(h)) != lookup(db, height_key(h)) {
                canonicalizing_leaves_no_empty_list(db, number, hash, range, batch, h);
            } else {
                same_values_read_the_same(db2, db, h, hash, hash);
            }
        }
        assert forall|h: BlockNumber| (#[trigger] blocks_at(db2, h)).no_duplicates() by {
            canonicalizing_unlists_pruned_blocks(db, number, hash, range, batch, h, hash);
        }
        assert forall|h: BlockNumber, g: BlockNumber, b: H256| #[trigger]
            blocks_at(db2, h).contains(b) && #[trigger] blocks_at(db2, g).contains(b) implies h
            == g by {
            assert(blocks_at(db, h).contains(b) && blocks_at(db, g).contains(b));
        }
        assert forall|h: BlockNumber, b: H256| #[trigger] blocks_at(db2, h).contains(b) implies
            has_block(db2, b) by {
            assert(blocks_at(db, h).contains(b));
        }
        assert forall|b: H256| #[trigger] has_block(db2, b) implies is_listed(db2, b) by {
            assert(is_listed(db, b));
            let h = choose|h: BlockNumber| #[trigger] blocks_at(db, h).contains(b);
            assert(blocks_at(db2, h).contains(b));
        }
    }
    assert(children_consistent(db2)) by {
        assert forall|h: BlockNumber, b: H256, x: H256| #[trigger]
            blocks_at(db2, h).contains(b) && #[trigger] child_of(db2, b, x) && has_block(
                db2,
                x,
            ) implies h < u32::MAX && blocks_at(db2, (h + 1) as BlockNumber).contains(x) by {
            assert(blocks_at(db, h).contains(b));
            assert(has_block(db2, b));
            assert(child_of(db, b, x));
            assert(blocks_at(db, (h + 1) as BlockNumber).contains(x));
            assert(blocks_at(db2, (h + 1) as BlockNumber).contains(x));
        }
        assert forall|a: H256, b: H256, x: H256| #[trigger]
            child_of(db2, a, x) && #[trigger] child_of(db2, b, x) implies a == b by {
            assert(has_block(db2, a) && has_block(db2, b));
            assert(child_of(db, a, x) && child_of(db, b, x));
        }
    }
    assert(candidates_consistent(db2)) by {
        assert forall|c: CandidateHash, b: H256| #[trigger]
            is_under(db2, c, b) == block_includes(db2, b, c) by {
            lemma_under_after(db, number, hash, range, batch, c, b);
        }
        assert forall|c: CandidateHash| #[trigger] has_candidate(db2, c) implies !orphaned(
            candidate_at(db2, c),
        ) by {
            canonicalizing_releases_candidates(db, number, hash, range, batch, c);
            assert(has_candidate(db, c));
            if loses_a_block(db, target, lo, c) {
                assert(candidate_left(db, target, lo, c) is Some);
            }
        }
    }
}

/// A canonicalization keeps a database clearable.
pub proof fn canonicalizing_keeps_clearable(
    db: Db,
    number: BlockNumber,
    hash: H256,
    range: StoredBlockRange,
    batch: Batch,
)
    requires
        clearable(db),
        canonicalizes(db, number, hash, range, batch),
    ensures
        clearable(after_writes(db, batch)),
{
    let target = Target { number, hash, top: range.1 };
    let lo = range.0;
    let db2 = after_writes(db, batch);
    canonicalizing_keeps_readable(db, number, hash, range, batch);
    canonicalizing_moves_the_range(db, number, hash, range, batch);
    assert forall|h: BlockNumber|
        (#[trigger] lookup(db2, height_key(h))) is Some implies in_range(db2, h) by {
        if lookup(db, height_key(h)) is None {
            canonicalizing_adds_no_list(db, number, hash, range, batch, h);
        }
        if lo <= h <= number {
            canonicalizing_clears_heights(db, number, hash, range, batch, h);
        }
        assert(in_range(db, h));
    }
    assert forall|h: BlockNumber| (#[trigger] blocks_at(db2, h)).no_duplicates() by {
        if lo <= h <= number {
            canonicalizing_clears_heights(db, number, hash, range, batch, h);
        } else {
            assert(blocks_at(db, h).no_duplicates());
            canonicalizing_cuts_lists(db, number, hash, range, batch, h);
            lemma_remaining(blocks_at(db, h), cut_from(db, target, h));
        }
    }
    assert forall|b: H256| #[trigger] has_block(db2, b) implies is_listed(db2, b) by {
        canonicalizing_prunes_blocks(db, number, hash, range, batch, b);
        assert(has_block(db, b));
        assert(is_listed(db, b));
        let h = choose|h: BlockNumber| #[trigger] blocks_at(db, h).contains(b);
        if lo <= h <= number {
            assert(listed_between(db, lo, number, b));
        }
        if cut_at(db, target, h, b) {
            let (x, steps) = choose|x: H256, steps: nat|
                left_behind(db, target, blocks_at(db, number), x) && h == number + 1 + steps
                    && #[trigger] reaches(db, x, b, steps);
            assert(on_cut_branch(db, target, b));
        }
        assert(blocks_at(db, h).no_duplicates());
        canonicalizing_cuts_lists(db, number, hash, range, batch, h);
        lemma_remaining(blocks_at(db, h), cut_from(db, target, h));
        assert(blocks_at(db2, h).contains(b));
    }
    assert forall|c: CandidateHash, b: H256| #[trigger]
        is_under(db2, c, b) == block_includes(db2, b, c) by {
        lemma_under_after(db, number, hash, range, batch, c, b);
    }
    assert forall|c: CandidateHash| #[trigger] has_candidate(db2, c) implies !orphaned(
        candidate_at(db2, c),
    ) by {
        canonicalizing_releases_candidates(db, number, hash, range, batch, c);
        assert(has_candidate(db, c));
        if loses_a_block(db, target, lo, c) {
            assert(candidate_left(db, target, lo, c) is Some);
        }
    }
}

/// A canonicalization keeps the candidates under the blocks that include them.
proof fn lemma_under_after(
    db: Db,
    number: BlockNumber,
    hash: H256,
    range: StoredBlockRange,
    batch: Batch,
    c: CandidateHash,
    b: H256,
)
    requires
        candidates_consistent(db),
        canonicalizes(db, number, hash, range, batch),
    ensures
        is_under(after_writes(db, batch), c, b) == block_includes(after_writes(db, batch), b, c),
{
    let target = Target { number, hash, top: range.1 };
    let lo = range.0;
    let db2 = after_writes(db, batch);
    let released = pruning_releases(db, target, lo);
    canonicalizing_prunes_blocks(db, number, hash, range, batch, b);
    canonicalizing_releases_candidates(db, number, hash, range, batch, c);
    assert(is_under(db, c, b) == block_includes(db, b, c));
    assert(block_includes(db2, b, c) == (block_includes(db, b, c) && !is_pruned(
        db,
        target,
        lo,
        b,
    )));
    if has_candidate(db, c) && loses_a_block(db, target, lo, c) {
        let entry = stripped(db, c, released);
        assert(entry.block_assignments.contains_key(b) == (is_under(db, c, b)
            && !released.contains((b, c))));
    } else {
        if is_pruned(db, target, lo, b) && block_includes(db, b, c) {
            assert(loses_a_block(db, target, lo, c));
        }
    }
}

/// A block that is found from another one is the child of one that is found one step earlier.
proof fn lemma_reaches_last(db: Db, x: H256, b: H256, steps: nat) -> (parent: H256)
    requires
        reaches(db, x, b, steps),
        steps > 0,
    ensures
        reaches(db, x, parent, (steps - 1) as nat),
        child_of(db, parent, b),
    decreases steps,
{
    let c = choose|c: H256| #[trigger]
        child_of(db, x, c) && reaches(db, c, b, (steps - 1) as nat);
    if steps == 1 {
        assert(c == b);
        x
    } else {
        let parent = lemma_reaches_last(db, c, b, (steps - 1) as nat);
        assert(reaches(db, c, parent, ((steps - 1) as nat - 1) as nat));
        assert(reaches(db, x, parent, (steps - 1) as nat));
        parent
    }
}

/// Where no block is a child of two, a block is found from one block only, in as many steps.
proof fn lemma_one_ancestor(db: Db, x: H256, y: H256, b: H256, steps: nat)
    requires
        children_consistent(db),
        reaches(db, x, b, steps),
        reaches(db, y, b, steps),
    ensures
        x == y,
    decreases steps,
{
    if steps > 0 {
        let p = lemma_reaches_last(db, x, b, steps);
        let q = lemma_reaches_last(db, y, b, steps);
        assert(p == q);
        lemma_one_ancestor(db, x, y, p, (steps - 1) as nat);
    }
}

/// A canonicalization keeps the entries of the canonical block's descendants.
pub proof fn canonicalizing_keeps_the_canonical_branch(
    db: Db,
    number: BlockNumber,
    hash: H256,
    range: StoredBlockRange,
    batch: Batch,
    b: H256,
    steps: nat,
)
    requires
        consistent(db),
        canonicalizes(db, number, hash, range, batch),
        blocks_at(db, number).contains(hash),
        reaches(db, hash, b, steps),
        steps > 0,
    ensures
        block_of(after_writes(db, batch), b) == block_of(db, b),
{
    let target = Target { number, hash, top: range.1 };
    canonicalizing_prunes_blocks(db, number, hash, range, batch, b);
    canonicalizing_moves_the_range(db, number, hash, range, batch);
    if is_pruned(db, target, range.0, b) {
        lemma_reached_height(db, number, hash, b, steps);
        let h = (number + steps) as BlockNumber;
        lemma_pruned_where_listed(db, target, range.0, h, b);
        let (x, fewer) = choose|x: H256, fewer: nat|
            left_behind(db, target, blocks_at(db, number), x) && h == number + 1 + fewer
                && #[trigger] reaches(db, x, b, fewer);
        let from = choose|from: H256| #[trigger]
            blocks_at(db, number).contains(from) && from != hash && child_of(db, from, x);
        assert(fewer == (steps - 1) as nat);
        assert(reaches(db, from, b, steps));
        lemma_one_ancestor(db, from, hash, b, steps);
    }
}

} // verus!
