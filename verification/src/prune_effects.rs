//! What canonicalizing a block changes, entry by entry.
use crate::branch_laws::{lemma_remaining, reaches, remaining};
use crate::canonicalize_laws::{
    canonicalizes, canonicalizing_cuts_lists, canonicalizing_prunes_blocks,
    canonicalizing_releases_candidates, cut_at, cut_from, is_pruned, lemma_start, loses_a_block,
    on_cut_branch, pruning_releases,
};
use crate::operation::done;
use crate::pruning::{
    branches, canonicalize_plan, conclude, descend, known, orphaned, release, strike, sweep, visit,
    visit_listed, Pruned, Target,
};
use crate::pruning_laws::{
    block_includes, child_of, left_behind, lemma_sweep, listed_between, stripped,
};
use crate::store::{after_writes, block_of, candidate_of, list_of, range_of, Batch, Db, Failure};
use crate::store_laws::{block_at, blocks_at, readable};
use crate::types::{
    Approval, Block, BlockNumber, Candidate, CandidateHash, CoreIndex, StoredBlockRange, H256,
};
use vstd::prelude::*;

verus! {

/// Each block of a chain but the last has an entry that names the next one as a child.
pub open spec fn is_chain(db: Db, chain: Seq<H256>) -> bool {
    forall|i: int|
        0 <= i < chain.len() - 1 ==> (block_of(db, #[trigger] chain[i]) matches Ok(Some(entry))
            && entry.children.contains(chain[i + 1]))
}

/// A chain of two blocks or more begins with a block that is listed at a height and that is not the
/// canonical one.
pub open spec fn competes(db: Db, number: BlockNumber, hash: H256, chain: Seq<H256>) -> bool {
    &&& chain.len() >= 2
    &&& is_chain(db, chain)
    &&& chain[0] != hash
    &&& list_of(db, number) matches Ok(list) && list.contains(chain[0])
}

/// A block is listed at a height.
pub open spec fn lists(db: Db, h: BlockNumber, b: H256) -> bool {
    list_of(db, h) matches Ok(list) && list.contains(b)
}

proof fn lemma_chain(db: Db, x: H256, b: H256, steps: nat) -> (chain: Seq<H256>)
    requires
        reaches(db, x, b, steps),
    ensures
        chain.len() == steps + 1,
        chain[0] == x,
        chain.last() == b,
        is_chain(db, chain),
    decreases steps,
{
    if steps == 0 {
        seq![x]
    } else {
        let c = choose|c: H256| #[trigger]
            child_of(db, x, c) && reaches(db, c, b, (steps - 1) as nat);
        let rest = lemma_chain(db, c, b, (steps - 1) as nat);
        let chain = seq![x] + rest;
        assert forall|i: int| 0 <= i < chain.len() - 1 implies (block_of(
            db,
            #[trigger] chain[i],
        ) matches Ok(Some(entry)) && entry.children.contains(chain[i + 1])) by {
            if i > 0 {
                assert(chain[i] == rest[i - 1]);
                assert(chain[i + 1] == rest[i]);
            } else {
                assert(chain[1] == rest[0]);
            }
        }
        chain
    }
}

proof fn lemma_chain_reaches(db: Db, chain: Seq<H256>)
    requires
        is_chain(db, chain),
        chain.len() > 0,
    ensures
        reaches(db, chain[0], chain.last(), (chain.len() - 1) as nat),
    decreases chain.len(),
{
    if chain.len() > 1 {
        let rest = chain.skip(1);
        assert forall|i: int| 0 <= i < rest.len() - 1 implies (block_of(
            db,
            #[trigger] rest[i],
        ) matches Ok(Some(entry)) && entry.children.contains(rest[i + 1])) by {
            assert(rest[i] == chain[i + 1]);
            assert(rest[i + 1] == chain[i + 1 + 1]);
        }
        lemma_chain_reaches(db, rest);
        assert(rest.last() == chain.last());
        assert(rest[0] == chain[1]);
        assert(child_of(db, chain[0], rest[0]));
    }
}

/// What descends from a competing block, by chains.
proof fn lemma_cut_by_chains(db: Db, target: Target, h: BlockNumber, b: H256)
    requires
        readable(db),
    ensures
        on_cut_branch(db, target, b) == exists|chain: Seq<H256>|
            (#[trigger] competes(db, target.number, target.hash, chain)) && chain.last() == b,
        cut_at(db, target, h, b) == exists|chain: Seq<H256>|
            (#[trigger] competes(db, target.number, target.hash, chain)) && chain.last() == b && h
                == target.number + chain.len() - 1,
{
    let list = blocks_at(db, target.number);
    assert(list_of(db, target.number) is Ok);
    if on_cut_branch(db, target, b) {
        let (x, steps) = choose|x: H256, steps: nat|
            left_behind(db, target, list, x) && #[trigger] reaches(db, x, b, steps);
        let chain = lemma_competing_chain(db, target, x, b, steps);
        assert(competes(db, target.number, target.hash, chain));
    }
    if cut_at(db, target, h, b) {
        let (x, steps) = choose|x: H256, steps: nat|
            left_behind(db, target, list, x) && h == target.number + 1 + steps
                && #[trigger] reaches(db, x, b, steps);
        let chain = lemma_competing_chain(db, target, x, b, steps);
        assert(competes(db, target.number, target.hash, chain));
        assert(h == target.number + chain.len() - 1);
    }
    assert forall|chain: Seq<H256>| #[trigger]
        competes(db, target.number, target.hash, chain) && chain.last() == b implies on_cut_branch(
        db,
        target,
        b,
    ) && (h == target.number + chain.len() - 1 ==> cut_at(db, target, h, b)) by {
        let rest = chain.skip(1);
        assert forall|i: int| 0 <= i < rest.len() - 1 implies (block_of(
            db,
            #[trigger] rest[i],
        ) matches Ok(Some(entry)) && entry.children.contains(rest[i + 1])) by {
            assert(rest[i] == chain[i + 1]);
            assert(rest[i + 1] == chain[i + 1 + 1]);
        }
        lemma_chain_reaches(db, rest);
        assert(rest.last() == b);
        assert(rest[0] == chain[1]);
        assert(child_of(db, chain[0], rest[0]));
        assert(left_behind(db, target, list, rest[0]));
        assert(reaches(db, rest[0], b, (rest.len() - 1) as nat));
    }
}

proof fn lemma_competing_chain(db: Db, target: Target, x: H256, b: H256, steps: nat) -> (chain: Seq<
    H256,
>)
    requires
        readable(db),
        left_behind(db, target, blocks_at(db, target.number), x),
        reaches(db, x, b, steps),
    ensures
        competes(db, target.number, target.hash, chain),
        chain.last() == b,
        chain.len() == steps + 2,
{
    assert(list_of(db, target.number) is Ok);
    let from = choose|from: H256| #[trigger]
        blocks_at(db, target.number).contains(from) && from != target.hash && child_of(
            db,
            from,
            x,
        );
    let rest = lemma_chain(db, x, b, steps);
    let chain = seq![from] + rest;
    assert forall|i: int| 0 <= i < chain.len() - 1 implies (block_of(
        db,
        #[trigger] chain[i],
    ) matches Ok(Some(entry)) && entry.children.contains(chain[i + 1])) by {
        if i > 0 {
            assert(chain[i] == rest[i - 1]);
            assert(chain[i + 1] == rest[i]);
        } else {
            assert(chain[1] == rest[0]);
        }
    }
    chain
}

/// A block loses its entry exactly if it is listed at a height from the beginning of the range up
/// to the canonical block's, or if it ends a chain that begins with a block competing with the
/// canonical one. Every other block keeps its entry as it is.
pub proof fn canonicalizing_removes_exactly(
    db: Db,
    number: BlockNumber,
    hash: H256,
    range: StoredBlockRange,
    batch: Batch,
    b: H256,
)
    requires
        canonicalizes(db, number, hash, range, batch),
    ensures
        forall|h: BlockNumber|
            range.0 <= h <= number && #[trigger] lists(db, h, b) ==> block_of(
                after_writes(db, batch),
                b,
            ) == Ok::<Option<Block>, Failure>(None),
        forall|chain: Seq<H256>| #[trigger]
            competes(db, number, hash, chain) && chain.last() == b ==> block_of(
                after_writes(db, batch),
                b,
            ) == Ok::<Option<Block>, Failure>(None),
        (forall|h: BlockNumber| range.0 <= h <= number ==> !#[trigger] lists(db, h, b)) && (forall|
            chain: Seq<H256>,
        | #[trigger]
            competes(db, number, hash, chain) ==> chain.last() != b) ==> block_of(
            after_writes(db, batch),
            b,
        ) == block_of(db, b),
{
    let target = Target { number, hash, top: range.1 };
    canonicalizing_prunes_blocks(db, number, hash, range, batch, b);
    lemma_cut_by_chains(db, target, number, b);
    assert(block_of(db, b) is Ok);
    if listed_between(db, range.0, number, b) {
        let h = choose|h: BlockNumber|
            range.0 <= h <= number && #[trigger] blocks_at(db, h).contains(b);
        assert(list_of(db, h) is Ok);
        assert(lists(db, h, b));
    }
    assert forall|h: BlockNumber|
        range.0 <= h <= number && #[trigger] lists(db, h, b) implies listed_between(
        db,
        range.0,
        number,
        b,
    ) by {
        assert(blocks_at(db, h).contains(b));
    }
    assert forall|chain: Seq<H256>| #[trigger]
        competes(db, number, hash, chain) && chain.last() == b implies on_cut_branch(
        db,
        target,
        b,
    ) by {
        assert(competes(db, target.number, target.hash, chain));
    }
}

/// What remains of a list is in the order of the list.
proof fn lemma_remaining_order(list: Seq<H256>, gone: Set<H256>, i: int, j: int) -> (r: (int, int))
    requires
        0 <= i < j < remaining(list, gone).len(),
    ensures
        0 <= r.0 < r.1 < list.len(),
        list[r.0] == remaining(list, gone)[i],
        list[r.1] == remaining(list, gone)[j],
    decreases list.len(),
{
    let rest = list.skip(1);
    let left = remaining(rest, gone);
    if gone.contains(list[0]) {
        let (a, b) = lemma_remaining_order(rest, gone, i, j);
        (a + 1, b + 1)
    } else if i > 0 {
        let (a, b) = lemma_remaining_order(rest, gone, i - 1, j - 1);
        (a + 1, b + 1)
    } else {
        lemma_remaining(rest, gone);
        let x = left[j - 1];
        assert(left.contains(x));
        let b = choose|b: int| 0 <= b < rest.len() && rest[b] == x;
        (0, b + 1)
    }
}

/// At a height that is not cleared, the list loses the blocks that end a chain of so many blocks
/// that it leads up to that height from a block competing with the canonical one. The others stay,
/// in their order.
pub proof fn canonicalizing_unlists_exactly(
    db: Db,
    number: BlockNumber,
    hash: H256,
    range: StoredBlockRange,
    batch: Batch,
    h: BlockNumber,
    before: Seq<H256>,
)
    requires
        canonicalizes(db, number, hash, range, batch),
        h < range.0 || number < h,
        list_of(db, h) == Ok::<Seq<H256>, Failure>(before),
        before.no_duplicates(),
    ensures
        list_of(after_writes(db, batch), h) matches Ok(after) && {
            &&& after.no_duplicates()
            &&& forall|b: H256| #[trigger]
                after.contains(b) == (before.contains(b) && !exists|chain: Seq<H256>|
                    (#[trigger] competes(db, number, hash, chain)) && chain.last() == b && h
                        == number + chain.len() - 1)
            &&& forall|i: int, j: int, a: int, b: int|
                0 <= i < j < after.len() && 0 <= a < before.len() && 0 <= b < before.len()
                    && #[trigger] after[i] == #[trigger] before[a] && #[trigger] after[j]
                    == #[trigger] before[b] ==> a < b
        },
{
    let target = Target { number, hash, top: range.1 };
    let gone = cut_from(db, target, h);
    canonicalizing_cuts_lists(db, number, hash, range, batch, h);
    lemma_remaining(before, gone);
    let after = remaining(before, gone);
    assert forall|b: H256| #[trigger]
        after.contains(b) == (before.contains(b) && !exists|chain: Seq<H256>|
            (#[trigger] competes(db, number, hash, chain)) && chain.last() == b && h == number
                + chain.len() - 1) by {
        lemma_cut_by_chains(db, target, h, b);
    }
    assert forall|i: int, j: int, a: int, b: int|
        0 <= i < j < after.len() && 0 <= a < before.len() && 0 <= b < before.len()
            && #[trigger] after[i] == #[trigger] before[a] && #[trigger] after[j]
            == #[trigger] before[b] implies a < b by {
        let (c, d) = lemma_remaining_order(before, gone, i, j);
        assert(before[c] == before[a]);
        assert(before[d] == before[b]);
    }
}

/// A candidate keeps its receipt, its session and the approvals that were given to it, as long as
/// it has an entry. It is taken from under exactly those of the blocks that include it that lose
/// their entry; what its entry says of the others stays. It has an entry as long as it is under
/// some block.
pub proof fn canonicalizing_keeps_what_is_known_of_a_candidate(
    db: Db,
    number: BlockNumber,
    hash: H256,
    range: StoredBlockRange,
    batch: Batch,
    c: CandidateHash,
    before: Candidate,
)
    requires
        canonicalizes(db, number, hash, range, batch),
        candidate_of(db, c) == Ok::<Option<Candidate>, Failure>(Some(before)),
    ensures
        (forall|b: H256| !(#[trigger] leaves(db, after_writes(db, batch), b, c)))
            ==> candidate_of(after_writes(db, batch), c) == candidate_of(db, c),
        candidate_of(after_writes(db, batch), c) is Ok,
        candidate_of(after_writes(db, batch), c) matches Ok(Some(after)) ==> {
            &&& after.candidate == before.candidate
            &&& after.session == before.session
            &&& after.approvals.count == before.approvals.count
            &&& after.approvals.bytes == before.approvals.bytes
            &&& forall|b: H256| #[trigger]
                after.block_assignments.contains_key(b) ==> after.block_assignments[b]
                    == before.block_assignments[b]
        },
        candidate_of(after_writes(db, batch), c) matches Ok(Some(after)) ==> forall|b: H256|
            #[trigger] after.block_assignments.contains_key(b) == (
            before.block_assignments.contains_key(b) && !leaves(
                db,
                after_writes(db, batch),
                b,
                c,
            )),
        candidate_of(after_writes(db, batch), c) matches Ok(Some(after)) ==> forall|b: H256|
            #[trigger] leaves(db, after_writes(db, batch), b, c) ==> after.block_assignments
                != Map::<H256, Approval>::empty(),
        candidate_of(after_writes(db, batch), c) matches Ok(None) ==> forall|b: H256| #[trigger]
            before.block_assignments.contains_key(b) ==> leaves(
                db,
                after_writes(db, batch),
                b,
                c,
            ),
{
    let target = Target { number, hash, top: range.1 };
    let lo = range.0;
    let db2 = after_writes(db, batch);
    let released = pruning_releases(db, target, lo);
    canonicalizing_releases_candidates(db, number, hash, range, batch, c);
    assert forall|b: H256| #[trigger] leaves(db, db2, b, c) == released.contains((b, c)) by {
        canonicalizing_prunes_blocks(db, number, hash, range, batch, b);
        assert(block_of(db, b) is Ok);
        if let Ok(Some(entry)) = block_of(db, b) {
            assert(block_at(db, b) == entry);
        }
    }
    let entry = stripped(db, c, released);
    assert(forall|b: H256| #[trigger]
        entry.block_assignments.contains_key(b) == (before.block_assignments.contains_key(b)
            && !released.contains((b, c))));
    if loses_a_block(db, target, lo, c) {
        let gone = choose|b: H256| #[trigger]
            is_pruned(db, target, lo, b) && block_includes(db, b, c);
        assert(released.contains((gone, c)));
        assert(leaves(db, db2, gone, c));
        if orphaned(entry) {
            assert forall|b: H256| #[trigger] before.block_assignments.contains_key(b) implies
                leaves(db, db2, b, c) by {
                assert(!entry.block_assignments.contains_key(b));
            }
        } else {
            assert(candidate_of(db2, c) == Ok::<Option<Candidate>, Failure>(Some(entry)));
        }
    } else {
        assert(candidate_of(db2, c) == Ok::<Option<Candidate>, Failure>(Some(before)));
        assert forall|b: H256| !(#[trigger] leaves(db, db2, b, c)) by {
            if released.contains((b, c)) {
                assert(is_pruned(db, target, lo, b));
            }
        }
    }
}

/// A block that includes a candidate has an entry in the first store, and none in the second.
pub open spec fn leaves(db: Db, db2: Db, b: H256, c: CandidateHash) -> bool {
    &&& block_of(db, b) matches Ok(Some(entry)) && exists|i: int|
        0 <= i < entry.candidates.len() && (#[trigger] entry.candidates[i]).1 == c
    &&& block_of(db2, b) matches Ok(None)
}

/// A candidate without an entry gets none.
pub proof fn canonicalizing_makes_no_candidate(
    db: Db,
    number: BlockNumber,
    hash: H256,
    range: StoredBlockRange,
    batch: Batch,
    c: CandidateHash,
)
    requires
        canonicalizes(db, number, hash, range, batch),
        candidate_of(db, c) == Ok::<Option<Candidate>, Failure>(None),
    ensures
        candidate_of(after_writes(db, batch), c) == Ok::<Option<Candidate>, Failure>(None),
{
    canonicalizing_releases_candidates(db, number, hash, range, batch, c);
}

/// Canonicalizing has nothing to write exactly if there is no stored range, or if it begins above
/// the block.
pub proof fn canonicalizing_is_idle_exactly_below_the_range(
    db: Db,
    number: BlockNumber,
    hash: H256,
)
    ensures
        canonicalize_plan(db, number, hash).result == Ok::<Option<Batch>, Failure>(None) <==> (
        range_of(db) matches Ok(range) && (range matches Some(range) ==> number < range.0)),
{
    reveal(conclude);
}

proof fn lemma_release_ends_well(
    db: Db,
    b: H256,
    candidates: Seq<(CoreIndex, CandidateHash)>,
    p: Pruned,
)
    requires
        readable(db),
    ensures
        release(db, b, candidates, p).result is Ok,
    decreases candidates.len(),
{
    if candidates.len() > 0 {
        let c = candidates[0].1;
        let rest = candidates.skip(1);
        assert(candidate_of(db, c) is Ok);
        if known(p.candidates, c) {
            lemma_release_ends_well(db, b, rest, p.release_again(c, b));
        } else if let Ok(Some(entry)) = candidate_of(db, c) {
            lemma_release_ends_well(db, b, rest, p.release_new(c, entry, b));
        } else {
            lemma_release_ends_well(db, b, rest, p);
        }
    }
}

proof fn lemma_visit_ends_well(db: Db, b: H256, p: Pruned)
    requires
        readable(db),
    ensures
        visit(db, b, p).result is Ok,
{
    reveal(visit);
    assert(block_of(db, b) is Ok);
    if let Ok(Some(entry)) = block_of(db, b) {
        lemma_release_ends_well(db, b, entry.candidates, p.drop_block(b));
    }
}

proof fn lemma_listed_ends_well(
    db: Db,
    target: Target,
    height: BlockNumber,
    list: Seq<H256>,
    p: Pruned,
    left: Seq<H256>,
)
    requires
        readable(db),
    ensures
        visit_listed(db, target, height, list, p, left).result is Ok,
    decreases list.len(),
{
    if list.len() > 0 {
        let v = visit(db, list[0], p);
        lemma_visit_ends_well(db, list[0], p);
        let left2 = left + branches(target, height, list[0], v.value().1);
        lemma_listed_ends_well(db, target, height, list.skip(1), v.value().0, left2);
    }
}

proof fn lemma_sweep_ends_well(db: Db, target: Target, height: BlockNumber, p: Pruned)
    requires
        readable(db),
    ensures
        sweep(db, target, height, p).result is Ok,
    decreases target.number - height,
{
    assert(list_of(db, height) is Ok);
    let list = list_of(db, height)->Ok_0;
    let p1 = p.clear_height(height);
    let v = visit_listed(db, target, height, list, p1, Seq::empty());
    lemma_listed_ends_well(db, target, height, list, p1, Seq::empty());
    if height < target.number {
        lemma_sweep_ends_well(db, target, (height + 1) as BlockNumber, v.value().0);
    }
}

/// Branches cannot be cut only where one of the given blocks leads above the last number.
proof fn lemma_descend_overflows(db: Db, h: BlockNumber, blocks: Seq<H256>, p: Pruned)
    requires
        readable(db),
    ensures
        descend(db, h, blocks, p).result matches Err(e) ==> e is Overflow && exists|
            x: H256,
            y: H256,
            steps: nat,
        |
            blocks.contains(x) && #[trigger] reaches(db, x, y, steps) && h + steps > u32::MAX,
    decreases u32::MAX - h, blocks.len(),
{
    if blocks.len() > 0 && descend(db, h, blocks, p).result is Err {
        let last = blocks.last();
        let fewer = blocks.drop_last();
        let v = visit(db, last, p);
        lemma_visit_ends_well(db, last, p);
        let s = strike(db, h, last, v.value().0);
        assert(s.result is Ok) by {
            reveal(strike);
            assert(list_of(db, h) is Ok);
        }
        let children = v.value().1;
        assert(forall|c: H256| children.contains(c) ==> #[trigger] child_of(db, last, c)) by {
            reveal(visit);
            assert(block_of(db, last) is Ok);
        }
        assert(blocks.contains(last));
        if children.len() > 0 && h == u32::MAX {
            let c = children[0];
            assert(children.contains(c));
            assert(child_of(db, last, c));
            assert(reaches(db, c, c, (1nat - 1) as nat));
            assert(reaches(db, last, c, 1));
        } else {
            let d = if children.len() > 0 {
                descend(db, (h + 1) as BlockNumber, children, s.value())
            } else {
                done(s.value())
            };
            if d.result is Err {
                lemma_descend_overflows(db, (h + 1) as BlockNumber, children, s.value());
                let (c, y, steps) = choose|c: H256, y: H256, steps: nat|
                    children.contains(c) && #[trigger] reaches(db, c, y, steps) && (h + 1) + steps
                        > u32::MAX;
                assert(child_of(db, last, c));
                assert(reaches(db, c, y, ((steps + 1) - 1) as nat));
                assert(reaches(db, last, y, steps + 1));
            } else {
                lemma_descend_overflows(db, h, fewer, d.value());
                let (x, y, steps) = choose|x: H256, y: H256, steps: nat|
                    fewer.contains(x) && #[trigger] reaches(db, x, y, steps) && h + steps
                        > u32::MAX;
                let i = choose|i: int| 0 <= i < fewer.len() && fewer[i] == x;
                assert(blocks[i] == x);
                assert(blocks.contains(x));
            }
        }
    }
}

/// Canonicalizing a block of a database that can be read fails only where a block number leaves its
/// range: because two blocks do not fit behind the canonical one, or because a chain leads above
/// the last number.
pub proof fn canonicalizing_fails_only_by_overflow(db: Db, number: BlockNumber, hash: H256)
    requires
        readable(db),
        canonicalize_plan(db, number, hash).result is Err,
    ensures
        canonicalize_plan(db, number, hash).result == Err::<Option<Batch>, Failure>(
            Failure::Overflow,
        ),
        range_of(db) matches Ok(Some(range)) && range.0 <= number,
        number > u32::MAX - 2 || exists|chain: Seq<H256>|
            (#[trigger] competes(db, number, hash, chain)) && number + chain.len() - 1 > u32::MAX,
{
    reveal(conclude);
    let range = range_of(db)->Ok_0->Some_0;
    let target = Target { number, hash, top: range.1 };
    let s = sweep(db, target, range.0, Pruned::nothing());
    lemma_sweep_ends_well(db, target, range.0, Pruned::nothing());
    let (p, left) = s.value();
    if left.len() > 0 && number < u32::MAX {
        let above = (number + 1) as BlockNumber;
        lemma_descend_overflows(db, above, left, p);
        if descend(db, above, left, p).result is Err {
            let (x, y, steps) = choose|x: H256, y: H256, steps: nat|
                left.contains(x) && #[trigger] reaches(db, x, y, steps) && above + steps > u32::MAX;
            lemma_start(db);
            lemma_sweep(db, target, range.0, Pruned::nothing());
            let chain = lemma_competing_chain(db, target, x, y, steps);
            assert(competes(db, number, hash, chain));
        }
    }
}

} // verus!
