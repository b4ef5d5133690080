//! What the writes of a canonicalization look like.
use crate::canonicalize_laws::{lemma_deleted, lemma_inserted, lemma_some_account};
use crate::keys::{candidate_key, height_key, keys_differ, range_key};
use crate::operation::done;
use crate::pruning::{
    branches, canonicalize_plan, conclude, descend, known, place, pruning_batch, release, strike,
    sweep, visit, visit_listed, Pruned, Target,
};
use crate::pruning_laws::{distinct, lemma_known};
use crate::store::{block_of, candidate_of, list_of, range_of, Batch, Db, Failure};
use crate::types::{BlockNumber, CandidateHash, CoreIndex, StoredBlockRange, H256};
use vstd::prelude::*;

verus! {

/// The account names no candidate and no list twice. The heights that are cleared are not above the
/// canonical block, and those that lose blocks are.
spec fn tidy(p: Pruned, number: BlockNumber) -> bool {
    &&& distinct(p.candidates)
    &&& distinct(p.lists)
    &&& forall|i: int| 0 <= i < p.heights.len() ==> #[trigger] p.heights[i] <= number
    &&& forall|i: int| 0 <= i < p.lists.len() ==> (#[trigger] p.lists[i]).0 > number
}

proof fn lemma_tidy_release(
    db: Db,
    b: H256,
    candidates: Seq<(CoreIndex, CandidateHash)>,
    p: Pruned,
    number: BlockNumber,
)
    requires
        tidy(p, number),
        release(db, b, candidates, p).result is Ok,
    ensures
        tidy(release(db, b, candidates, p).value(), number),
    decreases candidates.len(),
{
    if candidates.len() > 0 {
        let c = candidates[0].1;
        let rest = candidates.skip(1);
        lemma_known(p.candidates, c);
        if known(p.candidates, c) {
            let q = p.release_again(c, b);
            let k = place(p.candidates, c);
            assert forall|i: int, j: int| 0 <= i < j < q.candidates.len() implies (
            #[trigger] q.candidates[i]).0 != (#[trigger] q.candidates[j]).0 by {
                assert(p.candidates[i].0 != p.candidates[j].0);
            }
            assert(tidy(q, number));
            lemma_tidy_release(db, b, rest, q, number);
        } else if let Ok(Some(entry)) = candidate_of(db, c) {
            let q = p.release_new(c, entry, b);
            assert forall|i: int, j: int| 0 <= i < j < q.candidates.len() implies (
            #[trigger] q.candidates[i]).0 != (#[trigger] q.candidates[j]).0 by {
                if j < p.candidates.len() {
                    assert(p.candidates[i].0 != p.candidates[j].0);
                } else {
                    assert(p.candidates[i].0 != c);
                }
            }
            assert(tidy(q, number));
            lemma_tidy_release(db, b, rest, q, number);
        } else {
            lemma_tidy_release(db, b, rest, p, number);
        }
    }
}

proof fn lemma_tidy_visit(db: Db, b: H256, p: Pruned, number: BlockNumber)
    requires
        tidy(p, number),
        visit(db, b, p).result is Ok,
    ensures
        tidy(visit(db, b, p).value().0, number),
{
    reveal(visit);
    if let Ok(Some(entry)) = block_of(db, b) {
        assert(tidy(p.drop_block(b), number));
        lemma_tidy_release(db, b, entry.candidates, p.drop_block(b), number);
    }
}

proof fn lemma_tidy_listed(
    db: Db,
    target: Target,
    height: BlockNumber,
    list: Seq<H256>,
    p: Pruned,
    left: Seq<H256>,
)
    requires
        tidy(p, target.number),
        visit_listed(db, target, height, list, p, left).result is Ok,
    ensures
        tidy(visit_listed(db, target, height, list, p, left).value().0, target.number),
    decreases list.len(),
{
    if list.len() > 0 {
        let v = visit(db, list[0], p);
        lemma_tidy_visit(db, list[0], p, target.number);
        let left2 = left + branches(target, height, list[0], v.value().1);
        lemma_tidy_listed(db, target, height, list.skip(1), v.value().0, left2);
    }
}

proof fn lemma_tidy_sweep(db: Db, target: Target, height: BlockNumber, p: Pruned)
    requires
        tidy(p, target.number),
        height <= target.number,
        sweep(db, target, height, p).result is Ok,
    ensures
        tidy(sweep(db, target, height, p).value().0, target.number),
    decreases target.number - height,
{
    let list = list_of(db, height)->Ok_0;
    let p1 = p.clear_height(height);
    assert(tidy(p1, target.number));
    let v = visit_listed(db, target, height, list, p1, Seq::empty());
    lemma_tidy_listed(db, target, height, list, p1, Seq::empty());
    if height < target.number {
        lemma_tidy_sweep(db, target, (height + 1) as BlockNumber, v.value().0);
    }
}

proof fn lemma_tidy_strike(db: Db, h: BlockNumber, b: H256, p: Pruned, number: BlockNumber)
    requires
        tidy(p, number),
        h > number,
        strike(db, h, b, p).result is Ok,
    ensures
        tidy(strike(db, h, b, p).value(), number),
{
    reveal(strike);
    let q = strike(db, h, b, p).value();
    lemma_known(p.lists, h);
    assert forall|i: int, j: int| 0 <= i < j < q.lists.len() implies (#[trigger] q.lists[i]).0 != (
    #[trigger] q.lists[j]).0 by {
        if j < p.lists.len() {
            assert(p.lists[i].0 != p.lists[j].0);
        } else {
            assert(p.lists[i].0 != h);
        }
    }
    assert forall|i: int| 0 <= i < q.lists.len() implies (#[trigger] q.lists[i]).0 > number by {
        if i < p.lists.len() {
            assert(p.lists[i].0 > number);
        }
    }
}

proof fn lemma_tidy_descend(
    db: Db,
    h: BlockNumber,
    blocks: Seq<H256>,
    p: Pruned,
    number: BlockNumber,
)
    requires
        tidy(p, number),
        h > number,
        descend(db, h, blocks, p).result is Ok,
    ensures
        tidy(descend(db, h, blocks, p).value(), number),
    decreases u32::MAX - h, blocks.len(),
{
    if blocks.len() > 0 {
        let last = blocks.last();
        let v = visit(db, last, p);
        lemma_tidy_visit(db, last, p, number);
        let s = strike(db, h, last, v.value().0);
        lemma_tidy_strike(db, h, last, v.value().0, number);
        let children = v.value().1;
        let d = if children.len() > 0 {
            descend(db, (h + 1) as BlockNumber, children, s.value())
        } else {
            done(s.value())
        };
        if children.len() > 0 {
            lemma_tidy_descend(db, (h + 1) as BlockNumber, children, s.value(), number);
        }
        lemma_tidy_descend(db, h, blocks.drop_last(), d.value(), number);
    }
}

/// A canonicalization that ends well ends with a tidy account.
proof fn lemma_tidy_end(
    db: Db,
    number: BlockNumber,
    hash: H256,
    range: StoredBlockRange,
    batch: Batch,
) -> (p: Pruned)
    requires
        range_of(db) == Ok::<_, Failure>(Some(range)),
        canonicalize_plan(db, number, hash).result == Ok::<_, Failure>(Some(batch)),
    ensures
        number <= u32::MAX - 2,
        batch == pruning_batch(Target { number, hash, top: range.1 }, p),
        tidy(p, number),
{
    reveal(conclude);
    let target = Target { number, hash, top: range.1 };
    let none = Pruned::nothing();
    assert(tidy(none, number));
    let s = sweep(db, target, range.0, none);
    lemma_tidy_sweep(db, target, range.0, none);
    let (p1, left) = s.value();
    if left.len() == 0 {
        p1
    } else {
        let above = (number + 1) as BlockNumber;
        lemma_tidy_descend(db, above, left, p1, number);
        descend(db, above, left, p1).value()
    }
}

/// The writes of a canonicalization insert the range, candidate entries, and lists at heights above
/// the canonical block, and nothing else: no block entry is ever inserted. No key is both inserted
/// and deleted.
pub proof fn canonicalizing_inserts_what_it_keeps(
    db: Db,
    number: BlockNumber,
    hash: H256,
    batch: Batch,
    i: int,
)
    requires
        canonicalize_plan(db, number, hash).result == Ok::<Option<Batch>, Failure>(Some(batch)),
        0 <= i < batch.inserted.len(),
    ensures
        ({
            let key = batch.inserted[i].0;
            ||| key == range_key()
            ||| exists|c: CandidateHash| key == #[trigger] candidate_key(c)
            ||| exists|h: BlockNumber| h > number && key == #[trigger] height_key(h)
        }),
        !batch.deleted.contains(batch.inserted[i].0),
{
    let (range, _) = lemma_some_account(db, number, hash, batch);
    let target = Target { number, hash, top: range.1 };
    let p = lemma_tidy_end(db, number, hash, range, batch);
    let item = batch.inserted[i];
    keys_differ();
    assert(batch.inserted.contains(item));
    lemma_inserted(target, p, item);
    lemma_deleted(target, p, item.0);
    if batch.deleted.contains(item.0) {
        if exists|h: BlockNumber| #[trigger] p.heights.contains(h) && item.0 == height_key(h) {
            let h = choose|h: BlockNumber| #[trigger]
                p.heights.contains(h) && item.0 == height_key(h);
            let k = choose|k: int| 0 <= k < p.heights.len() && p.heights[k] == h;
            assert(p.heights[k] <= number);
        }
    }
}

} // verus!
