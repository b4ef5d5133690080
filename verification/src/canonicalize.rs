//! Canonicalizing a block, one read at a time.
use crate::hashes::hash_eq;
use crate::keys::{
    block_entry_key, block_key, blocks_at_height_key, candidate_entry_key, candidate_key,
    height_key, range_key, stored_blocks_key,
};
use crate::operation::{
    ask, done, fail, follow, lemma_follow_ask, lemma_follow_done, lemma_follow_follow, Operation,
    Plan, Step, Traced, Waiting,
};
use crate::pruning::{
    branches, canonicalize_plan, conclude, cut_branches, descend, known, release, strike, sweep,
    visit, visit_listed, Pruned, Target,
};
use crate::store::{
    candidate_of, list_of, load_block_entry, load_blocks_at_height, load_candidate_entry,
    load_stored_blocks, lookup, reply_view, Db, Error, Failure,
};
use crate::tally::Tally;
use crate::types::{BlockNumber, CandidateHash, CoreIndex, H256};
use vstd::prelude::*;
use vstd::slice::slice_to_vec;

verus! {

/// Where a visited block was met, and what is to be visited after it.
pub enum Place {
    /// On the list at a height; the blocks from `next` on are still to be visited. `left` holds
    /// the branches that are left behind.
    Listed { height: BlockNumber, list: Vec<H256>, next: usize, left: Vec<H256> },
    /// On a branch that is cut; `frontier` holds the blocks that are still to be visited, with
    /// their heights, the next one last.
    Branch { height: BlockNumber, frontier: Vec<(BlockNumber, H256)> },
}

/// What a canonicalization waits for.
pub enum Stage {
    /// The stored range.
    Range,
    /// The list at a height that is cleared.
    Height { height: BlockNumber },
    /// The entry of a block.
    Block { block: H256, place: Place },
    /// The entry of the candidate at `next` among those that a block includes.
    Candidate {
        block: H256,
        candidates: Vec<(CoreIndex, CandidateHash)>,
        next: usize,
        children: Vec<H256>,
        place: Place,
    },
    /// The list at the height of a block on a branch that is cut.
    List { height: BlockNumber, block: H256, frontier: Vec<(BlockNumber, H256)> },
}

/// A canonicalization that waits for a value.
pub struct Canonicalize {
    target: Target,
    tally: Tally,
    stage: Stage,
}

/// What is done from a height on.
spec fn from_height(db: Db, target: Target, height: BlockNumber, p: Pruned) -> Plan {
    let s = sweep(db, target, height, p);
    follow(s, cut_branches(db, target, s.value().0, s.value().1))
}

/// What is done from some of the blocks listed at a height on.
spec fn from_listed(
    db: Db,
    target: Target,
    height: BlockNumber,
    list: Seq<H256>,
    p: Pruned,
    left: Seq<H256>,
) -> Plan {
    let v = visit_listed(db, target, height, list, p, left);
    follow(v, after_listed(db, target, height, v.value().0, v.value().1))
}

/// What is done after the blocks listed at a height were visited.
#[verifier::opaque]
spec fn after_listed(
    db: Db,
    target: Target,
    height: BlockNumber,
    p: Pruned,
    left: Seq<H256>,
) -> Plan {
    if height >= target.number {
        cut_branches(db, target, p, left)
    } else {
        from_height(db, target, (height + 1) as BlockNumber, p)
    }
}

/// Visit the blocks of a frontier, from the last to the first, each with all its descendants.
spec fn cut_frontier(db: Db, frontier: Seq<(BlockNumber, H256)>, p: Pruned) -> Traced<Pruned>
    decreases frontier.len(),
{
    if frontier.len() == 0 {
        done(p)
    } else {
        let (height, block) = frontier.last();
        let d = descend(db, height, seq![block], p);
        follow(d, cut_frontier(db, frontier.drop_last(), d.value()))
    }
}

/// What is done from a frontier on.
spec fn from_frontier(
    db: Db,
    target: Target,
    frontier: Seq<(BlockNumber, H256)>,
    p: Pruned,
) -> Plan {
    let d = cut_frontier(db, frontier, p);
    follow(d, conclude(target, d.value()))
}

/// Blocks with the height that they are at.
spec fn at_height(height: BlockNumber, blocks: Seq<H256>) -> Seq<(BlockNumber, H256)> {
    Seq::new(blocks.len(), |i: int| (height, blocks[i]))
}

/// What is done after a block on a branch was taken off its list.
spec fn from_list(
    db: Db,
    target: Target,
    height: BlockNumber,
    block: H256,
    frontier: Seq<(BlockNumber, H256)>,
    p: Pruned,
) -> Plan {
    let s = strike(db, height, block, p);
    follow(s, from_frontier(db, target, frontier, s.value()))
}

/// What is done after a block was visited.
#[verifier::opaque]
spec fn from_visited(
    db: Db,
    target: Target,
    place: Place,
    block: H256,
    children: Seq<H256>,
    p: Pruned,
) -> Plan {
    match place {
        Place::Listed { height, list, next, left } => from_listed(
            db,
            target,
            height,
            list@.skip(next as int),
            p,
            left@ + branches(target, height, block, children),
        ),
        Place::Branch { height, frontier } => if children.len() > 0 && height == u32::MAX {
            fail(Failure::Overflow)
        } else {
            from_list(
                db,
                target,
                height,
                block,
                frontier@ + at_height((height + 1) as BlockNumber, children),
                p,
            )
        },
    }
}

/// What is done from the entry of a block on.
spec fn from_block(db: Db, target: Target, place: Place, block: H256, p: Pruned) -> Plan {
    let v = visit(db, block, p);
    follow(v, from_visited(db, target, place, block, v.value().1, v.value().0))
}

/// What is done from some of a block's candidates on.
spec fn from_candidates(
    db: Db,
    target: Target,
    place: Place,
    block: H256,
    candidates: Seq<(CoreIndex, CandidateHash)>,
    children: Seq<H256>,
    p: Pruned,
) -> Plan {
    let r = release(db, block, candidates, p);
    follow(r, from_visited(db, target, place, block, children, r.value()))
}

/// The place is one that a visited block can be met at.
spec fn place_ok(target: Target, place: Place) -> bool {
    match place {
        Place::Listed { height, list, next, left } => height <= target.number && next
            <= list@.len(),
        Place::Branch { .. } => true,
    }
}

impl Waiting for Canonicalize {
    closed spec fn valid(&self) -> bool {
        &&& self.tally.valid()
        &&& match self.stage {
            Stage::Range => self.tally@ == Pruned::nothing(),
            Stage::Height { height } => height <= self.target.number,
            Stage::Block { block, place } => place_ok(self.target, place),
            Stage::Candidate { block, candidates, next, children, place } => {
                &&& place_ok(self.target, place)
                &&& next < candidates@.len()
                &&& !known(self.tally@.candidates, candidates@[next as int].1)
            },
            Stage::List { height, block, frontier } => !known(self.tally@.lists, height),
        }
    }

    closed spec fn awaits(&self) -> Seq<u8> {
        match self.stage {
            Stage::Range => range_key(),
            Stage::Height { height } => height_key(height),
            Stage::Block { block, place } => block_key(block),
            Stage::Candidate { block, candidates, next, children, place } => candidate_key(
                candidates@[next as int].1,
            ),
            Stage::List { height, block, frontier } => height_key(height),
        }
    }

    closed spec fn plan(&self, db: Db) -> Plan {
        let target = self.target;
        let p = self.tally@;
        match self.stage {
            Stage::Range => canonicalize_plan(db, target.number, target.hash),
            Stage::Height { height } => from_height(db, target, height, p),
            Stage::Block { block, place } => from_block(db, target, place, block, p),
            Stage::Candidate { block, candidates, next, children, place } => from_candidates(
                db,
                target,
                place,
                block,
                candidates@.skip(next as int),
                children@,
                p,
            ),
            Stage::List { height, block, frontier } => from_list(
                db,
                target,
                height,
                block,
                frontier@,
                p,
            ),
        }
    }

    proof fn awaits_first(&self, db: Db) {
        let p = self.tally@;
        match self.stage {
            Stage::Block { block, place } => {
                reveal(visit);
            },
            Stage::Candidate { block, candidates, next, children, place } => {
                let rest = candidates@.skip(next as int);
                assert(rest[0] == candidates@[next as int]);
            },
            Stage::List { height, block, frontier } => {
                reveal(strike);
            },
            _ => {},
        }
    }
}

/// Going on with the value that a computation ends with adds nothing.
proof fn lemma_follow_value<T>(t: Traced<T>)
    ensures
        follow(t, done(t.value())) == t,
{
    assert(follow(t, done(t.value())) =~= t);
}

/// What comes after three parts matters only if they end well.
proof fn lemma_follow_same<T, U, V, W>(
    a: Traced<T>,
    b: Traced<U>,
    c: Traced<V>,
    x: Traced<W>,
    y: Traced<W>,
)
    requires
        a.result is Ok && b.result is Ok && c.result is Ok ==> x == y,
    ensures
        follow(a, follow(b, follow(c, x))) == follow(a, follow(b, follow(c, y))),
{
}

/// The parts of visiting one block with its descendants: the block, its list, its children.
spec fn parts(db: Db, height: BlockNumber, block: H256, p: Pruned) -> (
    Traced<(Pruned, Seq<H256>)>,
    Traced<Pruned>,
    Traced<Pruned>,
) {
    let v = visit(db, block, p);
    let children = v.value().1;
    if children.len() > 0 && height == u32::MAX {
        (v, fail(Failure::Overflow), arbitrary())
    } else {
        let s = strike(db, height, block, v.value().0);
        let d = if children.len() > 0 {
            descend(db, (height + 1) as BlockNumber, children, s.value())
        } else {
            done(s.value())
        };
        (v, s, d)
    }
}

/// Visiting some blocks, by its parts.
proof fn lemma_descend_parts(db: Db, height: BlockNumber, blocks: Seq<H256>, p: Pruned)
    requires
        blocks.len() > 0,
    ensures
        descend(db, height, blocks, p) == ({
            let (v, s, d) = parts(db, height, blocks.last(), p);
            follow(v, follow(s, follow(d, descend(db, height, blocks.drop_last(), d.value()))))
        }),
{
}

/// Visiting one block, by its parts.
proof fn lemma_descend_one(db: Db, height: BlockNumber, block: H256, p: Pruned)
    ensures
        descend(db, height, seq![block], p) == ({
            let (v, s, d) = parts(db, height, block, p);
            follow(v, follow(s, d))
        }),
{
    let one = seq![block];
    let (v, s, d) = parts(db, height, block, p);
    lemma_descend_parts(db, height, one, p);
    assert(one.drop_last() =~= Seq::<H256>::empty());
    assert(descend(db, height, Seq::<H256>::empty(), d.value()) == done(d.value()));
    lemma_follow_value(d);
}

/// What follows a computation of three parts follows the last one.
proof fn lemma_follow_parts<T, U, V, W>(
    a: Traced<T>,
    b: Traced<U>,
    c: Traced<V>,
    whole: Traced<V>,
    x: Traced<W>,
    y: Traced<W>,
)
    requires
        whole == follow(a, follow(b, c)),
        whole.value() == c.value() ==> x == y,
    ensures
        follow(whole, x) == follow(a, follow(b, follow(c, y))),
{
    lemma_follow_follow(a, follow(b, c), x);
    lemma_follow_follow(b, c, x);
    lemma_follow_same(a, b, c, x, y);
}

/// Visiting some blocks is visiting the last one, and then the others.
proof fn lemma_descend_last(db: Db, height: BlockNumber, blocks: Seq<H256>, p: Pruned)
    requires
        blocks.len() > 0,
    ensures
        descend(db, height, blocks, p) == ({
            let d = descend(db, height, seq![blocks.last()], p);
            follow(d, descend(db, height, blocks.drop_last(), d.value()))
        }),
{
    let (v, s, d) = parts(db, height, blocks.last(), p);
    let one = descend(db, height, seq![blocks.last()], p);
    lemma_descend_parts(db, height, blocks, p);
    lemma_descend_one(db, height, blocks.last(), p);
    lemma_follow_parts(
        v,
        s,
        d,
        one,
        descend(db, height, blocks.drop_last(), one.value()),
        descend(db, height, blocks.drop_last(), d.value()),
    );
}

/// Visiting a frontier that ends with some blocks at a height is visiting those blocks, and then
/// the rest of the frontier.
proof fn lemma_frontier_tail(
    db: Db,
    frontier: Seq<(BlockNumber, H256)>,
    height: BlockNumber,
    blocks: Seq<H256>,
    p: Pruned,
)
    ensures
        cut_frontier(db, frontier + at_height(height, blocks), p) == ({
            let d = descend(db, height, blocks, p);
            follow(d, cut_frontier(db, frontier, d.value()))
        }),
    decreases blocks.len(),
{
    let whole = frontier + at_height(height, blocks);
    if blocks.len() == 0 {
        assert(whole =~= frontier);
        assert(descend(db, height, blocks, p) == done(p));
        lemma_follow_done(p, cut_frontier(db, frontier, p));
    } else {
        let block = blocks.last();
        let fewer = blocks.drop_last();
        let d1 = descend(db, height, seq![block], p);
        let d2 = descend(db, height, fewer, d1.value());
        let d = descend(db, height, blocks, p);
        lemma_descend_last(db, height, blocks, p);
        lemma_frontier_tail(db, frontier, height, fewer, d1.value());
        assert(whole.last() == (height, block));
        assert(whole.drop_last() =~= frontier + at_height(height, fewer));
        let rest = cut_frontier(db, frontier, d2.value());
        assert(cut_frontier(db, whole, p) == follow(d1, follow(d2, rest)));
        lemma_follow_follow(d1, d2, rest);
        assert(d == follow(d1, d2));
        if d1.result is Ok {
            assert(d.value() == d2.value());
        }
    }
}

/// Going on from a frontier is going on from the entry of its last block.
proof fn lemma_branch(
    db: Db,
    target: Target,
    height: BlockNumber,
    block: H256,
    frontier: Vec<(BlockNumber, H256)>,
    p: Pruned,
)
    ensures
        from_frontier(db, target, frontier@.push((height, block)), p) == from_block(
            db,
            target,
            Place::Branch { height, frontier },
            block,
            p,
        ),
{
    let whole = frontier@.push((height, block));
    assert(whole.drop_last() =~= frontier@);
    let (v, s, d) = parts(db, height, block, p);
    let children = v.value().1;
    let one = descend(db, height, seq![block], p);
    lemma_descend_one(db, height, block, p);
    let cut = cut_frontier(db, whole, p);
    let rest = cut_frontier(db, frontier@, one.value());
    assert(cut == follow(one, rest));
    let end = conclude(target, rest.value());
    lemma_follow_follow(one, rest, end);
    if one.result is Ok {
        assert(cut.value() == rest.value());
    }
    assert(from_frontier(db, target, whole, p) == follow(one, follow(rest, end)));
    reveal(from_visited);
    if children.len() > 0 && height == u32::MAX {
        assert(follow(one, follow(rest, end)) =~= follow(v, fail(Failure::Overflow)));
    } else {
        let above = frontier@ + at_height((height + 1) as BlockNumber, children);
        if children.len() == 0 {
            assert(above =~= frontier@);
            lemma_follow_done(s.value(), cut_frontier(db, frontier@, s.value()));
        } else {
            lemma_frontier_tail(
                db,
                frontier@,
                (height + 1) as BlockNumber,
                children,
                s.value(),
            );
        }
        let cut2 = cut_frontier(db, above, s.value());
        let rest2 = cut_frontier(db, frontier@, d.value());
        assert(cut2 == follow(d, rest2));
        let end2 = conclude(target, rest2.value());
        lemma_follow_follow(d, rest2, end2);
        if d.result is Ok {
            assert(cut2.value() == rest2.value());
        }
        assert(from_frontier(db, target, above, s.value()) == follow(d, follow(rest2, end2)));
        lemma_follow_parts(v, s, d, one, follow(rest, end), follow(rest2, end2));
    }
}

/// The end.
fn finish(target: Target, tally: Tally) -> (r: Step<Canonicalize>)
    requires
        tally.valid(),
    ensures
        r.valid(),
        forall|db: Db| #[trigger] r.plan(db) == conclude(target, tally@),
{
    proof {
        reveal(conclude);
    }
    if target.number > u32::MAX - 2 {
        return Step::Finish(Err(Error::Overflow));
    }
    Step::Finish(Ok(Some(tally.batch(&target))))
}

/// Visit the next block of the frontier, if there is one.
fn next_branch(target: Target, tally: Tally, frontier: Vec<(BlockNumber, H256)>) -> (r: Step<
    Canonicalize,
>)
    requires
        tally.valid(),
    ensures
        r.valid(),
        forall|db: Db| #[trigger] r.plan(db) == from_frontier(db, target, frontier@, tally@),
{
    let mut frontier = frontier;
    let ghost before = frontier@;
    match frontier.pop() {
        None => {
            proof {
                assert forall|db: Db| #[trigger] conclude(target, tally@) == from_frontier(
                    db,
                    target,
                    before,
                    tally@,
                ) by {
                    lemma_follow_done(tally@, conclude(target, tally@));
                }
            }
            finish(target, tally)
        },
        Some((height, block)) => {
            let key = slice_to_vec(block_entry_key(&block).as_slice());
            let place = Place::Branch { height, frontier };
            let next = Canonicalize { target, tally, stage: Stage::Block { block, place } };
            proof {
                assert(frontier@ =~= before.drop_last());
                assert forall|db: Db| #[trigger] next.plan(db) == from_frontier(
                    db,
                    target,
                    before,
                    tally@,
                ) by {
                    lemma_branch(db, target, height, block, frontier, tally@);
                    assert(before =~= frontier@.push((height, block)));
                }
            }
            Step::Get { key, next }
        },
    }
}

/// Turn to the branches that the sweep leaves behind.
fn start_branches(target: Target, tally: Tally, left: Vec<H256>) -> (r: Step<Canonicalize>)
    requires
        tally.valid(),
    ensures
        r.valid(),
        forall|db: Db| #[trigger] r.plan(db) == cut_branches(db, target, tally@, left@),
{
    if left.len() == 0 {
        return finish(target, tally);
    }
    if target.number == u32::MAX {
        return Step::Finish(Err(Error::Overflow));
    }
    let frontier: Vec<(BlockNumber, H256)> = Vec::new();
    let height: BlockNumber = target.number + 1;
    let frontier = with_height(frontier, height, &left);
    proof {
        assert forall|db: Db| #[trigger] from_frontier(db, target, frontier@, tally@)
            == cut_branches(db, target, tally@, left@) by {
            let none = Seq::<(BlockNumber, H256)>::empty();
            let d = descend(db, height, left@, tally@);
            lemma_frontier_tail(db, none, height, left@, tally@);
            assert(none + at_height(height, left@) =~= frontier@);
            lemma_follow_value(d);
        }
    }
    next_branch(target, tally, frontier)
}

/// A frontier with more blocks, all of them at one height.
fn with_height(
    frontier: Vec<(BlockNumber, H256)>,
    height: BlockNumber,
    blocks: &Vec<H256>,
) -> (r: Vec<(BlockNumber, H256)>)
    ensures
        r@ == frontier@ + at_height(height, blocks@),
{
    let mut r = frontier;
    let mut i: usize = 0;
    assert(r@ =~= frontier@ + at_height(height, blocks@.take(0)));
    while i < blocks.len()
        invariant
            i <= blocks.len(),
            r@ == frontier@ + at_height(height, blocks@.take(i as int)),
        decreases blocks.len() - i,
    {
        r.push((height, blocks[i]));
        i = i + 1;
        assert(r@ =~= frontier@ + at_height(height, blocks@.take(i as int)));
    }
    assert(blocks@.take(i as int) =~= blocks@);
    r
}

/// Going on from the blocks listed at a height is going on from the entry of the first of them.
proof fn lemma_listed(
    db: Db,
    target: Target,
    height: BlockNumber,
    list: Vec<H256>,
    next: usize,
    after: usize,
    left: Vec<H256>,
    p: Pruned,
)
    requires
        next < list@.len(),
        after == next + 1,
    ensures
        from_listed(db, target, height, list@.skip(next as int), p, left@) == from_block(
            db,
            target,
            Place::Listed { height, list, next: after, left },
            list@[next as int],
            p,
        ),
{
    let rest = list@.skip(next as int);
    let block = list@[next as int];
    let v = visit(db, block, p);
    let left2 = left@ + branches(target, height, block, v.value().1);
    assert(rest[0] == block);
    assert(rest.skip(1) =~= list@.skip(next + 1));
    let w = visit_listed(db, target, height, rest.skip(1), v.value().0, left2);
    let whole = visit_listed(db, target, height, rest, p, left@);
    assert(whole == follow(v, w));
    let last = after_listed(db, target, height, w.value().0, w.value().1);
    reveal(from_visited);
    lemma_follow_follow(v, w, last);
    if v.result is Ok {
        assert(whole.value() == w.value());
    }
}

/// Turn to a height.
fn start_height(target: Target, tally: Tally, height: BlockNumber) -> (r: Step<Canonicalize>)
    requires
        tally.valid(),
        height <= target.number,
    ensures
        r.valid(),
        forall|db: Db| #[trigger] r.plan(db) == from_height(db, target, height, tally@),
{
    let key = slice_to_vec(blocks_at_height_key(height).as_slice());
    let next = Canonicalize { target, tally, stage: Stage::Height { height } };
    Step::Get { key, next }
}

/// Visit the next of the blocks that are listed at a height, if there is one.
fn next_listed(
    target: Target,
    tally: Tally,
    height: BlockNumber,
    list: Vec<H256>,
    next: usize,
    left: Vec<H256>,
) -> (r: Step<Canonicalize>)
    requires
        tally.valid(),
        height <= target.number,
        next <= list@.len(),
    ensures
        r.valid(),
        forall|db: Db| #[trigger]
            r.plan(db) == from_listed(
                db,
                target,
                height,
                list@.skip(next as int),
                tally@,
                left@,
            ),
{
    let ghost rest = list@.skip(next as int);
    proof {
        reveal(after_listed);
    }
    if next < list.len() {
        let block = list[next];
        let key = slice_to_vec(block_entry_key(&block).as_slice());
        let place = Place::Listed { height, list, next: next + 1, left };
        let ghost p = tally@;
        let after = Canonicalize { target, tally, stage: Stage::Block { block, place } };
        proof {
            assert forall|db: Db| #[trigger] after.plan(db) == from_listed(
                db,
                target,
                height,
                rest,
                p,
                left@,
            ) by {
                lemma_listed(db, target, height, list, next, (next + 1) as usize, left, p);
            }
        }
        return Step::Get { key, next: after };
    }
    proof {
        assert forall|db: Db| #[trigger] from_listed(db, target, height, rest, tally@, left@)
            == after_listed(db, target, height, tally@, left@) by {
            lemma_follow_done(
                (tally@, left@),
                after_listed(db, target, height, tally@, left@),
            );
        }
    }
    if height >= target.number {
        start_branches(target, tally, left)
    } else {
        start_height(target, tally, height + 1)
    }
}

/// Go on after a block was visited.
fn visited(
    target: Target,
    tally: Tally,
    place: Place,
    block: H256,
    children: Vec<H256>,
) -> (r: Step<Canonicalize>)
    requires
        tally.valid(),
        place_ok(target, place),
    ensures
        r.valid(),
        forall|db: Db| #[trigger]
            r.plan(db) == from_visited(db, target, place, block, children@, tally@),
{
    proof {
        reveal(from_visited);
        reveal(strike);
    }
    match place {
        Place::Listed { height, list, next, left } => {
            let mut left = left;
            let ghost before = left@;
            if height == target.number && !hash_eq(&block, &target.hash) {
                let mut children = children;
                left.append(&mut children);
            } else {
                assert(before + Seq::<H256>::empty() =~= before);
            }
            assert(left@ =~= before + branches(target, height, block, children@));
            next_listed(target, tally, height, list, next, left)
        },
        Place::Branch { height, frontier } => {
            if children.len() > 0 && height == u32::MAX {
                return Step::Finish(Err(Error::Overflow));
            }
            let ghost before = frontier@;
            let frontier = if children.len() > 0 {
                with_height(frontier, height + 1, &children)
            } else {
                frontier
            };
            assert(frontier@ =~= before + at_height((height + 1) as BlockNumber, children@));
            let mut tally = tally;
            let ghost p = tally@;
            if tally.strike_again(height, &block) {
                proof {
                    assert forall|db: Db| #[trigger] from_frontier(db, target, frontier@, tally@)
                        == from_list(db, target, height, block, frontier@, p) by {
                        lemma_follow_done(
                            tally@,
                            from_frontier(db, target, frontier@, tally@),
                        );
                    }
                }
                return next_branch(target, tally, frontier);
            }
            let key = slice_to_vec(blocks_at_height_key(height).as_slice());
            let next = Canonicalize {
                target,
                tally,
                stage: Stage::List { height, block, frontier },
            };
            Step::Get { key, next }
        },
    }
}

/// One step of releasing a candidate that was visited before.
proof fn lemma_release_again(
    db: Db,
    block: H256,
    candidates: Seq<(CoreIndex, CandidateHash)>,
    next: int,
    p: Pruned,
)
    requires
        0 <= next < candidates.len(),
        known(p.candidates, candidates[next].1),
    ensures
        release(db, block, candidates.skip(next), p) == release(
            db,
            block,
            candidates.skip(next + 1),
            p.release_again(candidates[next].1, block),
        ),
{
    let rest = candidates.skip(next);
    assert(rest.skip(1) =~= candidates.skip(next + 1));
    assert(rest[0] == candidates[next]);
}

/// Release candidates that were visited before from a block, up to the first that was not.
fn release_known(
    tally: &mut Tally,
    block: &H256,
    candidates: &Vec<(CoreIndex, CandidateHash)>,
    start: usize,
) -> (next: usize)
    requires
        old(tally).valid(),
        start <= candidates@.len(),
    ensures
        final(tally).valid(),
        next <= candidates@.len(),
        next < candidates@.len() ==> !known(
            final(tally)@.candidates,
            candidates@[next as int].1,
        ),
        forall|db: Db|
            release(db, *block, candidates@.skip(start as int), old(tally)@) == #[trigger] release(
                db,
                *block,
                candidates@.skip(next as int),
                final(tally)@,
            ),
{
    let ghost first = candidates@.skip(start as int);
    let ghost p0 = tally@;
    let mut next = start;
    while next < candidates.len()
        invariant
            tally.valid(),
            next <= candidates@.len(),
            first == candidates@.skip(start as int),
            p0 == old(tally)@,
            forall|db: Db|
                release(db, *block, first, p0) == #[trigger] release(
                    db,
                    *block,
                    candidates@.skip(next as int),
                    tally@,
                ),
        decreases candidates@.len() - next,
    {
        let ghost p = tally@;
        if !tally.release_again(&candidates[next].1, block) {
            return next;
        }
        proof {
            assert forall|db: Db| release(db, *block, first, p0) == #[trigger] release(
                db,
                *block,
                candidates@.skip(next + 1),
                tally@,
            ) by {
                lemma_release_again(db, *block, candidates@, next as int, p);
            }
        }
        next = next + 1;
    }
    next
}

/// Release the next of the candidates that a block includes, if there is one.
fn next_candidate(
    target: Target,
    tally: Tally,
    place: Place,
    block: H256,
    candidates: Vec<(CoreIndex, CandidateHash)>,
    start: usize,
    children: Vec<H256>,
) -> (r: Step<Canonicalize>)
    requires
        tally.valid(),
        place_ok(target, place),
        start <= candidates@.len(),
    ensures
        r.valid(),
        forall|db: Db| #[trigger]
            r.plan(db) == from_candidates(
                db,
                target,
                place,
                block,
                candidates@.skip(start as int),
                children@,
                tally@,
            ),
{
    let ghost first = candidates@.skip(start as int);
    let ghost p0 = tally@;
    let mut tally = tally;
    let next: usize = release_known(&mut tally, &block, &candidates, start);
    let ghost p = tally@;
    if next < candidates.len() {
        let key = slice_to_vec(candidate_entry_key(&candidates[next].1).as_slice());
        let after = Canonicalize {
            target,
            tally,
            stage: Stage::Candidate { block, candidates, next, children, place },
        };
        proof {
            assert forall|db: Db| #[trigger] after.plan(db) == from_candidates(
                db,
                target,
                place,
                block,
                first,
                children@,
                p0,
            ) by {
                let same = release(db, block, candidates@.skip(next as int), p);
                assert(same == release(db, block, first, p0));
            }
        }
        return Step::Get { key, next: after };
    }
    proof {
        assert forall|db: Db| #[trigger] from_visited(db, target, place, block, children@, p)
            == from_candidates(db, target, place, block, first, children@, p0) by {
            let same = release(db, block, candidates@.skip(next as int), p);
            assert(same == release(db, block, first, p0));
            assert(same == done(p));
            lemma_follow_done(p, from_visited(db, target, place, block, children@, p));
        }
    }
    visited(target, tally, place, block, children)
}

/// Go on with the stored range.
fn got_range(number: BlockNumber, hash: H256, reply: Option<Vec<u8>>) -> (r: Step<Canonicalize>)
    ensures
        r.valid(),
        forall|db: Db|
            lookup(db, range_key()) == reply_view(reply) ==> canonicalize_plan(db, number, hash)
                == ask(range_key(), #[trigger] r.plan(db)),
{
    match load_stored_blocks(reply) {
        Err(e) => Step::Finish(Err(e)),
        Ok(None) => Step::Finish(Ok(None)),
        Ok(Some(range)) => {
            if range.0 > number {
                return Step::Finish(Ok(None));
            }
            let target = Target { number, hash, top: range.1 };
            start_height(target, Tally::new(), range.0)
        },
    }
}

/// Go on with the list at a height that is cleared.
fn got_height(
    target: Target,
    tally: Tally,
    height: BlockNumber,
    reply: Option<Vec<u8>>,
) -> (r: Step<Canonicalize>)
    requires
        tally.valid(),
        height <= target.number,
    ensures
        r.valid(),
        forall|db: Db|
            lookup(db, height_key(height)) == reply_view(reply) ==> from_height(
                db,
                target,
                height,
                tally@,
            ) == ask(height_key(height), #[trigger] r.plan(db)),
{
    match load_blocks_at_height(reply) {
        Err(e) => {
            let r = Step::Finish(Err(e));
            proof {
                assert forall|db: Db|
                    lookup(db, height_key(height)) == reply_view(reply) implies from_height(
                    db,
                    target,
                    height,
                    tally@,
                ) == ask(height_key(height), #[trigger] r.plan(db)) by {
                    assert(from_height(db, target, height, tally@) =~= ask(
                        height_key(height),
                        r.plan(db),
                    ));
                }
            }
            r
        },
        Ok(list) => {
            let ghost p = tally@;
            let ghost blocks = list@;
            let mut tally = tally;
            tally.clear_height(height);
            let left: Vec<H256> = Vec::new();
            assert(left@ =~= Seq::empty());
            assert(list@.skip(0) =~= list@);
            proof {
                assert forall|db: Db|
                    lookup(db, height_key(height)) == reply_view(reply) implies from_height(
                    db,
                    target,
                    height,
                    p,
                ) == ask(
                    height_key(height),
                    #[trigger] from_listed(db, target, height, blocks, tally@, left@),
                ) by {
                    lemma_got_height(db, target, height, blocks, p);
                }
            }
            next_listed(target, tally, height, list, 0, left)
        },
    }
}

/// Clearing a height is reading its list, and going on from the blocks on it.
proof fn lemma_got_height(
    db: Db,
    target: Target,
    height: BlockNumber,
    list: Seq<H256>,
    p: Pruned,
)
    requires
        list_of(db, height) == Ok::<Seq<H256>, Failure>(list),
        height <= target.number,
    ensures
        from_height(db, target, height, p) == ask(
            height_key(height),
            from_listed(db, target, height, list, p.clear_height(height), Seq::empty()),
        ),
{
    let v = visit_listed(db, target, height, list, p.clear_height(height), Seq::empty());
    reveal(after_listed);
    if height >= target.number {
        lemma_follow_ask(
            height_key(height),
            v,
            cut_branches(db, target, v.value().0, v.value().1),
        );
    } else {
        let s = sweep(db, target, (height + 1) as BlockNumber, v.value().0);
        let rest = cut_branches(db, target, s.value().0, s.value().1);
        lemma_follow_ask(height_key(height), follow(v, s), rest);
        lemma_follow_follow(v, s, rest);
        assert(from_height(db, target, height, p) =~= ask(
            height_key(height),
            follow(v, follow(s, rest)),
        ));
    }
}

/// Go on with the entry of a block.
fn got_block(
    target: Target,
    tally: Tally,
    place: Place,
    block: H256,
    reply: Option<Vec<u8>>,
) -> (r: Step<Canonicalize>)
    requires
        tally.valid(),
        place_ok(target, place),
    ensures
        r.valid(),
        forall|db: Db|
            lookup(db, block_key(block)) == reply_view(reply) ==> from_block(
                db,
                target,
                place,
                block,
                tally@,
            ) == ask(block_key(block), #[trigger] r.plan(db)),
{
    let ghost p = tally@;
    proof {
        reveal(visit);
    }
    match load_block_entry(reply) {
        Err(e) => {
            let r = Step::Finish(Err(e));
            proof {
                assert forall|db: Db|
                    lookup(db, block_key(block)) == reply_view(reply) implies from_block(
                    db,
                    target,
                    place,
                    block,
                    p,
                ) == ask(block_key(block), #[trigger] r.plan(db)) by {
                    assert(from_block(db, target, place, block, p) =~= ask(
                        block_key(block),
                        r.plan(db),
                    ));
                }
            }
            r
        },
        Ok(None) => {
            let children: Vec<H256> = Vec::new();
            assert(children@ =~= Seq::empty());
            proof {
                assert forall|db: Db|
                    lookup(db, block_key(block)) == reply_view(reply) implies from_block(
                    db,
                    target,
                    place,
                    block,
                    p,
                ) == ask(
                    block_key(block),
                    #[trigger] from_visited(db, target, place, block, children@, p),
                ) by {
                    let rest = from_visited(db, target, place, block, children@, p);
                    lemma_follow_ask(block_key(block), done((p, children@)), rest);
                    lemma_follow_done((p, children@), rest);
                }
            }
            visited(target, tally, place, block, children)
        },
        Ok(Some(entry)) => {
            let ghost b = entry@;
            let mut tally = tally;
            tally.drop_block(block);
            assert(entry.candidates@.skip(0) =~= entry.candidates@);
            proof {
                assert forall|db: Db|
                    lookup(db, block_key(block)) == reply_view(reply) implies from_block(
                    db,
                    target,
                    place,
                    block,
                    p,
                ) == ask(
                    block_key(block),
                    #[trigger] from_candidates(
                        db,
                        target,
                        place,
                        block,
                        b.candidates,
                        b.children,
                        tally@,
                    ),
                ) by {
                    let r = release(db, block, b.candidates, tally@);
                    let mid = done((r.value(), b.children));
                    let rest = from_visited(db, target, place, block, b.children, r.value());
                    lemma_follow_ask(block_key(block), follow(r, mid), rest);
                    lemma_follow_follow(r, mid, rest);
                    lemma_follow_done((r.value(), b.children), rest);
                    assert(from_block(db, target, place, block, p) =~= ask(
                        block_key(block),
                        follow(r, rest),
                    ));
                }
            }
            next_candidate(target, tally, place, block, entry.candidates, 0, entry.children)
        },
    }
}

/// What the entry of a candidate makes of the account.
spec fn released(db: Db, candidate: CandidateHash, block: H256, p: Pruned) -> Pruned {
    match candidate_of(db, candidate) {
        Ok(Some(entry)) => p.release_new(candidate, entry, block),
        _ => p,
    }
}

/// Releasing a candidate that was not visited before is reading its entry, and going on from the
/// next candidate.
proof fn lemma_got_candidate(
    db: Db,
    target: Target,
    place: Place,
    block: H256,
    candidates: Seq<(CoreIndex, CandidateHash)>,
    children: Seq<H256>,
    p: Pruned,
    q: Pruned,
)
    requires
        candidates.len() > 0,
        !known(p.candidates, candidates[0].1),
        candidate_of(db, candidates[0].1) is Ok,
        q == released(db, candidates[0].1, block, p),
    ensures
        from_candidates(db, target, place, block, candidates, children, p) == ask(
            candidate_key(candidates[0].1),
            from_candidates(db, target, place, block, candidates.skip(1), children, q),
        ),
{
    let r = release(db, block, candidates.skip(1), q);
    let key = candidate_key(candidates[0].1);
    assert(release(db, block, candidates, p) == ask(key, r));
    lemma_follow_ask(key, r, from_visited(db, target, place, block, children, r.value()));
}

/// Go on with the entry of a candidate.
fn got_candidate(
    target: Target,
    tally: Tally,
    place: Place,
    block: H256,
    candidates: Vec<(CoreIndex, CandidateHash)>,
    next: usize,
    children: Vec<H256>,
    reply: Option<Vec<u8>>,
) -> (r: Step<Canonicalize>)
    requires
        tally.valid(),
        place_ok(target, place),
        next < candidates@.len(),
        !known(tally@.candidates, candidates@[next as int].1),
    ensures
        r.valid(),
        forall|db: Db|
            lookup(db, candidate_key(candidates@[next as int].1)) == reply_view(reply)
                ==> from_candidates(
                db,
                target,
                place,
                block,
                candidates@.skip(next as int),
                children@,
                tally@,
            ) == ask(candidate_key(candidates@[next as int].1), #[trigger] r.plan(db)),
{
    let ghost p = tally@;
    assert(next < candidates.len());
    let candidate = candidates[next].1;
    let ghost key = candidate_key(candidate);
    let ghost all = candidates@.skip(next as int);
    let ghost others = candidates@.skip(next + 1);
    assert(all.skip(1) =~= others);
    assert(all[0].1 == candidate);
    match load_candidate_entry(reply) {
        Err(e) => {
            let r = Step::Finish(Err(e));
            proof {
                assert forall|db: Db| lookup(db, key) == reply_view(reply) implies from_candidates(
                    db,
                    target,
                    place,
                    block,
                    all,
                    children@,
                    p,
                ) == ask(key, #[trigger] r.plan(db)) by {
                    assert(from_candidates(db, target, place, block, all, children@, p) =~= ask(
                        key,
                        r.plan(db),
                    ));
                }
            }
            r
        },
        Ok(None) => {
            proof {
                assert forall|db: Db| lookup(db, key) == reply_view(reply) implies from_candidates(
                    db,
                    target,
                    place,
                    block,
                    all,
                    children@,
                    p,
                ) == ask(
                    key,
                    #[trigger] from_candidates(db, target, place, block, others, children@, p),
                ) by {
                    lemma_got_candidate(db, target, place, block, all, children@, p, p);
                }
            }
            next_candidate(target, tally, place, block, candidates, next + 1, children)
        },
        Ok(Some(entry)) => {
            let ghost c = entry@;
            let mut tally = tally;
            tally.release_new(candidate, entry, &block);
            proof {
                assert forall|db: Db| lookup(db, key) == reply_view(reply) implies from_candidates(
                    db,
                    target,
                    place,
                    block,
                    all,
                    children@,
                    p,
                ) == ask(
                    key,
                    #[trigger] from_candidates(db, target, place, block, others, children@, tally@),
                ) by {
                    assert(candidate_of(db, candidate) == Ok::<_, Failure>(Some(c)));
                    lemma_got_candidate(db, target, place, block, all, children@, p, tally@);
                }
            }
            next_candidate(target, tally, place, block, candidates, next + 1, children)
        },
    }
}

/// Go on with the list at the height of a block on a branch.
fn got_list(
    target: Target,
    tally: Tally,
    height: BlockNumber,
    block: H256,
    frontier: Vec<(BlockNumber, H256)>,
    reply: Option<Vec<u8>>,
) -> (r: Step<Canonicalize>)
    requires
        tally.valid(),
        !known(tally@.lists, height),
    ensures
        r.valid(),
        forall|db: Db|
            lookup(db, height_key(height)) == reply_view(reply) ==> from_list(
                db,
                target,
                height,
                block,
                frontier@,
                tally@,
            ) == ask(height_key(height), #[trigger] r.plan(db)),
{
    let ghost p = tally@;
    proof {
        reveal(strike);
    }
    match load_blocks_at_height(reply) {
        Err(e) => {
            let r = Step::Finish(Err(e));
            proof {
                assert forall|db: Db|
                    lookup(db, height_key(height)) == reply_view(reply) implies from_list(
                    db,
                    target,
                    height,
                    block,
                    frontier@,
                    p,
                ) == ask(height_key(height), #[trigger] r.plan(db)) by {
                    assert(from_list(db, target, height, block, frontier@, p) =~= ask(
                        height_key(height),
                        r.plan(db),
                    ));
                }
            }
            r
        },
        Ok(list) => {
            let mut tally = tally;
            let ghost blocks = list@;
            tally.strike_new(height, list, &block);
            proof {
                assert forall|db: Db|
                    lookup(db, height_key(height)) == reply_view(reply) implies from_list(
                    db,
                    target,
                    height,
                    block,
                    frontier@,
                    p,
                ) == ask(
                    height_key(height),
                    #[trigger] from_frontier(db, target, frontier@, tally@),
                ) by {
                    let rest = from_frontier(db, target, frontier@, tally@);
                    assert(list_of(db, height) == Ok::<_, Failure>(blocks));
                    lemma_follow_ask(height_key(height), done(tally@), rest);
                    lemma_follow_done(tally@, rest);
                }
            }
            next_branch(target, tally, frontier)
        },
    }
}

impl Operation for Canonicalize {
    fn resume(self, reply: Option<Vec<u8>>) -> (r: Step<Canonicalize>) {
        let Canonicalize { target, tally, stage } = self;
        match stage {
            Stage::Range => got_range(target.number, target.hash, reply),
            Stage::Height { height } => got_height(target, tally, height, reply),
            Stage::Block { block, place } => got_block(target, tally, place, block, reply),
            Stage::Candidate { block, candidates, next, children, place } => got_candidate(
                target,
                tally,
                place,
                block,
                candidates,
                next,
                children,
                reply,
            ),
            Stage::List { height, block, frontier } => got_list(
                target,
                tally,
                height,
                block,
                frontier,
                reply,
            ),
        }
    }
}

/// Canonicalize some particular block, pruning everything before it and
/// pruning any competing branches at the same height.
pub fn canonicalize(canon_number: BlockNumber, canon_hash: H256) -> (r: Step<Canonicalize>)
    ensures
        r.valid(),
        forall|db: Db| #[trigger]
            r.plan(db) == canonicalize_plan(db, canon_number, canon_hash),
{
    let target = Target { number: canon_number, hash: canon_hash, top: 0 };
    let next = Canonicalize { target, tally: Tally::new(), stage: Stage::Range };
    Step::Get { key: slice_to_vec(stored_blocks_key().as_slice()), next }
}

} // verus!
