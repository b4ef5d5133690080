//! What a canonicalization prunes.
use crate::pruning::{
    at, branches, first_at, known, place, release, sweep, visit, visit_listed, Pruned, Target,
};
use crate::sequences::{lemma_contains_concat, lemma_contains_first, lemma_contains_push};
use crate::store::{block_of, candidate_of, list_of, Db, Failure};
use crate::store_laws::{block_at, blocks_at, candidate_at, has_block, has_candidate, readable};
use crate::types::{BlockNumber, Candidate, CandidateHash, CoreIndex, H256};
use vstd::prelude::*;

verus! {

/// Blocks and candidates that are no longer under them.
pub type Releases = Set<(H256, CandidateHash)>;

/// A block has an entry that includes a candidate.
pub open spec fn block_includes(db: Db, b: H256, c: CandidateHash) -> bool {
    has_block(db, b) && block_at(db, b).includes(c)
}

/// The entry of a candidate without what it says of the blocks that it is released from.
pub open spec fn stripped(db: Db, c: CandidateHash, released: Releases) -> Candidate {
    let entry = candidate_at(db, c);
    Candidate {
        block_assignments: entry.block_assignments.remove_keys(
            Set::new(|b: H256| released.contains((b, c))),
        ),
        ..entry
    }
}

/// A candidate is released from some block.
pub open spec fn released_from_some(released: Releases, c: CandidateHash) -> bool {
    exists|b: H256| #[trigger] released.contains((b, c))
}

/// No key occurs twice.
pub open spec fn distinct<K, V>(s: Seq<(K, V)>) -> bool {
    forall|i: int, j: int| 0 <= i < j < s.len() ==> (#[trigger] s[i]).0 != (#[trigger] s[j]).0
}

/// The account of the candidates is right for the given releases.
pub open spec fn candidates_ok(db: Db, p: Pruned, released: Releases) -> bool {
    &&& distinct(p.candidates)
    &&& forall|c: CandidateHash| #[trigger]
        known(p.candidates, c) == (has_candidate(db, c) && released_from_some(released, c))
    &&& forall|i: int|
        0 <= i < p.candidates.len() ==> (#[trigger] p.candidates[i]).1 == stripped(
            db,
            p.candidates[i].0,
            released,
        )
}

/// A key is known exactly if it occurs.
pub(crate) proof fn lemma_known<K, V>(s: Seq<(K, V)>, key: K)
    ensures
        known(s, key) == (exists|i: int| 0 <= i < s.len() && (#[trigger] s[i]).0 == key),
        known(s, key) ==> first_at(s, key, place(s, key)),
{
    if exists|i: int| 0 <= i < s.len() && (#[trigger] s[i]).0 == key {
        let i = choose|i: int| 0 <= i < s.len() && (#[trigger] s[i]).0 == key;
        let j = lemma_first(s, key, i);
        assert(first_at(s, key, j));
    }
}

proof fn lemma_first<K, V>(s: Seq<(K, V)>, key: K, i: int) -> (j: int)
    requires
        0 <= i < s.len(),
        s[i].0 == key,
    ensures
        first_at(s, key, j),
    decreases i,
{
    if exists|k: int| 0 <= k < i && (#[trigger] s[k]).0 == key {
        let k = choose|k: int| 0 <= k < i && (#[trigger] s[k]).0 == key;
        lemma_first(s, key, k)
    } else {
        i
    }
}

/// A release of another candidate does not change an entry.
proof fn lemma_stripped_other(
    db: Db,
    c: CandidateHash,
    released: Releases,
    b: H256,
    other: CandidateHash,
)
    requires
        c != other,
    ensures
        stripped(db, c, released.insert((b, other))) == stripped(db, c, released),
        released_from_some(released.insert((b, other)), c) == released_from_some(released, c),
{
    let more = released.insert((b, other));
    assert(Set::new(|x: H256| more.contains((x, c))) =~= Set::new(
        |x: H256| released.contains((x, c)),
    ));
    if released_from_some(more, c) {
        let x = choose|x: H256| #[trigger] more.contains((x, c));
        assert(released.contains((x, c)));
    }
    if released_from_some(released, c) {
        let x = choose|x: H256| #[trigger] released.contains((x, c));
        assert(more.contains((x, c)));
    }
}

/// One more release takes one more block out of an entry.
proof fn lemma_stripped_more(db: Db, c: CandidateHash, released: Releases, b: H256)
    ensures
        stripped(db, c, released.insert((b, c))) == stripped(db, c, released).without(b),
        released_from_some(released.insert((b, c)), c),
{
    let more = released.insert((b, c));
    assert(more.contains((b, c)));
    assert(stripped(db, c, more).block_assignments =~= stripped(db, c, released).without(
        b,
    ).block_assignments);
}

/// The account after a candidate that was visited before is released once more.
proof fn lemma_release_again(db: Db, p: Pruned, released: Releases, b: H256, c: CandidateHash)
    requires
        candidates_ok(db, p, released),
        known(p.candidates, c),
    ensures
        candidates_ok(db, p.release_again(c, b), released.insert((b, c))),
{
    let q = p.release_again(c, b);
    let more = released.insert((b, c));
    let k = place(p.candidates, c);
    lemma_known(p.candidates, c);
    assert(q.candidates =~= p.candidates.update(k, (c, at(p.candidates, c).without(b))));
    lemma_stripped_more(db, c, released, b);
    assert forall|x: CandidateHash| #[trigger]
        known(q.candidates, x) == (has_candidate(db, x) && released_from_some(more, x)) by {
        lemma_known(q.candidates, x);
        lemma_known(p.candidates, x);
        assert(known(p.candidates, x) == known(q.candidates, x)) by {
            if known(p.candidates, x) {
                let i = place(p.candidates, x);
                assert(q.candidates[i].0 == x);
            }
            if known(q.candidates, x) {
                let i = place(q.candidates, x);
                assert(p.candidates[i].0 == x);
            }
        }
        if x != c {
            lemma_stripped_other(db, x, released, b, c);
        }
    }
    assert forall|i: int| 0 <= i < q.candidates.len() implies (#[trigger] q.candidates[i]).1
        == stripped(db, q.candidates[i].0, more) by {
        if i != k {
            assert(q.candidates[i] == p.candidates[i]);
            assert(p.candidates[i].0 != p.candidates[k].0);
            lemma_stripped_other(db, p.candidates[i].0, released, b, c);
        }
    }
}

/// The account after a candidate is released for the first time.
proof fn lemma_release_new(db: Db, p: Pruned, released: Releases, b: H256, c: CandidateHash)
    requires
        candidates_ok(db, p, released),
        !known(p.candidates, c),
        has_candidate(db, c),
    ensures
        candidates_ok(
            db,
            p.release_new(c, candidate_at(db, c), b),
            released.insert((b, c)),
        ),
{
    let q = p.release_new(c, candidate_at(db, c), b);
    let more = released.insert((b, c));
    let n = p.candidates.len() as int;
    lemma_known(p.candidates, c);
    lemma_stripped_more(db, c, released, b);
    assert(stripped(db, c, released).block_assignments =~= candidate_at(
        db,
        c,
    ).block_assignments) by {
        assert forall|x: H256| !released.contains((x, c)) by {
            if released.contains((x, c)) {
                assert(released_from_some(released, c));
            }
        }
    }
    assert forall|x: CandidateHash| #[trigger]
        known(q.candidates, x) == (has_candidate(db, x) && released_from_some(more, x)) by {
        lemma_known(q.candidates, x);
        lemma_known(p.candidates, x);
        if x != c {
            lemma_stripped_other(db, x, released, b, c);
            if known(p.candidates, x) {
                let i = place(p.candidates, x);
                assert(q.candidates[i].0 == x);
            }
            if known(q.candidates, x) {
                let i = place(q.candidates, x);
                assert(p.candidates[i].0 == x);
            }
        } else {
            assert(q.candidates[n].0 == c);
        }
    }
    assert forall|i: int| 0 <= i < q.candidates.len() implies (#[trigger] q.candidates[i]).1
        == stripped(db, q.candidates[i].0, more) by {
        if i < n {
            assert(q.candidates[i] == p.candidates[i]);
            assert(p.candidates[i].0 != c);
            lemma_stripped_other(db, p.candidates[i].0, released, b, c);
        }
    }
    assert(distinct(q.candidates));
}

/// The account after a candidate that has no entry is passed over.
proof fn lemma_release_none(db: Db, p: Pruned, released: Releases, b: H256, c: CandidateHash)
    requires
        candidates_ok(db, p, released),
        !has_candidate(db, c),
    ensures
        candidates_ok(db, p, released.insert((b, c))),
{
    let more = released.insert((b, c));
    assert forall|x: CandidateHash| #[trigger]
        known(p.candidates, x) == (has_candidate(db, x) && released_from_some(more, x)) by {
        if x != c {
            lemma_stripped_other(db, x, released, b, c);
        }
    }
    assert forall|i: int| 0 <= i < p.candidates.len() implies (#[trigger] p.candidates[i]).1
        == stripped(db, p.candidates[i].0, more) by {
        let x = p.candidates[i].0;
        lemma_known(p.candidates, x);
        assert(known(p.candidates, x));
        lemma_stripped_other(db, x, released, b, c);
    }
}

/// The releases with those of a block from some candidates.
pub open spec fn with_releases(
    released: Releases,
    b: H256,
    candidates: Seq<(CoreIndex, CandidateHash)>,
) -> Releases {
    Set::new(
        |r: (H256, CandidateHash)|
            released.contains(r) || (r.0 == b && exists|i: int|
                0 <= i < candidates.len() && (#[trigger] candidates[i]).1 == r.1),
    )
}

/// Releasing candidates from a block keeps the account right.
proof fn lemma_release(
    db: Db,
    b: H256,
    candidates: Seq<(CoreIndex, CandidateHash)>,
    p: Pruned,
    released: Releases,
)
    requires
        readable(db),
        candidates_ok(db, p, released),
    ensures
        release(db, b, candidates, p).result is Ok,
        ({
            let q = release(db, b, candidates, p).value();
            &&& candidates_ok(db, q, with_releases(released, b, candidates))
            &&& q.heights == p.heights
            &&& q.blocks == p.blocks
            &&& q.lists == p.lists
        }),
    decreases candidates.len(),
{
    if candidates.len() == 0 {
        assert(with_releases(released, b, candidates) =~= released);
    } else {
        let c = candidates[0].1;
        let rest = candidates.skip(1);
        let more = released.insert((b, c));
        assert(candidate_of(db, c) is Ok);
        let p2 = if known(p.candidates, c) {
            lemma_release_again(db, p, released, b, c);
            p.release_again(c, b)
        } else if has_candidate(db, c) {
            lemma_release_new(db, p, released, b, c);
            p.release_new(c, candidate_at(db, c), b)
        } else {
            lemma_release_none(db, p, released, b, c);
            p
        };
        lemma_release(db, b, rest, p2, more);
        assert(with_releases(more, b, rest) =~= with_releases(released, b, candidates)) by {
            assert forall|r: (H256, CandidateHash)|
                with_releases(more, b, rest).contains(r) == with_releases(
                    released,
                    b,
                    candidates,
                ).contains(r) by {
                if r.0 == b && exists|i: int|
                    0 <= i < rest.len() && (#[trigger] rest[i]).1 == r.1 {
                    let i = choose|i: int| 0 <= i < rest.len() && (#[trigger] rest[i]).1 == r.1;
                    assert(candidates[i + 1].1 == r.1);
                }
                if r.0 == b && exists|i: int|
                    0 <= i < candidates.len() && (#[trigger] candidates[i]).1 == r.1 {
                    let i = choose|i: int|
                        0 <= i < candidates.len() && (#[trigger] candidates[i]).1 == r.1;
                    if i > 0 {
                        assert(rest[i - 1].1 == r.1);
                    }
                }
            }
        }
    }
}

/// The releases that dropping some blocks amounts to.
pub open spec fn releases_of(db: Db, blocks: Seq<H256>) -> Releases {
    Set::new(
        |r: (H256, CandidateHash)| blocks.contains(r.0) && block_includes(db, r.0, r.1),
    )
}

/// The account is right: its blocks have entries, and its candidates are released from them.
pub open spec fn account_ok(db: Db, p: Pruned) -> bool {
    &&& forall|b: H256| #[trigger] p.blocks.contains(b) ==> has_block(db, b)
    &&& candidates_ok(db, p, releases_of(db, p.blocks))
}

/// Visiting a block keeps the account right, and drops the block if it has an entry.
pub(crate) proof fn lemma_visit(db: Db, b: H256, p: Pruned)
    requires
        readable(db),
        account_ok(db, p),
    ensures
        visit(db, b, p).result is Ok,
        ({
            let (q, children) = visit(db, b, p).value();
            &&& account_ok(db, q)
            &&& q.heights == p.heights
            &&& q.lists == p.lists
            &&& has_block(db, b) ==> q.blocks == p.blocks.push(b) && children == block_at(
                db,
                b,
            ).children
            &&& !has_block(db, b) ==> q == p && children == Seq::<H256>::empty()
        }),
{
    reveal(visit);
    assert(block_of(db, b) is Ok);
    if has_block(db, b) {
        let entry = block_at(db, b);
        let p1 = p.drop_block(b);
        let released = releases_of(db, p.blocks);
        assert(candidates_ok(db, p1, released));
        lemma_release(db, b, entry.candidates, p1, released);
        let q = release(db, b, entry.candidates, p1).value();
        assert(q.blocks.contains(b)) by {
            assert(q.blocks[p.blocks.len() as int] == b);
        }
        assert(forall|x: H256| #[trigger] q.blocks.contains(x) == (p.blocks.contains(x) || x == b))
            by {
            assert forall|x: H256| #[trigger] q.blocks.contains(x) implies p.blocks.contains(x) || x
                == b by {
                let i = choose|i: int| 0 <= i < q.blocks.len() && q.blocks[i] == x;
                if i < p.blocks.len() {
                    assert(p.blocks[i] == x);
                }
            }
            assert forall|x: H256| p.blocks.contains(x) implies #[trigger] q.blocks.contains(x) by {
                let i = choose|i: int| 0 <= i < p.blocks.len() && p.blocks[i] == x;
                assert(q.blocks[i] == x);
            }
        }
        assert(with_releases(released, b, entry.candidates) =~= releases_of(db, q.blocks));
    }
}

/// A block has an entry, which has the other block among its children.
pub open spec fn child_of(db: Db, b: H256, child: H256) -> bool {
    has_block(db, b) && block_at(db, b).children.contains(child)
}

/// A block is a child of a listed block that competes with the canonical one.
pub open spec fn left_behind(db: Db, target: Target, list: Seq<H256>, child: H256) -> bool {
    exists|b: H256| #[trigger] list.contains(b) && b != target.hash && child_of(db, b, child)
}

/// Visiting the blocks listed at a height drops those that have an entry, and finds the branches
/// that those left behind.
proof fn lemma_visit_listed(
    db: Db,
    target: Target,
    height: BlockNumber,
    list: Seq<H256>,
    p: Pruned,
    left: Seq<H256>,
)
    requires
        readable(db),
        account_ok(db, p),
    ensures
        visit_listed(db, target, height, list, p, left).result is Ok,
        ({
            let (q, left2) = visit_listed(db, target, height, list, p, left).value();
            &&& account_ok(db, q)
            &&& q.heights == p.heights
            &&& q.lists == p.lists
            &&& forall|b: H256| #[trigger]
                q.blocks.contains(b) == (p.blocks.contains(b) || (list.contains(b) && has_block(
                    db,
                    b,
                )))
            &&& forall|x: H256| #[trigger]
                left2.contains(x) == (left.contains(x) || (height == target.number && left_behind(
                    db,
                    target,
                    list,
                    x,
                )))
        }),
    decreases list.len(),
{
    if list.len() > 0 {
        let first = list[0];
        let rest = list.skip(1);
        lemma_visit(db, first, p);
        let (p1, children) = visit(db, first, p).value();
        let left1 = left + branches(target, height, first, children);
        lemma_visit_listed(db, target, height, rest, p1, left1);
        let (q, left2) = visit_listed(db, target, height, rest, p1, left1).value();
        assert(visit_listed(db, target, height, list, p, left).value() == (q, left2));
        assert forall|b: H256| list.contains(b) == (b == first || #[trigger] rest.contains(b)) by {
            lemma_contains_first(list, b);
        }
        assert forall|b: H256| #[trigger]
            p1.blocks.contains(b) == (p.blocks.contains(b) || (b == first && has_block(db, b))) by {
            if has_block(db, first) {
                lemma_contains_push(p.blocks, first, b);
            }
        }
        assert forall|b: H256| #[trigger]
            q.blocks.contains(b) == (p.blocks.contains(b) || (list.contains(b) && has_block(
                db,
                b,
            ))) by {
            assert(p1.blocks.contains(b) == (p.blocks.contains(b) || (b == first && has_block(
                db,
                b,
            ))));
            assert(list.contains(b) == (b == first || rest.contains(b)));
        }
        assert forall|x: H256| #[trigger]
            left2.contains(x) == (left.contains(x) || (height == target.number && left_behind(
                db,
                target,
                list,
                x,
            ))) by {
            lemma_contains_concat(left, branches(target, height, first, children), x);
            assert(left1.contains(x) == (left.contains(x) || branches(
                target,
                height,
                first,
                children,
            ).contains(x)));
            if left_behind(db, target, rest, x) {
                let b = choose|b: H256| #[trigger]
                    rest.contains(b) && b != target.hash && child_of(db, b, x);
                assert(list.contains(b));
            }
            if left_behind(db, target, list, x) {
                let b = choose|b: H256| #[trigger]
                    list.contains(b) && b != target.hash && child_of(db, b, x);
                assert(b == first || rest.contains(b));
            }
            if height == target.number && first != target.hash && children.contains(x) {
                assert(child_of(db, first, x));
                assert(list.contains(first));
            }
        }
    }
}

/// A block is listed at one of the heights from `lo` to `hi`.
pub open spec fn listed_between(db: Db, lo: BlockNumber, hi: BlockNumber, b: H256) -> bool {
    exists|h: BlockNumber| lo <= h <= hi && #[trigger] blocks_at(db, h).contains(b)
}

/// The sweep drops the blocks listed at the heights that it clears, and finds the branches that
/// blocks competing with the canonical one left behind.
pub(crate) proof fn lemma_sweep(db: Db, target: Target, height: BlockNumber, p: Pruned)
    requires
        readable(db),
        account_ok(db, p),
        height <= target.number,
    ensures
        sweep(db, target, height, p).result is Ok,
        ({
            let (q, left) = sweep(db, target, height, p).value();
            &&& account_ok(db, q)
            &&& q.lists == p.lists
            &&& forall|h: BlockNumber| #[trigger]
                q.heights.contains(h) == (p.heights.contains(h) || height <= h <= target.number)
            &&& forall|b: H256| #[trigger]
                q.blocks.contains(b) == (p.blocks.contains(b) || (has_block(db, b)
                    && listed_between(db, height, target.number, b)))
            &&& forall|x: H256| #[trigger]
                left.contains(x) == left_behind(db, target, blocks_at(db, target.number), x)
        }),
    decreases target.number - height,
{
    let list = blocks_at(db, height);
    assert(list_of(db, height) == Ok::<_, Failure>(list));
    let p1 = p.clear_height(height);
    assert(account_ok(db, p1));
    assert forall|h: BlockNumber| #[trigger]
        p1.heights.contains(h) == (p.heights.contains(h) || h == height) by {
        lemma_contains_push(p.heights, height, h);
    }
    let none = Seq::<H256>::empty();
    lemma_visit_listed(db, target, height, list, p1, none);
    let (p2, left1) = visit_listed(db, target, height, list, p1, none).value();
    if height < target.number {
        let next = (height + 1) as BlockNumber;
        lemma_sweep(db, target, next, p2);
        let (q, left) = sweep(db, target, next, p2).value();
        assert(sweep(db, target, height, p).value() == (q, left));
        assert forall|b: H256| #[trigger]
            q.blocks.contains(b) == (p.blocks.contains(b) || (has_block(db, b) && listed_between(
                db,
                height,
                target.number,
                b,
            ))) by {
            assert(p2.blocks.contains(b) == (p.blocks.contains(b) || (list.contains(b)
                && has_block(db, b))));
            if listed_between(db, height, target.number, b) {
                let h = choose|h: BlockNumber|
                    height <= h <= target.number && #[trigger] blocks_at(db, h).contains(b);
                if h > height {
                    assert(next <= h <= target.number);
                    assert(listed_between(db, next, target.number, b));
                }
            }
            if list.contains(b) {
                assert(blocks_at(db, height).contains(b));
                assert(listed_between(db, height, target.number, b));
            }
            if listed_between(db, next, target.number, b) {
                let h = choose|h: BlockNumber|
                    next <= h <= target.number && #[trigger] blocks_at(db, h).contains(b);
                assert(listed_between(db, height, target.number, b));
            }
        }
    } else {
        assert(sweep(db, target, height, p).value() == (p2, left1));
        assert forall|b: H256| #[trigger] list.contains(b) == listed_between(
            db,
            height,
            target.number,
            b,
        ) by {
            assert(blocks_at(db, height).contains(b) == list.contains(b));
        }
        assert forall|b: H256| #[trigger]
            p2.blocks.contains(b) == (p.blocks.contains(b) || (has_block(db, b) && listed_between(
                db,
                height,
                target.number,
                b,
            ))) by {
            assert(list.contains(b) == listed_between(db, height, target.number, b));
        }
    }
}

} // verus!
