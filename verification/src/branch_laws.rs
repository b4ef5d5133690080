//! What cutting the branches that compete with a canonical block prunes.
use crate::hashes::{lemma_remove_first_len, remove_first};
use crate::operation::done;
use crate::pruning::{descend, known, place, strike, visit, Pruned};
use crate::pruning_laws::{account_ok, child_of, distinct, lemma_known, lemma_visit};
use crate::sequences::{lemma_contains_first, lemma_contains_push};
use crate::store::{list_of, Db, Failure};
use crate::store_laws::{block_at, blocks_at, has_block, readable};
use crate::types::{BlockNumber, H256};
use vstd::prelude::*;

verus! {

/// Blocks that are taken off the lists at the given heights.
pub type Strikes = Set<(BlockNumber, H256)>;

/// The blocks that are taken off the list at a height.
pub open spec fn struck_at(struck: Strikes, h: BlockNumber) -> Set<H256> {
    Set::new(|b: H256| struck.contains((h, b)))
}

/// Some block is taken off the list at a height.
pub open spec fn any_struck_at(struck: Strikes, h: BlockNumber) -> bool {
    exists|b: H256| #[trigger] struck.contains((h, b))
}

/// The blocks on a list that are not among the given ones, in their order.
pub open spec fn remaining(list: Seq<H256>, gone: Set<H256>) -> Seq<H256>
    decreases list.len(),
{
    if list.len() == 0 {
        list
    } else if gone.contains(list[0]) {
        remaining(list.skip(1), gone)
    } else {
        seq![list[0]] + remaining(list.skip(1), gone)
    }
}

/// What remains of a list is on the list, and not gone.
pub(crate) proof fn lemma_remaining(list: Seq<H256>, gone: Set<H256>)
    ensures
        remaining(list, gone).len() <= list.len(),
        forall|b: H256| #[trigger]
            remaining(list, gone).contains(b) == (list.contains(b) && !gone.contains(b)),
        list.no_duplicates() ==> remaining(list, gone).no_duplicates(),
    decreases list.len(),
{
    if list.len() > 0 {
        let first = list[0];
        let rest = list.skip(1);
        let tail = remaining(rest, gone);
        let whole = remaining(list, gone);
        lemma_remaining(rest, gone);
        assert forall|b: H256| #[trigger]
            whole.contains(b) == (list.contains(b) && !gone.contains(b)) by {
            lemma_contains_first(list, b);
            if !gone.contains(first) {
                assert(whole[0] == first);
                assert(whole.skip(1) =~= tail);
                lemma_contains_first(whole, b);
            }
            assert(tail.contains(b) == (rest.contains(b) && !gone.contains(b)));
        }
        if list.no_duplicates() {
            assert(rest.no_duplicates());
            if !gone.contains(first) {
                assert(!rest.contains(first)) by {
                    if rest.contains(first) {
                        let i = choose|i: int| 0 <= i < rest.len() && rest[i] == first;
                        assert(list[i + 1] == list[0]);
                    }
                }
                assert(!tail.contains(first));
                assert forall|i: int, j: int|
                    0 <= i < whole.len() && 0 <= j < whole.len() && i != j implies whole[i]
                    != whole[j] by {
                    if i > 0 {
                        assert(whole[i] == tail[i - 1]);
                        assert(tail.contains(whole[i]));
                    }
                    if j > 0 {
                        assert(whole[j] == tail[j - 1]);
                        assert(tail.contains(whole[j]));
                    }
                }
            }
        }
    }
}

/// Nothing is gone from a list if nothing is gone.
pub(crate) proof fn lemma_remaining_all(list: Seq<H256>, gone: Set<H256>)
    requires
        forall|b: H256| list.contains(b) ==> !gone.contains(b),
    ensures
        remaining(list, gone) == list,
    decreases list.len(),
{
    if list.len() > 0 {
        let rest = list.skip(1);
        assert(list.contains(list[0]));
        assert forall|b: H256| rest.contains(b) implies !gone.contains(b) by {
            lemma_contains_first(list, b);
        }
        lemma_remaining_all(rest, gone);
        assert(seq![list[0]] + rest =~= list);
    }
}

/// A block that is not on a list does not matter to what remains of it.
proof fn lemma_remaining_absent(list: Seq<H256>, gone: Set<H256>, b: H256)
    requires
        !list.contains(b),
    ensures
        remaining(list, gone.insert(b)) == remaining(list, gone),
    decreases list.len(),
{
    if list.len() > 0 {
        lemma_contains_first(list, b);
        assert(list[0] != b) by {
            assert(list.contains(list[0]));
        }
        lemma_remaining_absent(list.skip(1), gone, b);
    }
}

/// Taking one more block off a list on which no block occurs twice.
proof fn lemma_remaining_strike(list: Seq<H256>, gone: Set<H256>, b: H256)
    requires
        list.no_duplicates(),
    ensures
        remove_first(remaining(list, gone), b) == remaining(list, gone.insert(b)),
    decreases list.len(),
{
    if list.len() > 0 {
        let first = list[0];
        let rest = list.skip(1);
        let tail = remaining(rest, gone);
        assert(rest.no_duplicates());
        lemma_remaining_strike(rest, gone, b);
        if !gone.contains(first) {
            let whole = seq![first] + tail;
            assert(whole[0] == first);
            assert(whole.skip(1) =~= tail);
            if first == b {
                assert(!rest.contains(b)) by {
                    if rest.contains(b) {
                        let i = choose|i: int| 0 <= i < rest.len() && rest[i] == b;
                        assert(list[i + 1] == list[0]);
                    }
                }
                lemma_remaining_absent(rest, gone, b);
            }
        }
    }
}

/// The account of the lists is right for the given strikes.
pub open spec fn lists_ok(db: Db, p: Pruned, struck: Strikes) -> bool {
    &&& distinct(p.lists)
    &&& forall|h: BlockNumber| #[trigger] known(p.lists, h) == any_struck_at(struck, h)
    &&& forall|i: int|
        0 <= i < p.lists.len() ==> list_ok(db, #[trigger] p.lists[i], struck)
}

/// A list in the account is what remains of the list at that height.
pub open spec fn list_ok(db: Db, item: (BlockNumber, Seq<H256>), struck: Strikes) -> bool {
    let list = blocks_at(db, item.0);
    &&& item.1.len() <= list.len()
    &&& list.no_duplicates() ==> item.1 == remaining(list, struck_at(struck, item.0))
}

/// A strike at another height does not change a list.
proof fn lemma_struck_other(struck: Strikes, h: BlockNumber, b: H256, other: BlockNumber)
    requires
        h != other,
    ensures
        struck_at(struck.insert((h, b)), other) == struck_at(struck, other),
        any_struck_at(struck.insert((h, b)), other) == any_struck_at(struck, other),
{
    let more = struck.insert((h, b));
    assert(struck_at(more, other) =~= struck_at(struck, other));
    if any_struck_at(more, other) {
        let x = choose|x: H256| #[trigger] more.contains((other, x));
        assert(struck.contains((other, x)));
    }
    if any_struck_at(struck, other) {
        let x = choose|x: H256| #[trigger] struck.contains((other, x));
        assert(more.contains((other, x)));
    }
}

/// Taking a block off the list at its height keeps the account right.
pub(crate) proof fn lemma_strike(db: Db, h: BlockNumber, b: H256, p: Pruned, struck: Strikes)
    requires
        readable(db),
        lists_ok(db, p, struck),
    ensures
        strike(db, h, b, p).result is Ok,
        ({
            let q = strike(db, h, b, p).value();
            &&& lists_ok(db, q, struck.insert((h, b)))
            &&& q.heights == p.heights
            &&& q.blocks == p.blocks
            &&& q.candidates == p.candidates
        }),
{
    reveal(strike);
    let more = struck.insert((h, b));
    let list = blocks_at(db, h);
    assert(list_of(db, h) == Ok::<_, Failure>(list));
    assert(struck_at(more, h) =~= struck_at(struck, h).insert(b));
    assert(more.contains((h, b)));
    lemma_known(p.lists, h);
    let q = strike(db, h, b, p).value();
    if known(p.lists, h) {
        let k = place(p.lists, h);
        let before = p.lists[k].1;
        assert(list_ok(db, p.lists[k], struck));
        lemma_remove_first_len(before, b);
        if list.no_duplicates() {
            lemma_remaining_strike(list, struck_at(struck, h), b);
        }
        assert(q.lists =~= p.lists.update(k, (h, remove_first(before, b))));
        assert(list_ok(db, q.lists[k], more));
        assert forall|i: int| 0 <= i < q.lists.len() implies list_ok(
            db,
            #[trigger] q.lists[i],
            more,
        ) by {
            if i != k {
                assert(q.lists[i] == p.lists[i]);
                assert(p.lists[i].0 != p.lists[k].0);
                assert(list_ok(db, p.lists[i], struck));
                lemma_struck_other(struck, h, b, p.lists[i].0);
            }
        }
        assert forall|g: BlockNumber| #[trigger] known(q.lists, g) == any_struck_at(more, g) by {
            lemma_known(q.lists, g);
            lemma_known(p.lists, g);
            if known(p.lists, g) {
                let i = place(p.lists, g);
                assert(q.lists[i].0 == g);
            }
            if known(q.lists, g) {
                let i = place(q.lists, g);
                assert(p.lists[i].0 == g);
            }
            if g != h {
                lemma_struck_other(struck, h, b, g);
            }
        }
    } else {
        let n = p.lists.len() as int;
        assert(q.lists =~= p.lists.push((h, remove_first(list, b))));
        lemma_remove_first_len(list, b);
        if list.no_duplicates() {
            assert forall|x: H256| list.contains(x) implies !struck_at(struck, h).contains(x) by {
                if struck.contains((h, x)) {
                    assert(any_struck_at(struck, h));
                }
            }
            lemma_remaining_all(list, struck_at(struck, h));
            lemma_remaining_strike(list, struck_at(struck, h), b);
        }
        assert(list_ok(db, q.lists[n], more));
        assert forall|i: int| 0 <= i < q.lists.len() implies list_ok(
            db,
            #[trigger] q.lists[i],
            more,
        ) by {
            if i < n {
                assert(q.lists[i] == p.lists[i]);
                assert(list_ok(db, p.lists[i], struck));
                lemma_struck_other(struck, h, b, p.lists[i].0);
            }
        }
        assert forall|g: BlockNumber| #[trigger] known(q.lists, g) == any_struck_at(more, g) by {
            lemma_known(q.lists, g);
            lemma_known(p.lists, g);
            if known(p.lists, g) {
                let i = place(p.lists, g);
                assert(q.lists[i].0 == g);
            }
            if known(q.lists, g) {
                let i = place(q.lists, g);
                if i < n {
                    assert(p.lists[i].0 == g);
                }
            }
            if g != h {
                lemma_struck_other(struck, h, b, g);
            } else {
                assert(q.lists[n].0 == h);
            }
        }
        assert(distinct(q.lists));
    }
}

/// A block is found from another one by going from block to child, `steps` times.
pub open spec fn reaches(db: Db, from: H256, to: H256, steps: nat) -> bool
    decreases steps,
{
    if steps == 0 {
        from == to
    } else {
        exists|child: H256| #[trigger]
            child_of(db, from, child) && reaches(db, child, to, (steps - 1) as nat)
    }
}

/// A block is found from one of the given blocks.
pub open spec fn found_from(db: Db, blocks: Seq<H256>, b: H256) -> bool {
    exists|x: H256, steps: nat| blocks.contains(x) && #[trigger] reaches(db, x, b, steps)
}

/// A block is found from one of the given blocks at height `h`, and is then at height `g`.
pub open spec fn met_from(
    db: Db,
    h: BlockNumber,
    blocks: Seq<H256>,
    g: BlockNumber,
    b: H256,
) -> bool {
    exists|x: H256, steps: nat|
        blocks.contains(x) && g == h + steps && #[trigger] reaches(db, x, b, steps)
}

/// The strikes with those of all the blocks that are found from the given ones.
pub open spec fn with_strikes(
    db: Db,
    struck: Strikes,
    h: BlockNumber,
    blocks: Seq<H256>,
) -> Strikes {
    Set::new(|s: (BlockNumber, H256)| struck.contains(s) || met_from(db, h, blocks, s.0, s.1))
}

/// The children that a block's entry names.
pub open spec fn children_of(db: Db, b: H256) -> Seq<H256> {
    if has_block(db, b) {
        block_at(db, b).children
    } else {
        Seq::empty()
    }
}

/// What is found from some blocks is the last one, what is found from its children, and what is
/// found from the others.
proof fn lemma_found_split(db: Db, blocks: Seq<H256>, b: H256)
    requires
        blocks.len() > 0,
    ensures
        found_from(db, blocks, b) == (b == blocks.last() || found_from(
            db,
            children_of(db, blocks.last()),
            b,
        ) || found_from(db, blocks.drop_last(), b)),
{
    let last = blocks.last();
    let fewer = blocks.drop_last();
    let children = children_of(db, last);
    assert(blocks =~= fewer.push(last));
    if found_from(db, blocks, b) {
        let (x, steps) = choose|x: H256, steps: nat|
            blocks.contains(x) && #[trigger] reaches(db, x, b, steps);
        lemma_contains_push(fewer, last, x);
        if x == last && steps > 0 {
            let c = choose|c: H256| #[trigger]
                child_of(db, x, c) && reaches(db, c, b, (steps - 1) as nat);
            assert(children.contains(c));
            assert(found_from(db, children, b));
        }
    }
    lemma_contains_push(fewer, last, last);
    if b == last {
        assert(reaches(db, last, b, 0));
    }
    if found_from(db, children, b) {
        let (c, steps) = choose|c: H256, steps: nat|
            children.contains(c) && #[trigger] reaches(db, c, b, steps);
        assert(child_of(db, last, c));
        assert(reaches(db, c, b, ((steps + 1) - 1) as nat));
        assert(reaches(db, last, b, steps + 1));
    }
    if found_from(db, fewer, b) {
        let (x, steps) = choose|x: H256, steps: nat|
            fewer.contains(x) && #[trigger] reaches(db, x, b, steps);
        lemma_contains_push(fewer, last, x);
        assert(blocks.contains(x));
    }
}

/// The same with the heights.
proof fn lemma_met_split(db: Db, h: BlockNumber, blocks: Seq<H256>, g: BlockNumber, b: H256)
    requires
        blocks.len() > 0,
    ensures
        met_from(db, h, blocks, g, b) == ((b == blocks.last() && g == h) || (h < u32::MAX
            && met_from(
            db,
            (h + 1) as BlockNumber,
            children_of(db, blocks.last()),
            g,
            b,
        )) || met_from(db, h, blocks.drop_last(), g, b)),
{
    let last = blocks.last();
    let fewer = blocks.drop_last();
    let children = children_of(db, last);
    assert(blocks =~= fewer.push(last));
    if met_from(db, h, blocks, g, b) {
        let (x, steps) = choose|x: H256, steps: nat|
            blocks.contains(x) && g == h + steps && #[trigger] reaches(db, x, b, steps);
        lemma_contains_push(fewer, last, x);
        if x == last && steps > 0 {
            let c = choose|c: H256| #[trigger]
                child_of(db, x, c) && reaches(db, c, b, (steps - 1) as nat);
            assert(children.contains(c));
            assert(g == (h + 1) + (steps - 1) as nat);
            assert(met_from(db, (h + 1) as BlockNumber, children, g, b));
        } else if x != last {
            assert(fewer.contains(x));
            assert(met_from(db, h, fewer, g, b));
        }
    }
    lemma_contains_push(fewer, last, last);
    if b == last && g == h {
        assert(reaches(db, last, b, 0));
        assert(g == h + 0nat);
        assert(met_from(db, h, blocks, g, b));
    }
    if h < u32::MAX && met_from(db, (h + 1) as BlockNumber, children, g, b) {
        let (c, steps) = choose|c: H256, steps: nat|
            children.contains(c) && g == (h + 1) + steps && #[trigger] reaches(db, c, b, steps);
        assert(child_of(db, last, c));
        assert(reaches(db, c, b, ((steps + 1) - 1) as nat));
        assert(reaches(db, last, b, steps + 1));
        assert(g == h + (steps + 1));
        assert(met_from(db, h, blocks, g, b));
    }
    if met_from(db, h, fewer, g, b) {
        let (x, steps) = choose|x: H256, steps: nat|
            fewer.contains(x) && g == h + steps && #[trigger] reaches(db, x, b, steps);
        lemma_contains_push(fewer, last, x);
        assert(blocks.contains(x));
        assert(met_from(db, h, blocks, g, b));
    }
}

/// What is known of the account after some branches were cut.
pub open spec fn branches_cut(
    db: Db,
    h: BlockNumber,
    blocks: Seq<H256>,
    p: Pruned,
    struck: Strikes,
    q: Pruned,
) -> bool {
    &&& account_ok(db, q)
    &&& lists_ok(db, q, with_strikes(db, struck, h, blocks))
    &&& q.heights == p.heights
    &&& forall|b: H256| #[trigger]
        q.blocks.contains(b) == (p.blocks.contains(b) || (has_block(db, b) && found_from(
            db,
            blocks,
            b,
        )))
}

/// Cutting branches drops every block that is found from the given ones, and takes each off the
/// list at the height at which it is met.
pub(crate) proof fn lemma_descend(
    db: Db,
    h: BlockNumber,
    blocks: Seq<H256>,
    p: Pruned,
    struck: Strikes,
)
    requires
        readable(db),
        account_ok(db, p),
        lists_ok(db, p, struck),
        descend(db, h, blocks, p).result is Ok,
    ensures
        branches_cut(db, h, blocks, p, struck, descend(db, h, blocks, p).value()),
    decreases u32::MAX - h, blocks.len(),
{
    if blocks.len() == 0 {
        assert(with_strikes(db, struck, h, blocks) =~= struck);
    } else {
        let last = blocks.last();
        let fewer = blocks.drop_last();
        let children = children_of(db, last);
        lemma_visit(db, last, p);
        let v = visit(db, last, p);
        let p1 = v.value().0;
        assert(v.value().1 == children);
        lemma_strike(db, h, last, p1, struck);
        let s = strike(db, h, last, p1);
        let p2 = s.value();
        let struck2 = struck.insert((h, last));
        assert(account_ok(db, p2));
        let d = if children.len() > 0 {
            descend(db, (h + 1) as BlockNumber, children, p2)
        } else {
            done(p2)
        };
        let p3 = d.value();
        let struck3 = if children.len() > 0 {
            with_strikes(db, struck2, (h + 1) as BlockNumber, children)
        } else {
            struck2
        };
        if children.len() > 0 {
            lemma_descend(db, (h + 1) as BlockNumber, children, p2, struck2);
        }
        lemma_descend(db, h, fewer, p3, struck3);
        let q = descend(db, h, fewer, p3).value();
        assert(descend(db, h, blocks, p).value() == q);
        assert forall|b: H256| #[trigger]
            q.blocks.contains(b) == (p.blocks.contains(b) || (has_block(db, b) && found_from(
                db,
                blocks,
                b,
            ))) by {
            lemma_found_split(db, blocks, b);
            if has_block(db, last) {
                lemma_contains_push(p.blocks, last, b);
            }
            assert(p1.blocks.contains(b) == (p.blocks.contains(b) || (has_block(db, b) && b
                == last)));
            if children.len() > 0 {
                assert(p3.blocks.contains(b) == (p2.blocks.contains(b) || (has_block(db, b)
                    && found_from(db, children, b))));
            } else {
                assert(!found_from(db, children, b));
            }
        }
        assert(with_strikes(db, struck3, h, fewer) =~= with_strikes(db, struck, h, blocks)) by {
            assert forall|t: (BlockNumber, H256)|
                with_strikes(db, struck3, h, fewer).contains(t) == with_strikes(
                    db,
                    struck,
                    h,
                    blocks,
                ).contains(t) by {
                lemma_met_split(db, h, blocks, t.0, t.1);
            }
        }
    }
}

} // verus!
