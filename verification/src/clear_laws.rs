//! What clearing the database does to it.
use crate::canonicalize_laws::{lemma_block_keys, lemma_height_keys};
use crate::clear::{
    candidate_hashes, candidate_keys, clear_plan, clearing_batch, look_at_heights, look_at_listed,
    Found,
};
use crate::consistency::{
    clearable, consistent, in_range, is_listed, is_under, without_entries_is_clearable,
};
use crate::keys::{block_key, candidate_key, height_key, range_key};
use crate::pruning_laws::block_includes;
use crate::sequences::{lemma_contains_concat, lemma_contains_first, lemma_contains_push};
use crate::store::{
    after_end, after_outcome, after_writes, block_keys, block_of, candidate_of, height_keys,
    list_of, lookup, range_of, Batch, Db, Failure,
};
use crate::store_laws::{
    block_at, blocks_at, candidate_at, deleted_is_gone, has_block, has_candidate, insertions_keep,
    ours, readable, undeleted_stays,
};
use crate::types::{BlockNumber, CandidateHash, CoreIndex, StoredBlockRange, H256};
use vstd::prelude::*;

verus! {

/// A block on a list includes a candidate.
pub open spec fn list_includes(db: Db, list: Seq<H256>, c: CandidateHash) -> bool {
    exists|b: H256| #[trigger] list.contains(b) && block_includes(db, b, c)
}

/// Looking at the blocks listed at a height finds those that have an entry, and the candidates that
/// they include.
proof fn lemma_look_at_listed(db: Db, list: Seq<H256>, f: Found)
    requires
        readable(db),
    ensures
        look_at_listed(db, list, f).result is Ok,
        ({
            let g = look_at_listed(db, list, f).value();
            &&& g.heights == f.heights
            &&& forall|b: H256| #[trigger]
                g.blocks.contains(b) == (f.blocks.contains(b) || (list.contains(b) && has_block(
                    db,
                    b,
                )))
            &&& forall|c: CandidateHash| #[trigger]
                g.candidates.contains(c) == (f.candidates.contains(c) || list_includes(
                    db,
                    list,
                    c,
                ))
        }),
    decreases list.len(),
{
    if list.len() > 0 {
        let first = list[0];
        let rest = list.skip(1);
        assert(block_of(db, first) is Ok);
        let f1 = if has_block(db, first) {
            f.block(first, block_at(db, first).candidates)
        } else {
            f
        };
        lemma_look_at_listed(db, rest, f1);
        let g = look_at_listed(db, rest, f1).value();
        assert(look_at_listed(db, list, f).value() == g);
        assert forall|b: H256| #[trigger]
            g.blocks.contains(b) == (f.blocks.contains(b) || (list.contains(b) && has_block(
                db,
                b,
            ))) by {
            lemma_contains_first(list, b);
            if has_block(db, first) {
                lemma_contains_push(f.blocks, first, b);
            }
            assert(f1.blocks.contains(b) == (f.blocks.contains(b) || (b == first && has_block(
                db,
                b,
            ))));
        }
        assert forall|c: CandidateHash| #[trigger]
            g.candidates.contains(c) == (f.candidates.contains(c) || list_includes(
                db,
                list,
                c,
            )) by {
            if has_block(db, first) {
                let s = block_at(db, first).candidates;
                lemma_contains_concat(f.candidates, candidate_hashes(s), c);
                lemma_candidate_hashes(s, c);
            }
            assert(f1.candidates.contains(c) == (f.candidates.contains(c) || block_includes(
                db,
                first,
                c,
            )));
            if list_includes(db, list, c) {
                let b = choose|b: H256| #[trigger] list.contains(b) && block_includes(db, b, c);
                lemma_contains_first(list, b);
            }
            if list_includes(db, rest, c) {
                let b = choose|b: H256| #[trigger] rest.contains(b) && block_includes(db, b, c);
                lemma_contains_first(list, b);
                assert(list.contains(b));
            }
            assert(list.contains(first));
        }
    }
}

/// Which hashes are those of a block's candidates.
proof fn lemma_candidate_hashes(s: Seq<(CoreIndex, CandidateHash)>, c: CandidateHash)
    ensures
        candidate_hashes(s).contains(c) == exists|i: int|
            0 <= i < s.len() && (#[trigger] s[i]).1 == c,
{
    let hashes = candidate_hashes(s);
    if hashes.contains(c) {
        let i = choose|i: int| 0 <= i < hashes.len() && hashes[i] == c;
        assert(s[i].1 == c);
    }
    if exists|i: int| 0 <= i < s.len() && (#[trigger] s[i]).1 == c {
        let i = choose|i: int| 0 <= i < s.len() && (#[trigger] s[i]).1 == c;
        assert(hashes[i] == c);
    }
}

/// A block is listed at a height from `lo` on, below `hi`.
pub open spec fn listed_below(db: Db, lo: BlockNumber, hi: BlockNumber, b: H256) -> bool {
    exists|h: BlockNumber| lo <= h < hi && #[trigger] blocks_at(db, h).contains(b)
}

/// A block listed at a height from `lo` on, below `hi`, includes a candidate.
pub open spec fn included_below(
    db: Db,
    lo: BlockNumber,
    hi: BlockNumber,
    c: CandidateHash,
) -> bool {
    exists|h: BlockNumber| lo <= h < hi && #[trigger] list_includes(db, blocks_at(db, h), c)
}

/// Looking at some heights finds the blocks listed there and the candidates that they include.
proof fn lemma_look_at_heights(db: Db, height: BlockNumber, top: BlockNumber, f: Found)
    requires
        readable(db),
    ensures
        look_at_heights(db, height, top, f).result is Ok,
        ({
            let g = look_at_heights(db, height, top, f).value();
            &&& forall|h: BlockNumber| #[trigger]
                g.heights.contains(h) == (f.heights.contains(h) || height <= h < top)
            &&& forall|b: H256| #[trigger]
                g.blocks.contains(b) == (f.blocks.contains(b) || (listed_below(
                    db,
                    height,
                    top,
                    b,
                ) && has_block(db, b)))
            &&& forall|c: CandidateHash| #[trigger]
                g.candidates.contains(c) == (f.candidates.contains(c) || included_below(
                    db,
                    height,
                    top,
                    c,
                ))
        }),
    decreases top - height,
{
    if height < top {
        let list = blocks_at(db, height);
        let next = (height + 1) as BlockNumber;
        assert(list_of(db, height) is Ok);
        let f1 = f.height(height);
        lemma_look_at_listed(db, list, f1);
        let f2 = look_at_listed(db, list, f1).value();
        lemma_look_at_heights(db, next, top, f2);
        let g = look_at_heights(db, next, top, f2).value();
        assert(look_at_heights(db, height, top, f).value() == g);
        assert forall|h: BlockNumber| #[trigger]
            g.heights.contains(h) == (f.heights.contains(h) || height <= h < top) by {
            lemma_contains_push(f.heights, height, h);
            assert(f2.heights.contains(h) == (f.heights.contains(h) || h == height));
        }
        assert forall|b: H256| #[trigger]
            g.blocks.contains(b) == (f.blocks.contains(b) || (listed_below(db, height, top, b)
                && has_block(db, b))) by {
            assert(f2.blocks.contains(b) == (f.blocks.contains(b) || (list.contains(b)
                && has_block(db, b))));
            if listed_below(db, height, top, b) {
                let h = choose|h: BlockNumber|
                    height <= h < top && #[trigger] blocks_at(db, h).contains(b);
                if h > height {
                    assert(next <= h < top);
                }
            }
            if listed_below(db, next, top, b) {
                let h = choose|h: BlockNumber|
                    next <= h < top && #[trigger] blocks_at(db, h).contains(b);
                assert(height <= h < top);
            }
            if list.contains(b) {
                assert(blocks_at(db, height).contains(b));
            }
        }
        assert forall|c: CandidateHash| #[trigger]
            g.candidates.contains(c) == (f.candidates.contains(c) || included_below(
                db,
                height,
                top,
                c,
            )) by {
            assert(f2.candidates.contains(c) == (f.candidates.contains(c) || list_includes(
                db,
                list,
                c,
            )));
            if included_below(db, height, top, c) {
                let h = choose|h: BlockNumber|
                    height <= h < top && #[trigger] list_includes(db, blocks_at(db, h), c);
                if h > height {
                    assert(next <= h < top);
                }
            }
            if included_below(db, next, top, c) {
                let h = choose|h: BlockNumber|
                    next <= h < top && #[trigger] list_includes(db, blocks_at(db, h), c);
                assert(height <= h < top);
            }
            if list_includes(db, list, c) {
                assert(list_includes(db, blocks_at(db, height), c));
            }
        }
    }
}

/// Which keys are those of some candidates.
proof fn lemma_candidate_keys(candidates: Seq<CandidateHash>, key: Seq<u8>)
    ensures
        candidate_keys(candidates).contains(key) == exists|c: CandidateHash| #[trigger]
            candidates.contains(c) && key == candidate_key(c),
{
    let keys = candidate_keys(candidates);
    if keys.contains(key) {
        let i = choose|i: int| 0 <= i < keys.len() && keys[i] == key;
        assert(candidates.contains(candidates[i]));
    }
    if exists|c: CandidateHash| #[trigger] candidates.contains(c) && key == candidate_key(c) {
        let c = choose|c: CandidateHash| #[trigger]
            candidates.contains(c) && key == candidate_key(c);
        let i = choose|i: int| 0 <= i < candidates.len() && candidates[i] == c;
        assert(keys[i] == key);
    }
}

/// What is deleted.
proof fn lemma_cleared(f: Found, key: Seq<u8>)
    ensures
        clearing_batch(f).deleted.contains(key) == ({
            ||| key == range_key()
            ||| exists|h: BlockNumber| #[trigger] f.heights.contains(h) && key == height_key(h)
            ||| exists|b: H256| #[trigger] f.blocks.contains(b) && key == block_key(b)
            ||| exists|c: CandidateHash| #[trigger]
                f.candidates.contains(c) && key == candidate_key(c)
        }),
{
    let d1 = height_keys(f.heights);
    let d2 = block_keys(f.blocks);
    let d3 = candidate_keys(f.candidates);
    let d4 = seq![range_key()];
    lemma_contains_concat(d1 + d2 + d3, d4, key);
    lemma_contains_concat(d1 + d2, d3, key);
    lemma_contains_concat(d1, d2, key);
    lemma_height_keys(f.heights, key);
    lemma_block_keys(f.blocks, key);
    lemma_candidate_keys(f.candidates, key);
    assert(d4[0] == range_key());
    if d4.contains(key) {
        let i = choose|i: int| 0 <= i < d4.len() && d4[i] == key;
        assert(i == 0);
    }
}

/// A value stays exactly if it is not deleted.
proof fn lemma_after_clearing(db: Db, f: Found, key: Seq<u8>)
    ensures
        lookup(after_writes(db, clearing_batch(f)), key) == (if clearing_batch(
            f,
        ).deleted.contains(key) {
            None
        } else {
            lookup(db, key)
        }),
{
    let batch = clearing_batch(f);
    if batch.deleted.contains(key) {
        deleted_is_gone(db, batch, key);
    } else {
        undeleted_stays(db, batch, key);
        insertions_keep(db, batch.inserted, key);
    }
}

/// A clearing deletes a value: the range, the list at a height of the range, the entry of a block
/// listed there, or the entry of a candidate that such a block includes.
pub open spec fn is_cleared(db: Db, range: StoredBlockRange, key: Seq<u8>) -> bool {
    ||| key == range_key()
    ||| exists|h: BlockNumber| range.0 <= h < range.1 && key == #[trigger] height_key(h)
    ||| exists|b: H256|
        listed_below(db, range.0, range.1, b) && has_block(db, b) && key == #[trigger] block_key(b)
    ||| exists|c: CandidateHash|
        included_below(db, range.0, range.1, c) && key == #[trigger] candidate_key(c)
}

/// Clearing a database that can be read succeeds, and deletes the range, the lists at its heights,
/// the entries of the blocks listed there, and the entries of the candidates that those include.
/// Everything else stays as it is. Nothing is done if there is no range.
pub proof fn clearing_deletes_what_is_stored(db: Db, key: Seq<u8>)
    requires
        readable(db),
    ensures
        clear_plan(db).result is Ok,
        lookup(after_outcome(db, clear_plan(db).value()), key) == (match range_of(db)->Ok_0 {
            Some(range) => if is_cleared(db, range, key) {
                None
            } else {
                lookup(db, key)
            },
            None => lookup(db, key),
        }),
{
    match range_of(db)->Ok_0 {
        None => {},
        Some(range) => {
            let none = Found::nothing();
            lemma_look_at_heights(db, range.0, range.1, none);
            let f = look_at_heights(db, range.0, range.1, none).value();
            assert(clear_plan(db).value() == Some(clearing_batch(f)));
            lemma_cleared(f, key);
            lemma_after_clearing(db, f, key);
            let gone = clearing_batch(f).deleted.contains(key);
            if gone {
                if exists|h: BlockNumber| #[trigger] f.heights.contains(h) && key == height_key(
                    h,
                ) {
                    let h = choose|h: BlockNumber| #[trigger]
                        f.heights.contains(h) && key == height_key(h);
                    assert(range.0 <= h < range.1);
                } else if exists|b: H256| #[trigger] f.blocks.contains(b) && key == block_key(b) {
                    let b = choose|b: H256| #[trigger] f.blocks.contains(b) && key == block_key(b);
                    assert(listed_below(db, range.0, range.1, b) && has_block(db, b));
                } else if key != range_key() {
                    let c = choose|c: CandidateHash| #[trigger]
                        f.candidates.contains(c) && key == candidate_key(c);
                    assert(included_below(db, range.0, range.1, c));
                }
            }
            if is_cleared(db, range, key) {
                if exists|h: BlockNumber|
                    range.0 <= h < range.1 && key == #[trigger] height_key(h) {
                    let h = choose|h: BlockNumber|
                        range.0 <= h < range.1 && key == #[trigger] height_key(h);
                    assert(f.heights.contains(h));
                } else if exists|b: H256|
                    listed_below(db, range.0, range.1, b) && has_block(db, b) && key
                        == #[trigger] block_key(b) {
                    let b = choose|b: H256|
                        listed_below(db, range.0, range.1, b) && has_block(db, b) && key
                            == #[trigger] block_key(b);
                    assert(f.blocks.contains(b));
                } else if key != range_key() {
                    let c = choose|c: CandidateHash|
                        included_below(db, range.0, range.1, c) && key
                            == #[trigger] candidate_key(c);
                    assert(f.candidates.contains(c));
                }
            }
        },
    }
}

/// Clearing a clearable database leaves nothing of it behind.
pub proof fn clearing_leaves_nothing(db: Db, key: Seq<u8>)
    requires
        clearable(db),
        ours(key),
    ensures
        clear_plan(db).result is Ok,
        lookup(after_outcome(db, clear_plan(db).value()), key) is None,
{
    clearing_deletes_what_is_stored(db, key);
    if lookup(db, key) is Some {
        if key == range_key() {
        } else if exists|h: BlockNumber| key == #[trigger] height_key(h) {
            let h = choose|h: BlockNumber| key == #[trigger] height_key(h);
            assert(in_range(db, h));
        } else if exists|b: H256| key == #[trigger] block_key(b) {
            let b = choose|b: H256| key == #[trigger] block_key(b);
            assert(block_of(db, b) is Ok);
            lemma_block_in_range(db, b);
        } else {
            let c = choose|c: CandidateHash| key == #[trigger] candidate_key(c);
            assert(candidate_of(db, c) is Ok);
            assert(has_candidate(db, c));
            let m = candidate_at(db, c).block_assignments;
            assert(exists|b: H256| #[trigger] m.contains_key(b)) by {
                if !(exists|b: H256| #[trigger] m.contains_key(b)) {
                    assert(m =~= Map::empty());
                }
            }
            let b = choose|b: H256| #[trigger] m.contains_key(b);
            assert(is_under(db, c, b));
            lemma_block_in_range(db, b);
            let range = range_of(db)->Ok_0->Some_0;
            let h = choose|h: BlockNumber|
                range.0 <= h < range.1 && #[trigger] blocks_at(db, h).contains(b);
            assert(list_includes(db, blocks_at(db, h), c));
            assert(included_below(db, range.0, range.1, c));
        }
    }
}

/// In a clearable database, a block with an entry is listed at a height of the range.
proof fn lemma_block_in_range(db: Db, b: H256)
    requires
        clearable(db),
        has_block(db, b),
    ensures
        range_of(db) matches Ok(Some(range)) && listed_below(db, range.0, range.1, b),
{
    assert(is_listed(db, b));
    let h = choose|h: BlockNumber| #[trigger] blocks_at(db, h).contains(b);
    crate::consistency::lemma_listed_in_range(db, h, b);
}

/// Clearing leaves alone what does not belong to the database.
pub proof fn clearing_leaves_other_values(db: Db, key: Seq<u8>)
    requires
        !ours(key),
    ensures
        lookup(after_end(db, clear_plan(db).result), key) == lookup(db, key),
{
    if let Ok(Some(batch)) = clear_plan(db).result {
        let range = range_of(db)->Ok_0->Some_0;
        let f = look_at_heights(db, range.0, range.1, Found::nothing()).value();
        assert(batch == clearing_batch(f));
        lemma_cleared(f, key);
        lemma_after_clearing(db, f, key);
    }
}

/// Clearing does nothing if nothing is stored.
pub proof fn clearing_nothing_does_nothing(db: Db)
    requires
        range_of(db) matches Ok(None),
    ensures
        clear_plan(db).result == Ok::<Option<Batch>, Failure>(None),
{
}

/// A cleared database is consistent.
pub proof fn clearing_makes_consistent(db: Db)
    requires
        clearable(db),
    ensures
        clear_plan(db).result is Ok,
        consistent(after_outcome(db, clear_plan(db).value())),
{
    let db2 = after_outcome(db, clear_plan(db).value());
    assert forall|key: Seq<u8>| #[trigger] ours(key) implies !db2.contains_key(key) by {
        clearing_leaves_nothing(db, key);
    }
    clearing_deletes_what_is_stored(db, range_key());
    without_entries_is_clearable(db2);
}

/// Of a database that can be read, clearing deletes exactly: the range; the list at every height of
/// the range; the entry of every block on these lists; and the entry of every candidate that is
/// among those of such a block's entry. Every other value stays as it is.
pub proof fn clearing_deletes_exactly(db: Db, range: StoredBlockRange, key: Seq<u8>)
    requires
        readable(db),
        range_of(db) == Ok::<Option<StoredBlockRange>, Failure>(Some(range)),
    ensures
        clear_plan(db).result matches Ok(Some(batch)) && {
            let after = after_writes(db, batch);
            &&& !after.contains_key(range_key())
            &&& forall|h: BlockNumber|
                range.0 <= h < range.1 ==> !after.contains_key(#[trigger] height_key(h))
            &&& forall|h: BlockNumber, b: H256|
                #![trigger list_of(db, h), block_key(b)]
                range.0 <= h < range.1 && (list_of(db, h) matches Ok(list) && list.contains(b))
                    ==> !after.contains_key(block_key(b))
            &&& forall|h: BlockNumber, b: H256, i: int|
                #![trigger list_of(db, h), block_at(db, b).candidates[i]]
                range.0 <= h < range.1 && (list_of(db, h) matches Ok(list) && list.contains(b)) && (
                block_of(db, b) matches Ok(Some(entry)) && 0 <= i < entry.candidates.len())
                    ==> !after.contains_key(candidate_key(block_at(db, b).candidates[i].1))
            &&& db.contains_key(key) && !after.contains_key(key) ==> {
                ||| key == range_key()
                ||| exists|h: BlockNumber| range.0 <= h < range.1 && key == #[trigger] height_key(h)
                ||| exists|h: BlockNumber, b: H256|
                    #![trigger list_of(db, h), block_key(b)]
                    range.0 <= h < range.1 && (list_of(db, h) matches Ok(list) && list.contains(b))
                        && key == block_key(b)
                ||| exists|h: BlockNumber, b: H256, i: int|
                    #![trigger list_of(db, h), block_at(db, b).candidates[i]]
                    range.0 <= h < range.1 && (list_of(db, h) matches Ok(list) && list.contains(b))
                        && (block_of(db, b) matches Ok(Some(entry)) && 0 <= i
                        < entry.candidates.len()) && key == candidate_key(
                        block_at(db, b).candidates[i].1,
                    )
            }
            &&& after.contains_key(key) ==> db.contains_key(key) && after[key] == db[key]
        },
{
    clearing_deletes_what_is_stored(db, key);
    let batch = clear_plan(db).value()->Some_0;
    let after = after_writes(db, batch);
    clearing_deletes_what_is_stored(db, range_key());
    assert forall|h: BlockNumber| range.0 <= h < range.1 implies !after.contains_key(
        #[trigger] height_key(h),
    ) by {
        clearing_deletes_what_is_stored(db, height_key(h));
    }
    assert forall|h: BlockNumber, b: H256|
        #![trigger list_of(db, h), block_key(b)]
        range.0 <= h < range.1 && (list_of(db, h) matches Ok(list) && list.contains(
            b,
        )) implies !after.contains_key(block_key(b)) by {
        clearing_deletes_what_is_stored(db, block_key(b));
        assert(block_of(db, b) is Ok);
        assert(blocks_at(db, h).contains(b));
    }
    assert forall|h: BlockNumber, b: H256, i: int|
        #![trigger list_of(db, h), block_at(db, b).candidates[i]]
        range.0 <= h < range.1 && (list_of(db, h) matches Ok(list) && list.contains(b)) && (
        block_of(db, b) matches Ok(Some(entry)) && 0 <= i
            < entry.candidates.len()) implies !after.contains_key(
        candidate_key(block_at(db, b).candidates[i].1),
    ) by {
        let c = block_at(db, b).candidates[i].1;
        clearing_deletes_what_is_stored(db, candidate_key(c));
        assert(block_includes(db, b, c));
        assert(blocks_at(db, h).contains(b));
        assert(list_includes(db, blocks_at(db, h), c));
    }
    if db.contains_key(key) && !after.contains_key(key) {
        assert(is_cleared(db, range, key));
        if exists|b: H256|
            listed_below(db, range.0, range.1, b) && has_block(db, b) && key
                == #[trigger] block_key(b) {
            let b = choose|b: H256|
                listed_below(db, range.0, range.1, b) && has_block(db, b) && key
                    == #[trigger] block_key(b);
            let h = choose|h: BlockNumber|
                range.0 <= h < range.1 && #[trigger] blocks_at(db, h).contains(b);
            assert(list_of(db, h) is Ok);
        } else if exists|c: CandidateHash|
            included_below(db, range.0, range.1, c) && key == #[trigger] candidate_key(c) {
            let c = choose|c: CandidateHash|
                included_below(db, range.0, range.1, c) && key == #[trigger] candidate_key(c);
            let h = choose|h: BlockNumber|
                range.0 <= h < range.1 && #[trigger] list_includes(db, blocks_at(db, h), c);
            let b = choose|b: H256| #[trigger]
                blocks_at(db, h).contains(b) && block_includes(db, b, c);
            let i = choose|i: int|
                0 <= i < block_at(db, b).candidates.len() && (#[trigger] block_at(
                    db,
                    b,
                ).candidates[i]).1 == c;
            assert(list_of(db, h) is Ok);
        }
    }
}

} // verus!
