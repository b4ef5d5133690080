//! What a batch of writes does to the entries of the database.
use crate::codec::{decoded_block, decoded_candidate, decoded_hashes, lemma_layout_storable};
use crate::keys::{block_key, candidate_key, family_prefix, height_key, range_key};
use crate::scale::{layout_bytes, Layout};
use crate::store::{
    after_insertions, after_writes, block_of, candidate_of, list_of, lookup, range_of, Batch, Db,
};
use crate::types::{Block, BlockNumber, Candidate, CandidateHash, H256};
use vstd::prelude::*;

verus! {

/// One of the insertions is under the given key.
pub open spec fn inserts(items: Seq<(Seq<u8>, Seq<u8>)>, key: Seq<u8>) -> bool {
    exists|i: int| 0 <= i < items.len() && (#[trigger] items[i]).0 == key
}

/// The insertion at place `i` is the last one under its key.
pub open spec fn last_insertion(items: Seq<(Seq<u8>, Seq<u8>)>, i: int) -> bool {
    &&& 0 <= i < items.len()
    &&& forall|j: int| i < j < items.len() ==> (#[trigger] items[j]).0 != items[i].0
}

/// A key that nothing is inserted under keeps its value.
pub proof fn insertions_keep(db: Db, items: Seq<(Seq<u8>, Seq<u8>)>, key: Seq<u8>)
    requires
        !inserts(items, key),
    ensures
        lookup(after_insertions(db, items), key) == lookup(db, key),
    decreases items.len(),
{
    if items.len() > 0 {
        let fewer = items.drop_last();
        assert forall|i: int| 0 <= i < fewer.len() implies (#[trigger] fewer[i]).0 != key by {
            assert(items[i] == fewer[i]);
        }
        assert(items[items.len() - 1].0 != key);
        insertions_keep(db, fewer, key);
    }
}

/// The last insertion under a key counts.
pub proof fn last_insertion_counts(db: Db, items: Seq<(Seq<u8>, Seq<u8>)>, i: int)
    requires
        last_insertion(items, i),
    ensures
        lookup(after_insertions(db, items), items[i].0) == Some(items[i].1),
    decreases items.len(),
{
    if i < items.len() - 1 {
        let fewer = items.drop_last();
        assert(items[items.len() - 1].0 != items[i].0);
        assert forall|j: int| i < j < fewer.len() implies (#[trigger] fewer[j]).0 != fewer[i].0 by {
            assert(items[j] == fewer[j]);
        }
        last_insertion_counts(db, fewer, i);
        assert(fewer[i] == items[i]);
    }
}

/// A key that one value only is inserted under has that value.
pub proof fn insertions_give(
    db: Db,
    items: Seq<(Seq<u8>, Seq<u8>)>,
    key: Seq<u8>,
    value: Seq<u8>,
)
    requires
        inserts(items, key),
        forall|i: int|
            0 <= i < items.len() && (#[trigger] items[i]).0 == key ==> items[i].1 == value,
    ensures
        lookup(after_insertions(db, items), key) == Some(value),
    decreases items.len(),
{
    let fewer = items.drop_last();
    if items.last().0 != key {
        let i = choose|i: int| 0 <= i < items.len() && (#[trigger] items[i]).0 == key;
        assert(fewer[i].0 == key);
        assert forall|j: int|
            0 <= j < fewer.len() && (#[trigger] fewer[j]).0 == key implies fewer[j].1
            == value by {
            assert(items[j] == fewer[j]);
        }
        insertions_give(db, fewer, key, value);
    } else {
        assert(items[items.len() - 1].0 == key);
    }
}

/// Insertions in two parts are performed one part after the other.
pub proof fn insertions_in_parts(
    db: Db,
    first: Seq<(Seq<u8>, Seq<u8>)>,
    second: Seq<(Seq<u8>, Seq<u8>)>,
)
    ensures
        after_insertions(db, first + second) == after_insertions(
            after_insertions(db, first),
            second,
        ),
    decreases second.len(),
{
    let all = first + second;
    if second.len() == 0 {
        assert(all =~= first);
    } else {
        assert(all.drop_last() =~= first + second.drop_last());
        insertions_in_parts(db, first, second.drop_last());
    }
}

/// A single insertion changes the value under its key, and no other.
pub proof fn one_insertion(db: Db, item: (Seq<u8>, Seq<u8>), key: Seq<u8>)
    ensures
        lookup(after_insertions(db, seq![item]), key) == (if key == item.0 {
            Some(item.1)
        } else {
            lookup(db, key)
        }),
{
    let items = seq![item];
    assert(items.drop_last() =~= Seq::empty());
    assert(after_insertions(db, items.drop_last()) == db);
}

/// A key that is deleted has no value.
pub proof fn deleted_is_gone(db: Db, batch: Batch, key: Seq<u8>)
    requires
        batch.deleted.contains(key),
    ensures
        lookup(after_writes(db, batch), key) is None,
{
    assert(batch.deleted.to_set().contains(key));
}

/// A key that is not deleted has the value that the insertions give it.
pub proof fn undeleted_stays(db: Db, batch: Batch, key: Seq<u8>)
    requires
        !batch.deleted.contains(key),
    ensures
        lookup(after_writes(db, batch), key) == lookup(
            after_insertions(db, batch.inserted),
            key,
        ),
{
    assert(!batch.deleted.to_set().contains(key));
}

/// The key belongs to this database: it is that of the range, of a list, of a block entry or of a
/// candidate entry.
pub open spec fn ours(key: Seq<u8>) -> bool {
    ||| key == range_key()
    ||| exists|h: BlockNumber| key == #[trigger] height_key(h)
    ||| exists|b: H256| key == #[trigger] block_key(b)
    ||| exists|c: CandidateHash| key == #[trigger] candidate_key(c)
}

/// Every key of the database begins with `Approvals_`.
pub proof fn keys_begin_with_the_prefix(key: Seq<u8>)
    requires
        ours(key),
    ensures
        family_prefix().is_prefix_of(key),
{
    reveal(range_key);
    reveal(height_key);
    reveal(block_key);
    reveal(candidate_key);
    let n = family_prefix().len() as int;
    assert forall|i: int| 0 <= i < n implies family_prefix()[i] == key[i] by {}
    assert(family_prefix() =~= key.subrange(0, n));
}

/// Every entry of the database can be read.
pub open spec fn readable(db: Db) -> bool {
    &&& range_of(db) is Ok
    &&& forall|h: BlockNumber| (#[trigger] list_of(db, h)) is Ok
    &&& forall|b: H256| (#[trigger] block_of(db, b)) is Ok
    &&& forall|c: CandidateHash| (#[trigger] candidate_of(db, c)) is Ok
}

/// The blocks listed at a height, of a database that can be read.
pub open spec fn blocks_at(db: Db, h: BlockNumber) -> Seq<H256> {
    list_of(db, h)->Ok_0
}

/// A block has an entry.
pub open spec fn has_block(db: Db, b: H256) -> bool {
    block_of(db, b) matches Ok(Some(_))
}

/// The entry of a block that has one.
pub open spec fn block_at(db: Db, b: H256) -> Block {
    block_of(db, b)->Ok_0->Some_0
}

/// A candidate has an entry.
pub open spec fn has_candidate(db: Db, c: CandidateHash) -> bool {
    candidate_of(db, c) matches Ok(Some(_))
}

/// The entry of a candidate that has one.
pub open spec fn candidate_at(db: Db, c: CandidateHash) -> Candidate {
    candidate_of(db, c)->Ok_0->Some_0
}

/// What is read can be written again.
pub proof fn read_entries_are_storable(db: Db, h: BlockNumber, b: H256, c: CandidateHash)
    ensures
        list_of(db, h) is Ok ==> blocks_at(db, h).len() <= u32::MAX,
        has_block(db, b) ==> block_at(db, b).storable(),
        has_candidate(db, c) ==> candidate_at(db, c).storable(),
{
    reveal(decoded_hashes);
    reveal(decoded_block);
    reveal(decoded_candidate);
    if has_candidate(db, c) {
        let raw = db[candidate_key(c)];
        let l = choose|l: Layout|
            l.storable() && (#[trigger] layout_bytes(l)).is_prefix_of(raw);
        lemma_layout_storable(l);
    }
}

/// A database is read as another one where they hold the same values.
pub proof fn same_values_read_the_same(db: Db, db2: Db, h: BlockNumber, b: H256, c: CandidateHash)
    ensures
        lookup(db, range_key()) == lookup(db2, range_key()) ==> range_of(db) == range_of(db2),
        lookup(db, height_key(h)) == lookup(db2, height_key(h)) ==> list_of(db, h) == list_of(
            db2,
            h,
        ),
        lookup(db, block_key(b)) == lookup(db2, block_key(b)) ==> block_of(db, b) == block_of(
            db2,
            b,
        ),
        lookup(db, candidate_key(c)) == lookup(db2, candidate_key(c)) ==> candidate_of(db, c)
            == candidate_of(db2, c),
{
}

/// The value under a key belongs to the database and cannot be decoded.
pub open spec fn undecodable(db: Db, key: Seq<u8>) -> bool {
    ||| key == range_key() && range_of(db) is Err
    ||| exists|h: BlockNumber| key == #[trigger] height_key(h) && list_of(db, h) is Err
    ||| exists|b: H256| key == #[trigger] block_key(b) && block_of(db, b) is Err
    ||| exists|c: CandidateHash| key == #[trigger] candidate_key(c) && candidate_of(db, c) is Err
}

/// What cannot be decoded gives a storage error.
pub proof fn undecodable_is_a_storage_error(db: Db, h: BlockNumber, b: H256, c: CandidateHash)
    ensures
        range_of(db) matches Err(e) ==> e is Storage,
        list_of(db, h) matches Err(e) ==> e is Storage,
        block_of(db, b) matches Err(e) ==> e is Storage,
        candidate_of(db, c) matches Err(e) ==> e is Storage,
{
}

} // verus!
