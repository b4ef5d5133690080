//! What recording a block does to the database.
use crate::adding::{
    add_plan, grown_range, info_at, range_grows, range_items, record_candidate, record_candidates,
    record_parent, record_unless_listed, record_unless_present, with_block, Items, NewBlock,
};
use crate::bitfield::{bits_fit, Bits};
use crate::codec::{
    block_reads_back, candidate_reads_back, hashes_read_back, range_reads_back, Stored,
};
use crate::consistency::{
    candidates_consistent, children_consistent, clearable, consistent, in_range, is_listed,
    is_under, lists_consistent,
};
use crate::keys::{block_key, candidate_key, height_key, keys_differ, range_key};
use crate::operation::Query;
use crate::pruning::orphaned;
use crate::pruning_laws::{block_includes, child_of};
use crate::sequences::{lemma_contains_more, lemma_contains_push};
use crate::store::{
    after_end, after_insertions, after_writes, block_of, candidate_of, list_of, lookup, range_of,
    Batch, Db, Failure,
};
use crate::store_laws::{
    block_at, blocks_at, candidate_at, has_block, has_candidate, insertions_in_parts,
    insertions_keep, inserts, last_insertion, last_insertion_counts, one_insertion, ours,
    read_entries_are_storable, readable, same_values_read_the_same, undecodable,
    undecodable_is_a_storage_error, undeleted_stays,
};
use crate::types::{
    Block, BlockEntry, BlockNumber, Candidate, CandidateEntry, CandidateHash, StoredBlockRange,
    H256,
};
use vstd::prelude::*;

verus! {

/// The entry of a candidate, if it has one.
pub open spec fn candidate_before(db: Db, c: CandidateHash) -> Option<Candidate> {
    candidate_of(db, c)->Ok_0
}

/// The entry that is written for the candidate at place `j` among those that a block includes.
pub open spec fn candidate_written(db: Db, n: NewBlock, j: int) -> Candidate {
    with_block(
        n,
        info_at(n.infos, j)->Some_0,
        candidate_before(db, n.entry.candidates[j].1),
    )
}

/// What is written for the candidates from the `i`-th on.
spec fn candidate_items(db: Db, n: NewBlock, i: int) -> Items {
    Seq::new(
        (n.entry.candidates.len() - i) as nat,
        |k: int|
            (
                candidate_key(n.entry.candidates[i + k].1),
                CandidateEntry::encoded(candidate_written(db, n, i + k)),
            ),
    )
}

/// What is written for the parent.
spec fn parent_items(db: Db, n: NewBlock) -> Items {
    if has_block(db, n.parent) {
        seq![
            (
                block_key(n.parent),
                BlockEntry::encoded(block_at(db, n.parent).with_child(n.entry.block_hash)),
            ),
        ]
    } else {
        Seq::empty()
    }
}

/// Everything that is written.
spec fn all_items(db: Db, n: NewBlock) -> Items {
    range_items(range_of(db)->Ok_0, n.number) + seq![
        (
            height_key(n.number),
            Vec::<H256>::encoded(blocks_at(db, n.number).push(n.entry.block_hash)),
        ),
    ] + candidate_items(db, n, 0) + seq![
        (block_key(n.entry.block_hash), BlockEntry::encoded(n.entry)),
    ] + parent_items(db, n)
}

/// A block is new: it is not listed at its height, and nothing is stored under its key.
pub open spec fn is_new(db: Db, n: NewBlock) -> bool {
    &&& !blocks_at(db, n.number).contains(n.entry.block_hash)
    &&& lookup(db, block_key(n.entry.block_hash)) is None
}

/// Something is known of the first candidates that a block includes, up to and with the `j`-th.
pub open spec fn known_through(n: NewBlock, j: int) -> bool {
    forall|k: int| 0 <= k <= j ==> (#[trigger] info_at(n.infos, k)) is Some
}

/// Something is known of every candidate that a block includes.
pub open spec fn all_known(n: NewBlock) -> bool {
    forall|k: int|
        0 <= k < n.entry.candidates.len() ==> (#[trigger] info_at(n.infos, k)) is Some
}

/// The entry that is written for a candidate fits in the database.
pub open spec fn candidate_fits(db: Db, n: NewBlock, j: int) -> bool {
    bits_fit(n.n_validators) && candidate_written(db, n, j).encodable()
}

/// The entries that are written for a block and its parent fit in the database.
pub open spec fn block_fits(db: Db, n: NewBlock) -> bool {
    &&& n.entry.encodable()
    &&& has_block(db, n.parent) ==> block_at(db, n.parent).with_child(
        n.entry.block_hash,
    ).encodable()
}

/// The entries that are written for the candidates from the `i`-th on, for the block and for its
/// parent fit in the database, as far as it comes to them.
spec fn room_from(db: Db, n: NewBlock, i: int) -> bool {
    &&& forall|j: int|
        i <= j < n.entry.candidates.len() && known_through(n, j) ==> #[trigger] candidate_fits(
            db,
            n,
            j,
        )
    &&& all_known(n) ==> block_fits(db, n)
}

/// The entries that recording a block writes fit in the database, as far as it comes to them.
pub open spec fn has_room(db: Db, n: NewBlock) -> bool {
    &&& n.number < u32::MAX
    &&& is_new(db, n) ==> {
        &&& blocks_at(db, n.number).len() < u32::MAX
        &&& forall|j: int|
            0 <= j < n.entry.candidates.len() && known_through(n, j) ==> #[trigger] candidate_fits(
                db,
                n,
                j,
            )
        &&& all_known(n) ==> block_fits(db, n)
    }
}

/// The end of recording a block.
proof fn lemma_record_parent(db: Db, n: NewBlock, items: Items)
    requires
        readable(db),
    ensures
        record_parent(db, n, items).result is Ok == block_fits(db, n),
        record_parent(db, n, items).result matches Ok(outcome) ==> outcome == Some(
            Batch {
                inserted: items + seq![
                    (block_key(n.entry.block_hash), BlockEntry::encoded(n.entry)),
                ] + parent_items(db, n),
                deleted: Seq::empty(),
            },
        ),
{
    assert(block_of(db, n.parent) is Ok);
    let own = seq![(block_key(n.entry.block_hash), BlockEntry::encoded(n.entry))];
    assert(items + own + Seq::<(Seq<u8>, Seq<u8>)>::empty() =~= items + own);
}

/// Recording a block with its candidates.
proof fn lemma_record_candidates(db: Db, n: NewBlock, i: nat, items: Items)
    requires
        readable(db),
        i <= n.entry.candidates.len(),
        known_through(n, i - 1),
    ensures
        record_candidates(db, n, i, items).result is Ok == room_from(db, n, i as int),
        record_candidates(db, n, i, items).result matches Ok(outcome) ==> {
            &&& outcome is Some == all_known(n)
            &&& outcome is Some ==> record_parent(
                db,
                n,
                items + candidate_items(db, n, i as int),
            ).result == Ok::<Option<Batch>, Failure>(outcome)
        },
    decreases n.entry.candidates.len() - i,
{
    if i == n.entry.candidates.len() {
        assert(items + candidate_items(db, n, i as int) =~= items);
        lemma_record_parent(db, n, items);
        assert forall|k: int| 0 <= k < n.entry.candidates.len() implies (#[trigger] info_at(
            n.infos,
            k,
        )) is Some by {
            assert(0 <= k <= i - 1);
        }
    } else if info_at(n.infos, i as int) is Some {
        let c = n.entry.candidates[i as int].1;
        assert(candidate_of(db, c) is Ok);
        assert(known_through(n, i as int));
        let entry = candidate_written(db, n, i as int);
        let more = items.push((candidate_key(c), CandidateEntry::encoded(entry)));
        if candidate_fits(db, n, i as int) {
            lemma_record_candidates(db, n, i + 1, more);
            assert(record_candidates(db, n, i, items).result == record_candidates(
                db,
                n,
                i + 1,
                more,
            ).result);
            assert(more + candidate_items(db, n, (i + 1) as int) =~= items + candidate_items(
                db,
                n,
                i as int,
            ));
        }
    } else {
        assert forall|j: int| i <= j && known_through(n, j) implies false by {
            assert(info_at(n.infos, i as int) is Some);
        }
    }
}

/// Recording a block of a database that can be read succeeds exactly if there is room. It writes
/// everything there is to write if the block is new and everything is known of its candidates, and
/// nothing otherwise.
proof fn lemma_add(db: Db, n: NewBlock)
    requires
        readable(db),
    ensures
        add_plan(db, n).result is Ok == has_room(db, n),
        add_plan(db, n).result matches Ok(outcome) ==> {
            &&& outcome is Some == (is_new(db, n) && all_known(n))
            &&& outcome is Some ==> outcome == Some(
                Batch { inserted: all_items(db, n), deleted: Seq::empty() },
            )
        },
{
    let range = range_of(db)->Ok_0;
    let list = blocks_at(db, n.number);
    assert(list_of(db, n.number) is Ok);
    let start = range_items(range, n.number);
    let items = start.push(
        (height_key(n.number), Vec::<H256>::encoded(list.push(n.entry.block_hash))),
    );
    assert(start + seq![
        (height_key(n.number), Vec::<H256>::encoded(list.push(n.entry.block_hash))),
    ] =~= items);
    assert(known_through(n, -1));
    lemma_record_candidates(db, n, 0, items);
    lemma_record_parent(db, n, items + candidate_items(db, n, 0));
    assert(range_grows(range, u32::MAX));
}

/// Where a block includes a candidate for the last time.
pub open spec fn last_inclusion(b: Block, c: CandidateHash) -> int {
    choose|j: int| #[trigger] includes_last(b, c, j)
}

/// A block includes a candidate at place `j` for the last time.
pub open spec fn includes_last(b: Block, c: CandidateHash, j: int) -> bool {
    &&& 0 <= j < b.candidates.len()
    &&& b.candidates[j].1 == c
    &&& forall|k: int| j < k < b.candidates.len() ==> (#[trigger] b.candidates[k]).1 != c
}

proof fn lemma_includes_last(b: Block, c: CandidateHash, i: int) -> (j: int)
    requires
        0 <= i < b.candidates.len(),
        b.candidates[i].1 == c,
    ensures
        includes_last(b, c, j),
    decreases b.candidates.len() - i,
{
    if exists|k: int| i < k < b.candidates.len() && (#[trigger] b.candidates[k]).1 == c {
        let k = choose|k: int| i < k < b.candidates.len() && (#[trigger] b.candidates[k]).1 == c;
        lemma_includes_last(b, c, k)
    } else {
        i
    }
}

/// The value under each key after a block was recorded.
proof fn lemma_after_add(db: Db, n: NewBlock, key: Seq<u8>)
    requires
        readable(db),
        is_new(db, n),
    ensures
        lookup(after_insertions(db, all_items(db, n)), key) == ({
            let range = range_of(db)->Ok_0;
            let list = blocks_at(db, n.number);
            if key == range_key() && range_grows(range, n.number) {
                Some(StoredBlockRange::encoded(grown_range(range, n.number)))
            } else if key == height_key(n.number) {
                Some(Vec::<H256>::encoded(list.push(n.entry.block_hash)))
            } else if key == block_key(n.entry.block_hash) {
                Some(BlockEntry::encoded(n.entry))
            } else if key == block_key(n.parent) && has_block(db, n.parent) {
                Some(
                    BlockEntry::encoded(
                        block_at(db, n.parent).with_child(n.entry.block_hash),
                    ),
                )
            } else {
                lookup(after_insertions(db, candidate_items(db, n, 0)), key)
            }
        }),
{
    let range = range_of(db)->Ok_0;
    let list = blocks_at(db, n.number);
    let i1 = range_items(range, n.number);
    let i2 = seq![(height_key(n.number), Vec::<H256>::encoded(list.push(n.entry.block_hash)))];
    let i3 = candidate_items(db, n, 0);
    let i4 = seq![(block_key(n.entry.block_hash), BlockEntry::encoded(n.entry))];
    let i5 = parent_items(db, n);
    let d1 = after_insertions(db, i1);
    let d2 = after_insertions(d1, i2);
    let d3 = after_insertions(d2, i3);
    let d4 = after_insertions(d3, i4);
    insertions_in_parts(db, i1 + i2 + i3 + i4, i5);
    insertions_in_parts(db, i1 + i2 + i3, i4);
    insertions_in_parts(db, i1 + i2, i3);
    insertions_in_parts(db, i1, i2);
    keys_differ();
    assert(!(n.parent == n.entry.block_hash && has_block(db, n.parent)));
    if i1.len() > 0 {
        one_insertion(db, i1[0], key);
    }
    one_insertion(d1, i2[0], key);
    one_insertion(d3, i4[0], key);
    if i5.len() > 0 {
        one_insertion(d4, i5[0], key);
    }
    if inserts(i3, key) {
        let k = choose|k: int| 0 <= k < i3.len() && (#[trigger] i3[k]).0 == key;
        let c = n.entry.candidates[k].1;
        assert(key == candidate_key(c));
        let j = lemma_includes_last(n.entry, c, k);
        assert(last_insertion(i3, j)) by {
            assert forall|l: int| j < l < i3.len() implies (#[trigger] i3[l]).0 != i3[j].0 by {
                assert(n.entry.candidates[l].1 != c);
            }
        }
        last_insertion_counts(d2, i3, j);
        last_insertion_counts(db, i3, j);
    } else {
        insertions_keep(d2, i3, key);
        insertions_keep(db, i3, key);
    }
}

/// Recording a block of a database that can be read ends with the given writes.
pub open spec fn records(db: Db, n: NewBlock, batch: Batch) -> bool {
    readable(db) && add_plan(db, n).result == Ok::<Option<Batch>, Failure>(Some(batch))
}

/// What a record of a block does, by keys.
proof fn lemma_recorded(db: Db, n: NewBlock, batch: Batch, key: Seq<u8>)
    requires
        records(db, n, batch),
    ensures
        is_new(db, n),
        all_known(n),
        blocks_at(db, n.number).len() < u32::MAX,
        n.number < u32::MAX,
        block_fits(db, n),
        forall|j: int|
            0 <= j < n.entry.candidates.len() ==> #[trigger] candidate_fits(db, n, j),
        lookup(after_writes(db, batch), key) == lookup(
            after_insertions(db, all_items(db, n)),
            key,
        ),
{
    lemma_add(db, n);
    assert forall|j: int| 0 <= j < n.entry.candidates.len() implies #[trigger] candidate_fits(
        db,
        n,
        j,
    ) by {
        assert(known_through(n, j));
    }
    assert(!batch.deleted.contains(key));
    undeleted_stays(db, batch, key);
}

/// A block that is recorded is new, and everything is known of its candidates.
pub(crate) proof fn lemma_recorded_block(db: Db, n: NewBlock, batch: Batch)
    requires
        records(db, n, batch),
    ensures
        is_new(db, n),
        all_known(n),
        n.number < u32::MAX,
{
    lemma_recorded(db, n, batch, range_key());
}

/// What is stored for a block that is recorded, and for its parent.
pub(crate) proof fn lemma_written_blocks(db: Db, n: NewBlock, batch: Batch)
    requires
        records(db, n, batch),
    ensures
        lookup(after_writes(db, batch), block_key(n.entry.block_hash)) == Some(
            BlockEntry::encoded(n.entry),
        ),
        has_block(db, n.parent) ==> lookup(after_writes(db, batch), block_key(n.parent)) == Some(
            BlockEntry::encoded(block_at(db, n.parent).with_child(n.entry.block_hash)),
        ),
{
    keys_differ();
    lemma_recorded(db, n, batch, block_key(n.entry.block_hash));
    lemma_after_add(db, n, block_key(n.entry.block_hash));
    lemma_recorded(db, n, batch, block_key(n.parent));
    lemma_after_add(db, n, block_key(n.parent));
}

/// What is stored for a candidate that a recorded block includes.
pub(crate) proof fn lemma_written_candidate(
    db: Db,
    n: NewBlock,
    batch: Batch,
    c: CandidateHash,
    j: int,
)
    requires
        records(db, n, batch),
        includes_last(n.entry, c, j),
    ensures
        lookup(after_writes(db, batch), candidate_key(c)) == Some(
            CandidateEntry::encoded(candidate_written(db, n, j)),
        ),
{
    let key = candidate_key(c);
    keys_differ();
    lemma_recorded(db, n, batch, key);
    lemma_after_add(db, n, key);
    let items = candidate_items(db, n, 0);
    assert(last_insertion(items, j)) by {
        assert forall|l: int| j < l < items.len() implies (#[trigger] items[l]).0 != items[j].0 by {
            assert(n.entry.candidates[l].1 != c);
        }
    }
    last_insertion_counts(db, items, j);
}

/// Recording a block of a database that can be read succeeds exactly if there is room. It then
/// writes something exactly if the block is new, and something is known of every candidate that it
/// includes.
pub proof fn recording_writes_exactly_if_new_and_known(db: Db, n: NewBlock)
    requires
        readable(db),
    ensures
        add_plan(db, n).result is Ok == has_room(db, n),
        has_room(db, n) ==> add_plan(db, n).value() is Some == (is_new(db, n) && all_known(n)),
{
    lemma_add(db, n);
}

/// Recording a block of whose candidates one is unknown does nothing, if there is room for what
/// comes before it.
pub proof fn recording_with_an_unknown_candidate_does_nothing(db: Db, n: NewBlock)
    requires
        readable(db),
        has_room(db, n),
        !all_known(n),
    ensures
        add_plan(db, n).result == Ok::<Option<Batch>, Failure>(None),
{
    lemma_add(db, n);
}

/// Recording a block that is there already does nothing, whatever else there is to say of it.
pub proof fn recording_a_present_block_does_nothing(db: Db, n: NewBlock)
    requires
        range_of(db) is Ok,
        list_of(db, n.number) is Ok,
        !is_new(db, n),
        n.number < u32::MAX,
    ensures
        add_plan(db, n).result == Ok::<Option<Batch>, Failure>(None),
{
}

/// Recording a block that is there already asks nothing about its candidates.
pub proof fn recording_a_present_block_asks_nothing(db: Db, n: NewBlock, c: CandidateHash)
    requires
        !is_new(db, n),
    ensures
        !add_plan(db, n).queries.contains(Query::Info(c)),
{
    let plan = add_plan(db, n);
    if plan.queries.contains(Query::Info(c)) {
        let i = choose|i: int| 0 <= i < plan.queries.len() && plan.queries[i] == Query::Info(c);
        assert(plan.queries[0] == Query::Value(range_key()));
        if plan.queries.len() > 1 {
            assert(plan.queries[1] == Query::Value(height_key(n.number)));
        }
        if plan.queries.len() > 2 {
            assert(plan.queries[2] == Query::Value(block_key(n.entry.block_hash)));
        }
    }
}

/// Recording a block asks about no candidate that the block does not include.
pub proof fn recording_asks_about_included_candidates(db: Db, n: NewBlock, c: CandidateHash)
    requires
        add_plan(db, n).queries.contains(Query::Info(c)),
    ensures
        n.entry.includes(c),
{
    let list = list_of(db, n.number)->Ok_0;
    let start = range_items(range_of(db)->Ok_0, n.number);
    let items = start.push(
        (height_key(n.number), Vec::<H256>::encoded(list.push(n.entry.block_hash))),
    );
    let rest1 = record_unless_listed(db, n, start);
    let rest2 = record_unless_present(db, n, list, start);
    let rest3 = record_candidates(db, n, 0, items);
    let info = Query::Info(c);
    lemma_contains_more(Query::Value(range_key()), rest1.queries, info);
    lemma_contains_more(Query::Value(range_key()), Seq::empty(), info);
    lemma_contains_more(Query::Value(height_key(n.number)), rest2.queries, info);
    lemma_contains_more(Query::Value(height_key(n.number)), Seq::empty(), info);
    lemma_contains_more(Query::Value(block_key(n.entry.block_hash)), rest3.queries, info);
    lemma_contains_more(Query::Value(block_key(n.entry.block_hash)), Seq::empty(), info);
    lemma_asks_included(db, n, 0, items, c);
}

proof fn lemma_asks_included(db: Db, n: NewBlock, i: nat, items: Items, c: CandidateHash)
    ensures
        record_candidates(db, n, i, items).queries.contains(Query::Info(c)) ==> n.entry.includes(
            c,
        ),
    decreases n.entry.candidates.len() - i,
{
    let info = Query::Info(c);
    if i >= n.entry.candidates.len() {
        lemma_contains_more(Query::Value(block_key(n.parent)), Seq::empty(), info);
    } else {
        let d = n.entry.candidates[i as int].1;
        lemma_contains_more(Query::Info(d), Seq::empty(), info);
        if let Some(known) = info_at(n.infos, i as int) {
            let rest = record_candidate(db, n, i, known, items);
            lemma_contains_more(Query::Info(d), rest.queries, info);
            lemma_contains_more(Query::Value(candidate_key(d)), Seq::empty(), info);
            if let Ok(old) = candidate_of(db, d) {
                let entry = with_block(n, known, old);
                let more = items.push((candidate_key(d), CandidateEntry::encoded(entry)));
                lemma_contains_more(
                    Query::Value(candidate_key(d)),
                    record_candidates(db, n, i + 1, more).queries,
                    info,
                );
                lemma_asks_included(db, n, i + 1, more, c);
            }
        }
        if d == c {
            assert(n.entry.includes(c));
        }
    }
}

/// The stored range grows so far that a recorded block lies in it.
pub proof fn recording_grows_the_range(db: Db, n: NewBlock, batch: Batch)
    requires
        records(db, n, batch),
    ensures
        range_of(after_writes(db, batch)) == Ok::<Option<StoredBlockRange>, Failure>(
            if range_grows(range_of(db)->Ok_0, n.number) {
                Some(grown_range(range_of(db)->Ok_0, n.number))
            } else {
                range_of(db)->Ok_0
            },
        ),
        in_range(after_writes(db, batch), n.number),
{
    let range = range_of(db)->Ok_0;
    lemma_recorded(db, n, batch, range_key());
    lemma_after_add(db, n, range_key());
    keys_differ();
    lemma_not_candidate(db, n, range_key());
    range_reads_back(grown_range(range, n.number));
}

/// A key that is not that of an included candidate is not written for the candidates.
proof fn lemma_not_candidate(db: Db, n: NewBlock, key: Seq<u8>)
    requires
        forall|c: CandidateHash| n.entry.includes(c) ==> key != #[trigger] candidate_key(c),
    ensures
        lookup(after_insertions(db, candidate_items(db, n, 0)), key) == lookup(db, key),
{
    let items = candidate_items(db, n, 0);
    assert forall|i: int| 0 <= i < items.len() implies (#[trigger] items[i]).0 != key by {
        let c = n.entry.candidates[i].1;
        assert(n.entry.includes(c));
        assert(items[i].0 == candidate_key(c));
    }
    insertions_keep(db, items, key);
}

/// A recorded block is added to the list at its height. The other lists stay as they are.
pub proof fn recording_lists_the_block(db: Db, n: NewBlock, batch: Batch, h: BlockNumber)
    requires
        records(db, n, batch),
    ensures
        list_of(after_writes(db, batch), h) == Ok::<Seq<H256>, Failure>(
            if h == n.number {
                blocks_at(db, h).push(n.entry.block_hash)
            } else {
                blocks_at(db, h)
            },
        ),
        lookup(after_writes(db, batch), height_key(h)) is Some == (h == n.number || lookup(
            db,
            height_key(h),
        ) is Some),
{
    let key = height_key(h);
    lemma_recorded(db, n, batch, key);
    lemma_after_add(db, n, key);
    keys_differ();
    lemma_not_candidate(db, n, key);
    assert(list_of(db, h) is Ok);
    if h == n.number {
        hashes_read_back(blocks_at(db, h).push(n.entry.block_hash));
    } else {
        same_values_read_the_same(
            after_writes(db, batch),
            db,
            h,
            n.parent,
            n.parent,
        );
    }
}

/// A recorded block has the entry that was given, and its parent, if that has an entry, one more
/// child. The other block entries stay as they are.
pub proof fn recording_writes_the_block(db: Db, n: NewBlock, batch: Batch, b: H256)
    requires
        records(db, n, batch),
        n.entry.storable(),
    ensures
        block_of(after_writes(db, batch), b) == (if b == n.entry.block_hash {
            Ok(Some(n.entry))
        } else if b == n.parent && has_block(db, b) {
            Ok(Some(block_at(db, b).with_child(n.entry.block_hash)))
        } else {
            block_of(db, b)
        }),
{
    let key = block_key(b);
    lemma_recorded(db, n, batch, key);
    lemma_after_add(db, n, key);
    keys_differ();
    lemma_not_candidate(db, n, key);
    if b == n.entry.block_hash {
        block_reads_back(n.entry);
    } else if b == n.parent && has_block(db, b) {
        read_entries_are_storable(db, 0, b, b);
        block_reads_back(block_at(db, b).with_child(n.entry.block_hash));
    } else {
        same_values_read_the_same(after_writes(db, batch), db, 0, b, b);
    }
}

/// A new approval entry can be written and read back, and so can the entry that it is added to.
proof fn lemma_written_storable(db: Db, n: NewBlock, j: int)
    requires
        readable(db),
        0 <= j < n.entry.candidates.len(),
        candidate_fits(db, n, j),
        Bits::zeros(n.n_validators).storable(),
    ensures
        candidate_written(db, n, j).storable(),
{
    let c = n.entry.candidates[j].1;
    let written = candidate_written(db, n, j);
    assert(candidate_of(db, c) is Ok);
    read_entries_are_storable(db, 0, c, c);
    assert(written.encodable());
}

/// Each candidate that a recorded block includes has an approval entry under it, added to the entry
/// that it had, or to a fresh one. Where the block includes a candidate twice, the last inclusion
/// counts. The other candidate entries stay as they are.
pub proof fn recording_adds_approval_entries(db: Db, n: NewBlock, batch: Batch, c: CandidateHash)
    requires
        records(db, n, batch),
        Bits::zeros(n.n_validators).storable(),
    ensures
        candidate_of(after_writes(db, batch), c) == (if n.entry.includes(c) {
            Ok(Some(candidate_written(db, n, last_inclusion(n.entry, c))))
        } else {
            candidate_of(db, c)
        }),
{
    let key = candidate_key(c);
    lemma_recorded(db, n, batch, key);
    lemma_after_add(db, n, key);
    keys_differ();
    if n.entry.includes(c) {
        let i = choose|i: int|
            0 <= i < n.entry.candidates.len() && (#[trigger] n.entry.candidates[i]).1 == c;
        let k = lemma_includes_last(n.entry, c, i);
        let j = last_inclusion(n.entry, c);
        assert(includes_last(n.entry, c, j));
        let items = candidate_items(db, n, 0);
        assert(last_insertion(items, j)) by {
            assert forall|l: int| j < l < items.len() implies (#[trigger] items[l]).0
                != items[j].0 by {
                assert(n.entry.candidates[l].1 != c);
            }
        }
        last_insertion_counts(db, items, j);
        assert(candidate_fits(db, n, j));
        lemma_written_storable(db, n, j);
        candidate_reads_back(candidate_written(db, n, j));
    } else {
        lemma_not_candidate(db, n, key);
        same_values_read_the_same(after_writes(db, batch), db, 0, c, c);
    }
}

/// Every insertion is under a key of the database.
spec fn all_ours(items: Items) -> bool {
    forall|i: int| 0 <= i < items.len() ==> ours((#[trigger] items[i]).0)
}

/// Recording a block inserts under keys of the database only, and deletes nothing.
proof fn lemma_only_ours(db: Db, n: NewBlock, i: nat, items: Items)
    requires
        all_ours(items),
    ensures
        record_candidates(db, n, i, items).result matches Ok(Some(batch)) ==> all_ours(
            batch.inserted,
        ) && batch.deleted == Seq::<Seq<u8>>::empty(),
    decreases n.entry.candidates.len() - i,
{
    if i >= n.entry.candidates.len() {
        assert(ours(block_key(n.entry.block_hash)));
        assert(ours(block_key(n.parent)));
    } else if let Some(info) = info_at(n.infos, i as int) {
        let c = n.entry.candidates[i as int].1;
        if let Ok(old) = candidate_of(db, c) {
            let entry = with_block(n, info, old);
            let more = items.push((candidate_key(c), CandidateEntry::encoded(entry)));
            assert(ours(candidate_key(c)));
            lemma_only_ours(db, n, i + 1, more);
        }
    }
}

/// Recording a block deletes nothing, and inserts under keys of the database only.
pub proof fn recording_deletes_nothing(db: Db, n: NewBlock, batch: Batch)
    requires
        add_plan(db, n).result == Ok::<Option<Batch>, Failure>(Some(batch)),
    ensures
        batch.deleted == Seq::<Seq<u8>>::empty(),
        forall|i: int| 0 <= i < batch.inserted.len() ==> ours((#[trigger] batch.inserted[i]).0),
{
    let list = blocks_at(db, n.number);
    let start = range_items(range_of(db)->Ok_0, n.number);
    let items = start.push(
        (height_key(n.number), Vec::<H256>::encoded(list.push(n.entry.block_hash))),
    );
    assert(ours(range_key()));
    assert(ours(height_key(n.number)));
    lemma_only_ours(db, n, 0, items);
}

/// Recording a block leaves alone what does not belong to the database.
pub proof fn recording_leaves_other_values(db: Db, n: NewBlock, key: Seq<u8>)
    requires
        !ours(key),
    ensures
        lookup(after_end(db, add_plan(db, n).result), key) == lookup(db, key),
{
    if let Ok(Some(batch)) = add_plan(db, n).result {
        recording_deletes_nothing(db, n, batch);
        assert(!inserts(batch.inserted, key));
        assert(!batch.deleted.contains(key));
        undeleted_stays(db, batch, key);
        insertions_keep(db, batch.inserted, key);
    }
}

/// A value that recording a block asks for, and that cannot be decoded, ends the recording in a
/// storage error, and nothing is written. The block's own entry is not decoded: that it is there is
/// enough for the recording to end without effect.
pub proof fn recording_reports_what_it_cannot_decode(db: Db, n: NewBlock, key: Seq<u8>)
    requires
        add_plan(db, n).queries.contains(Query::Value(key)),
        undecodable(db, key),
        key != block_key(n.entry.block_hash),
    ensures
        add_plan(db, n).result matches Err(e) && e is Storage,
        after_end(db, add_plan(db, n).result) == db,
{
    keys_differ();
    let list = list_of(db, n.number)->Ok_0;
    let start = range_items(range_of(db)->Ok_0, n.number);
    let items = start.push(
        (height_key(n.number), Vec::<H256>::encoded(list.push(n.entry.block_hash))),
    );
    let rest1 = record_unless_listed(db, n, start);
    let rest2 = record_unless_present(db, n, list, start);
    let rest3 = record_candidates(db, n, 0, items);
    let value = Query::Value(key);
    lemma_contains_more(Query::Value(range_key()), rest1.queries, value);
    lemma_contains_more(Query::Value(range_key()), Seq::empty(), value);
    lemma_contains_more(Query::Value(height_key(n.number)), rest2.queries, value);
    lemma_contains_more(Query::Value(height_key(n.number)), Seq::empty(), value);
    lemma_contains_more(Query::Value(block_key(n.entry.block_hash)), rest3.queries, value);
    lemma_contains_more(Query::Value(block_key(n.entry.block_hash)), Seq::empty(), value);
    lemma_reports(db, n, 0, items, key);
    undecodable_is_a_storage_error(db, n.number, n.parent, n.parent);
}

proof fn lemma_reports(db: Db, n: NewBlock, i: nat, items: Items, key: Seq<u8>)
    requires
        undecodable(db, key),
    ensures
        record_candidates(db, n, i, items).queries.contains(Query::Value(key)) ==> (
        record_candidates(db, n, i, items).result matches Err(e) && e is Storage),
    decreases n.entry.candidates.len() - i,
{
    keys_differ();
    let value = Query::Value(key);
    if i >= n.entry.candidates.len() {
        lemma_contains_more(Query::Value(block_key(n.parent)), Seq::empty(), value);
        undecodable_is_a_storage_error(db, n.number, n.parent, n.parent);
    } else {
        let c = n.entry.candidates[i as int].1;
        lemma_contains_more(Query::Info(c), Seq::empty(), value);
        if let Some(info) = info_at(n.infos, i as int) {
            let rest = record_candidate(db, n, i, info, items);
            lemma_contains_more(Query::Info(c), rest.queries, value);
            lemma_contains_more(Query::Value(candidate_key(c)), Seq::empty(), value);
            undecodable_is_a_storage_error(db, n.number, n.parent, c);
            if let Ok(old) = candidate_of(db, c) {
                let entry = with_block(n, info, old);
                let more = items.push((candidate_key(c), CandidateEntry::encoded(entry)));
                lemma_contains_more(
                    Query::Value(candidate_key(c)),
                    record_candidates(db, n, i + 1, more).queries,
                    value,
                );
                lemma_reports(db, n, i + 1, more, key);
            }
        }
    }
}

/// After a block was recorded, every entry can still be read.
pub proof fn recording_keeps_readable(db: Db, n: NewBlock, batch: Batch)
    requires
        records(db, n, batch),
        n.entry.storable(),
        Bits::zeros(n.n_validators).storable(),
    ensures
        readable(after_writes(db, batch)),
{
    let db2 = after_writes(db, batch);
    recording_grows_the_range(db, n, batch);
    assert forall|h: BlockNumber| (#[trigger] list_of(db2, h)) is Ok by {
        recording_lists_the_block(db, n, batch, h);
    }
    assert forall|b: H256| (#[trigger] block_of(db2, b)) is Ok by {
        recording_writes_the_block(db, n, batch, b);
        assert(block_of(db, b) is Ok);
    }
    assert forall|c: CandidateHash| (#[trigger] candidate_of(db2, c)) is Ok by {
        recording_adds_approval_entries(db, n, batch, c);
        assert(candidate_of(db, c) is Ok);
    }
}

/// Recording the same block once more does nothing.
pub proof fn recording_twice_does_nothing(db: Db, n: NewBlock, batch: Batch, m: NewBlock)
    requires
        records(db, n, batch),
        n.entry.storable(),
        Bits::zeros(n.n_validators).storable(),
        m.entry.block_hash == n.entry.block_hash,
        m.number < u32::MAX,
    ensures
        add_plan(after_writes(db, batch), m).result == Ok::<Option<Batch>, Failure>(None),
{
    let db2 = after_writes(db, batch);
    recording_keeps_readable(db, n, batch);
    recording_writes_the_block(db, n, batch, n.entry.block_hash);
    recording_a_present_block_does_nothing(db2, m);
}

/// A block is recorded in its place: one height above its parent, and one height below the children
/// that its entry names. No other block names it as a child, nor one of its children.
pub open spec fn in_place(db: Db, n: NewBlock) -> bool {
    &&& forall|h: BlockNumber, b: H256| #[trigger]
        blocks_at(db, h).contains(b) && b == n.parent ==> n.number == h + 1
    &&& forall|b: H256| #[trigger] child_of(db, b, n.entry.block_hash) ==> b == n.parent
    &&& forall|x: H256| #[trigger]
        n.entry.children.contains(x) ==> x != n.entry.block_hash && (has_block(db, x)
            ==> blocks_at(db, (n.number + 1) as BlockNumber).contains(x))
    &&& forall|x: H256, b: H256|
        n.entry.children.contains(x) ==> !#[trigger] child_of(db, b, x)
}

/// Recording a block in its place keeps a database consistent.
pub proof fn recording_keeps_consistent(db: Db, n: NewBlock, batch: Batch)
    requires
        consistent(db),
        records(db, n, batch),
        in_place(db, n),
        n.entry.storable(),
        Bits::zeros(n.n_validators).storable(),
    ensures
        consistent(after_writes(db, batch)),
{
    let db2 = after_writes(db, batch);
    let hash = n.entry.block_hash;
    lemma_recorded(db, n, batch, range_key());
    assert(!has_block(db, hash));
    recording_keeps_readable(db, n, batch);
    recording_grows_the_range(db, n, batch);
    assert forall|h: BlockNumber, b: H256| #[trigger]
        blocks_at(db2, h).contains(b) == (blocks_at(db, h).contains(b) || (h == n.number && b
            == hash)) by {
        recording_lists_the_block(db, n, batch, h);
        lemma_contains_push(blocks_at(db, h), hash, b);
    }
    assert forall|b: H256| #[trigger] has_block(db2, b) == (has_block(db, b) || b == hash) by {
        recording_writes_the_block(db, n, batch, b);
    }
    assert(lists_consistent(db2)) by {
        assert forall|h: BlockNumber|
            (#[trigger] lookup(db2, height_key(h))) is Some implies in_range(db2, h) && blocks_at(
            db2,
            h,
        ).len() > 0 by {
            recording_lists_the_block(db, n, batch, h);
            if h != n.number {
                assert(in_range(db, h));
            }
        }
        assert forall|h: BlockNumber| (#[trigger] blocks_at(db2, h)).no_duplicates() by {
            recording_lists_the_block(db, n, batch, h);
            assert(blocks_at(db, h).no_duplicates());
        }
        assert forall|h: BlockNumber, g: BlockNumber, b: H256| #[trigger]
            blocks_at(db2, h).contains(b) && #[trigger] blocks_at(db2, g).contains(b) implies h
            == g by {
            if b == hash {
                assert(!blocks_at(db, h).contains(b));
                assert(!blocks_at(db, g).contains(b));
            } else {
                assert(blocks_at(db, h).contains(b) && blocks_at(db, g).contains(b));
            }
        }
        assert forall|b: H256| #[trigger] has_block(db2, b) implies is_listed(db2, b) by {
            if b == hash {
                assert(blocks_at(db2, n.number).contains(b));
            } else {
                assert(is_listed(db, b));
                let h = choose|h: BlockNumber| #[trigger] blocks_at(db, h).contains(b);
                assert(blocks_at(db2, h).contains(b));
            }
        }
    }
    assert(children_consistent(db2)) by {
        assert forall|h: BlockNumber, b: H256, x: H256| #[trigger]
            blocks_at(db2, h).contains(b) && #[trigger] child_of(db2, b, x) && has_block(
                db2,
                x,
            ) implies h < u32::MAX && blocks_at(db2, (h + 1) as BlockNumber).contains(x) by {
            lemma_child_after(db, n, batch, h, b, x);
        }
        assert forall|a: H256, b: H256, x: H256| #[trigger]
            child_of(db2, a, x) && #[trigger] child_of(db2, b, x) implies a == b by {
            lemma_child_before(db, n, batch, a, x);
            lemma_child_before(db, n, batch, b, x);
        }
    }
    lemma_candidates_after(db, n, batch);
}

/// Recording a block keeps a database clearable, wherever the block is recorded.
pub proof fn recording_keeps_clearable(db: Db, n: NewBlock, batch: Batch)
    requires
        clearable(db),
        records(db, n, batch),
        n.entry.storable(),
        Bits::zeros(n.n_validators).storable(),
    ensures
        clearable(after_writes(db, batch)),
{
    let db2 = after_writes(db, batch);
    let hash = n.entry.block_hash;
    lemma_recorded(db, n, batch, range_key());
    assert(!has_block(db, hash));
    recording_keeps_readable(db, n, batch);
    recording_grows_the_range(db, n, batch);
    assert forall|h: BlockNumber|
        (#[trigger] lookup(db2, height_key(h))) is Some implies in_range(db2, h) by {
        recording_lists_the_block(db, n, batch, h);
        if h != n.number {
            assert(in_range(db, h));
        }
    }
    assert forall|h: BlockNumber| (#[trigger] blocks_at(db2, h)).no_duplicates() by {
        recording_lists_the_block(db, n, batch, h);
        assert(blocks_at(db, h).no_duplicates());
    }
    assert forall|b: H256| #[trigger] has_block(db2, b) implies is_listed(db2, b) by {
        recording_writes_the_block(db, n, batch, b);
        if b == hash {
            recording_lists_the_block(db, n, batch, n.number);
            lemma_contains_push(blocks_at(db, n.number), hash, b);
            assert(blocks_at(db2, n.number).contains(b));
        } else {
            assert(has_block(db, b));
            assert(is_listed(db, b));
            let h = choose|h: BlockNumber| #[trigger] blocks_at(db, h).contains(b);
            recording_lists_the_block(db, n, batch, h);
            lemma_contains_push(blocks_at(db, h), hash, b);
            assert(blocks_at(db2, h).contains(b));
        }
    }
    lemma_candidates_after(db, n, batch);
}

/// Recording a block keeps the candidates in order.
proof fn lemma_candidates_after(db: Db, n: NewBlock, batch: Batch)
    requires
        candidates_consistent(db),
        records(db, n, batch),
        n.entry.storable(),
        Bits::zeros(n.n_validators).storable(),
    ensures
        candidates_consistent(after_writes(db, batch)),
{
    let db2 = after_writes(db, batch);
    let hash = n.entry.block_hash;
    lemma_recorded(db, n, batch, range_key());
    assert forall|c: CandidateHash, b: H256| #[trigger]
        is_under(db2, c, b) == block_includes(db2, b, c) by {
        recording_writes_the_block(db, n, batch, b);
        recording_adds_approval_entries(db, n, batch, c);
        assert(is_under(db, c, b) == block_includes(db, b, c));
        lemma_last_inclusion(n.entry, c);
    }
    assert forall|c: CandidateHash| #[trigger] has_candidate(db2, c) implies !orphaned(
        candidate_at(db2, c),
    ) by {
        recording_adds_approval_entries(db, n, batch, c);
        if n.entry.includes(c) {
            lemma_last_inclusion(n.entry, c);
            assert(candidate_at(db2, c).block_assignments.contains_key(hash));
        } else {
            assert(has_candidate(db, c));
        }
    }
}

/// There is a last inclusion of an included candidate.
pub(crate) proof fn lemma_last_inclusion(b: Block, c: CandidateHash)
    ensures
        b.includes(c) ==> includes_last(b, c, last_inclusion(b, c)),
{
    if b.includes(c) {
        let i = choose|i: int| 0 <= i < b.candidates.len() && (#[trigger] b.candidates[i]).1 == c;
        let j = lemma_includes_last(b, c, i);
    }
}

/// A child after a block was recorded is one that the new entry names, the new block itself, or one
/// that there was before.
proof fn lemma_child_before(db: Db, n: NewBlock, batch: Batch, b: H256, x: H256)
    requires
        records(db, n, batch),
        n.entry.storable(),
        child_of(after_writes(db, batch), b, x),
    ensures
        (b == n.entry.block_hash && n.entry.children.contains(x)) || (b == n.parent && x
            == n.entry.block_hash) || (b != n.entry.block_hash && child_of(db, b, x)),
{
    recording_writes_the_block(db, n, batch, b);
    if b != n.entry.block_hash && b == n.parent && has_block(db, b) {
        lemma_contains_push(block_at(db, b).children, n.entry.block_hash, x);
    }
}

/// The children of a block are one height above it, also after a block was recorded.
proof fn lemma_child_after(
    db: Db,
    n: NewBlock,
    batch: Batch,
    h: BlockNumber,
    b: H256,
    x: H256,
)
    requires
        consistent(db),
        records(db, n, batch),
        in_place(db, n),
        n.entry.storable(),
        blocks_at(after_writes(db, batch), h).contains(b),
        child_of(after_writes(db, batch), b, x),
        has_block(after_writes(db, batch), x),
    ensures
        h < u32::MAX,
        blocks_at(after_writes(db, batch), (h + 1) as BlockNumber).contains(x),
{
    let db2 = after_writes(db, batch);
    let hash = n.entry.block_hash;
    lemma_recorded(db, n, batch, range_key());
    recording_lists_the_block(db, n, batch, h);
    recording_writes_the_block(db, n, batch, b);
    recording_writes_the_block(db, n, batch, x);
    lemma_contains_push(blocks_at(db, h), hash, b);
    if b == hash {
        assert(!has_block(db, hash));
        assert(h == n.number);
        assert(n.entry.children.contains(x));
        let above = (n.number + 1) as BlockNumber;
        recording_lists_the_block(db, n, batch, above);
    } else {
        assert(blocks_at(db, h).contains(b));
        assert(has_block(db, b));
        if b == n.parent {
            lemma_contains_push(block_at(db, b).children, hash, x);
        }
        if x == hash {
            assert(b == n.parent || child_of(db, b, hash));
            assert(n.number == h + 1);
            recording_lists_the_block(db, n, batch, n.number);
            lemma_contains_push(blocks_at(db, n.number), hash, hash);
        } else {
            assert(child_of(db, b, x));
            assert(has_block(db, x));
            let above = (h + 1) as BlockNumber;
            assert(blocks_at(db, above).contains(x));
            recording_lists_the_block(db, n, batch, above);
            lemma_contains_push(blocks_at(db, above), hash, x);
        }
    }
}

} // verus!
