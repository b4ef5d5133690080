//! What recording a block changes, field by field.
use crate::add_laws::{
    candidate_fits, candidate_written, has_room, includes_last, known_through, last_inclusion,
    lemma_last_inclusion, lemma_recorded_block, lemma_written_blocks, lemma_written_candidate,
    recording_a_present_block_asks_nothing, recording_a_present_block_does_nothing,
    recording_adds_approval_entries, recording_grows_the_range, recording_lists_the_block,
    recording_writes_exactly_if_new_and_known, recording_writes_the_block, records,
};
use crate::adding::{add_plan, info_at, range_items, record_candidates, with_block, Items, NewBlock};
use crate::bitfield::Bits;
use crate::codec::Stored;
use crate::keys::{block_key, candidate_key, height_key, range_key};
use crate::operation::Query;
use crate::store::{
    after_writes, block_of, candidate_of, list_of, lookup, range_of, Batch, Db, Failure,
};
use crate::store_laws::{read_entries_are_storable, readable};
use crate::types::{Block, BlockEntry, BlockNumber, Candidate, CandidateEntry, CandidateHash, H256};
use vstd::prelude::*;

verus! {

/// A candidate that a recorded block includes, and that has an entry, keeps its receipt, its
/// session and the approvals that were given to it. What its entry says of other blocks stays as
/// it is, and it now says something of the recorded block.
pub proof fn recording_keeps_what_is_known_of_a_candidate(
    db: Db,
    n: NewBlock,
    batch: Batch,
    c: CandidateHash,
    before: Candidate,
)
    requires
        records(db, n, batch),
        Bits::zeros(n.n_validators).storable(),
        candidate_of(db, c) == Ok::<Option<Candidate>, Failure>(Some(before)),
    ensures
        candidate_of(after_writes(db, batch), c) matches Ok(Some(after)) && {
            &&& after.candidate == before.candidate
            &&& after.session == before.session
            &&& after.approvals.count == before.approvals.count
            &&& after.approvals.bytes == before.approvals.bytes
            &&& forall|b: H256|
                b != n.entry.block_hash ==> #[trigger] after.block_assignments.contains_key(b)
                    == before.block_assignments.contains_key(b)
            &&& forall|b: H256|
                b != n.entry.block_hash && #[trigger] before.block_assignments.contains_key(b)
                    ==> after.block_assignments[b] == before.block_assignments[b]
        },
{
    recording_adds_approval_entries(db, n, batch, c);
    lemma_last_inclusion(n.entry, c);
}

/// A candidate that a recorded block does not include has the entry that it had, or none.
pub proof fn recording_leaves_other_candidates(
    db: Db,
    n: NewBlock,
    batch: Batch,
    c: CandidateHash,
)
    requires
        records(db, n, batch),
        Bits::zeros(n.n_validators).storable(),
        forall|i: int|
            0 <= i < n.entry.candidates.len() ==> (#[trigger] n.entry.candidates[i]).1 != c,
    ensures
        candidate_of(after_writes(db, batch), c) == candidate_of(db, c),
{
    recording_adds_approval_entries(db, n, batch, c);
}

/// A candidate that a recorded block includes, and that had no entry, gets one. It has the session
/// of the block, the receipt that was given, no approval of any validator, and says something of
/// the recorded block only. The receipt is the one given where the block includes the candidate
/// for the last time.
pub proof fn recording_makes_an_entry_for_a_new_candidate(
    db: Db,
    n: NewBlock,
    batch: Batch,
    c: CandidateHash,
    j: int,
)
    requires
        records(db, n, batch),
        Bits::zeros(n.n_validators).storable(),
        candidate_of(db, c) == Ok::<Option<Candidate>, Failure>(None),
        0 <= j < n.entry.candidates.len(),
        n.entry.candidates[j].1 == c,
        forall|k: int|
            j < k < n.entry.candidates.len() ==> (#[trigger] n.entry.candidates[k]).1 != c,
    ensures
        j < n.infos.len(),
        n.infos[j] matches Some(info) && candidate_of(after_writes(db, batch), c) matches Ok(
            Some(after),
        ) && {
            &&& after.candidate == info.candidate
            &&& after.session == n.entry.session
            &&& after.approvals.count == n.n_validators
            &&& after.approvals.bytes.len() == (n.n_validators + 7) / 8
            &&& forall|i: int|
                0 <= i < after.approvals.bytes.len() ==> #[trigger] after.approvals.bytes[i] == 0
            &&& forall|b: H256| #[trigger]
                after.block_assignments.contains_key(b) == (b == n.entry.block_hash)
        },
{
    lemma_info_given(db, n, batch, c, j);
}

/// The info that counts for a candidate.
proof fn lemma_info_given(db: Db, n: NewBlock, batch: Batch, c: CandidateHash, j: int)
    requires
        records(db, n, batch),
        Bits::zeros(n.n_validators).storable(),
        includes_last(n.entry, c, j),
    ensures
        j < n.infos.len(),
        n.infos[j] is Some,
        candidate_of(after_writes(db, batch), c) == Ok::<Option<Candidate>, Failure>(
            Some(candidate_written(db, n, j)),
        ),
{
    lemma_recorded_block(db, n, batch);
    recording_adds_approval_entries(db, n, batch, c);
    assert(n.entry.candidates[j].1 == c);
    assert(n.entry.includes(c));
    lemma_last_inclusion(n.entry, c);
    let k = last_inclusion(n.entry, c);
    if j < k {
        assert(n.entry.candidates[k].1 != c);
    } else if k < j {
        assert(n.entry.candidates[j].1 != c);
    }
    assert(info_at(n.infos, j) is Some);
}

/// The approval entry that a candidate gets for a recorded block has nothing in it yet: it is not
/// approved, has no tranches, is not to be woken up at any tick, and no validator is assigned. It
/// names the backing group and our assignment that were given.
pub proof fn a_new_approval_entry_is_blank(
    db: Db,
    n: NewBlock,
    batch: Batch,
    c: CandidateHash,
    j: int,
)
    requires
        records(db, n, batch),
        Bits::zeros(n.n_validators).storable(),
        0 <= j < n.entry.candidates.len(),
        n.entry.candidates[j].1 == c,
        forall|k: int|
            j < k < n.entry.candidates.len() ==> (#[trigger] n.entry.candidates[k]).1 != c,
    ensures
        j < n.infos.len(),
        n.infos[j] matches Some(info) && candidate_of(after_writes(db, batch), c) matches Ok(
            Some(after),
        ) && after.block_assignments.contains_key(n.entry.block_hash) && {
            let approval = after.block_assignments[n.entry.block_hash];
            &&& !approval.approved
            &&& approval.tranches.len() == 0
            &&& approval.next_wakeup == 0
            &&& approval.backing_group == info.backing_group
            &&& approval.our_assignment == info.our_assignment
            &&& approval.assignments.count == n.n_validators
            &&& approval.assignments.bytes.len() == (n.n_validators + 7) / 8
            &&& forall|i: int|
                0 <= i < approval.assignments.bytes.len()
                    ==> #[trigger] approval.assignments.bytes[i] == 0
        },
{
    lemma_info_given(db, n, batch, c, j);
}

/// The parent of a recorded block, if it has an entry, keeps everything that the entry says, what
/// was approved in it among it. The recorded block is added behind its children.
pub proof fn recording_keeps_what_is_known_of_the_parent(
    db: Db,
    n: NewBlock,
    batch: Batch,
    before: Block,
)
    requires
        records(db, n, batch),
        n.entry.storable(),
        block_of(db, n.parent) == Ok::<Option<Block>, Failure>(Some(before)),
    ensures
        block_of(after_writes(db, batch), n.parent) matches Ok(Some(after)) && {
            &&& after.block_hash == before.block_hash
            &&& after.session == before.session
            &&& after.slot == before.slot
            &&& after.relay_vrf_story == before.relay_vrf_story
            &&& after.candidates == before.candidates
            &&& after.approved_bitfield.count == before.approved_bitfield.count
            &&& after.approved_bitfield.bytes == before.approved_bitfield.bytes
            &&& after.children.len() == before.children.len() + 1
            &&& after.children.last() == n.entry.block_hash
            &&& forall|i: int|
                0 <= i < before.children.len() ==> #[trigger] after.children[i]
                    == before.children[i]
        },
{
    lemma_recorded_block(db, n, batch);
    recording_writes_the_block(db, n, batch, n.parent);
}

/// A recorded block has the entry that was given. Every other block but its parent has the entry
/// that it had, or none.
pub proof fn recording_writes_the_given_entry(db: Db, n: NewBlock, batch: Batch, b: H256)
    requires
        records(db, n, batch),
        n.entry.storable(),
    ensures
        b == n.entry.block_hash ==> block_of(after_writes(db, batch), b) == Ok::<
            Option<Block>,
            Failure,
        >(Some(n.entry)),
        b != n.entry.block_hash && b != n.parent ==> block_of(after_writes(db, batch), b)
            == block_of(db, b),
        block_of(db, b) == Ok::<Option<Block>, Failure>(None) && b != n.entry.block_hash
            ==> block_of(after_writes(db, batch), b) == Ok::<Option<Block>, Failure>(None),
{
    recording_writes_the_block(db, n, batch, b);
}

/// The stored range afterwards is the smallest one that holds the range there was and the recorded
/// block.
pub proof fn the_range_is_the_smallest_that_holds_everything(db: Db, n: NewBlock, batch: Batch)
    requires
        records(db, n, batch),
    ensures
        range_of(after_writes(db, batch)) matches Ok(Some(after)) && {
            &&& after.0 <= n.number < after.1
            &&& range_of(db) matches Ok(None) ==> after.0 == n.number && after.1 == n.number + 1
            &&& range_of(db) matches Ok(Some(before)) ==> {
                &&& after.0 <= before.0 && before.1 <= after.1
                &&& after.0 == before.0 || after.0 == n.number
                &&& after.1 == before.1 || after.1 == n.number + 1
            }
        },
{
    lemma_recorded_block(db, n, batch);
    recording_grows_the_range(db, n, batch);
}

/// The list at the height of a recorded block is the one there was, with the block behind it. Every
/// other list is as it was.
pub proof fn the_block_is_listed_last(db: Db, n: NewBlock, batch: Batch, h: BlockNumber)
    requires
        records(db, n, batch),
    ensures
        list_of(db, h) matches Ok(before) && list_of(after_writes(db, batch), h) matches Ok(after)
            && {
            &&& h != n.number ==> after == before
            &&& h == n.number ==> {
                &&& after.len() == before.len() + 1
                &&& after.last() == n.entry.block_hash
                &&& forall|i: int| 0 <= i < before.len() ==> #[trigger] after[i] == before[i]
            }
        },
{
    assert(list_of(db, h) is Ok);
    recording_lists_the_block(db, n, batch, h);
}

/// The lists of a new block are short enough for the database, and so are those that it is added
/// to.
pub open spec fn lists_are_short(db: Db, n: NewBlock) -> bool {
    &&& list_of(db, n.number) matches Ok(list) && list.len() < u32::MAX
    &&& n.entry.candidates.len() <= u32::MAX
    &&& n.entry.children.len() <= u32::MAX
    &&& n.entry.approved_bitfield.count <= u32::MAX
    &&& n.n_validators <= u32::MAX && n.n_validators <= usize::MAX / 8
    &&& forall|j: int|
        0 <= j < n.infos.len() ==> (#[trigger] n.infos[j] matches Some(info)
            ==> info.candidate.len() <= u32::MAX)
    &&& forall|c: CandidateHash|
        (#[trigger] candidate_of(db, c)) matches Ok(Some(entry)) ==> entry.block_assignments.len()
            < u32::MAX
    &&& block_of(db, n.parent) matches Ok(Some(parent)) ==> parent.children.len() < u32::MAX
}

proof fn lemma_room(db: Db, n: NewBlock)
    requires
        readable(db),
        n.number < u32::MAX,
        lists_are_short(db, n),
    ensures
        has_room(db, n),
{
    read_entries_are_storable(db, n.number, n.parent, n.parent);
    assert forall|j: int|
        0 <= j < n.entry.candidates.len() && known_through(n, j) implies #[trigger] candidate_fits(
        db,
        n,
        j,
    ) by {
        let c = n.entry.candidates[j].1;
        assert(info_at(n.infos, j) is Some);
        assert(n.infos[j] is Some);
        assert(candidate_of(db, c) is Ok);
        read_entries_are_storable(db, n.number, n.parent, c);
    }
}

/// A new block is recorded, if everything is known of its candidates and its lists are short
/// enough.
pub proof fn a_new_block_is_recorded(db: Db, n: NewBlock, list: Seq<H256>)
    requires
        readable(db),
        n.number < u32::MAX,
        lists_are_short(db, n),
        list_of(db, n.number) == Ok::<Seq<H256>, Failure>(list),
        !list.contains(n.entry.block_hash),
        !db.contains_key(block_key(n.entry.block_hash)),
        n.entry.candidates.len() <= n.infos.len(),
        forall|j: int| 0 <= j < n.entry.candidates.len() ==> (#[trigger] n.infos[j]) is Some,
    ensures
        add_plan(db, n).result matches Ok(Some(_)),
{
    lemma_room(db, n);
    assert forall|k: int| 0 <= k < n.entry.candidates.len() implies (#[trigger] info_at(
        n.infos,
        k,
    )) is Some by {
        assert(n.infos[k] is Some);
    }
    recording_writes_exactly_if_new_and_known(db, n);
}

/// A block of whose candidates one is unknown is not recorded, and that is no error, if its lists
/// are short enough.
pub proof fn a_block_with_an_unknown_candidate_is_not_recorded(db: Db, n: NewBlock, k: int)
    requires
        readable(db),
        n.number < u32::MAX,
        lists_are_short(db, n),
        0 <= k < n.entry.candidates.len(),
        k < n.infos.len() ==> n.infos[k] is None,
    ensures
        add_plan(db, n).result == Ok::<Option<Batch>, Failure>(None),
{
    lemma_room(db, n);
    assert(info_at(n.infos, k) is None);
    recording_writes_exactly_if_new_and_known(db, n);
}

/// A block that is listed at its height, or that has something stored under its key, is not
/// recorded again, and that is no error. It is not asked about its candidates.
pub proof fn a_present_block_is_not_recorded(db: Db, n: NewBlock, list: Seq<H256>)
    requires
        range_of(db) is Ok,
        n.number < u32::MAX,
        list_of(db, n.number) == Ok::<Seq<H256>, Failure>(list),
        list.contains(n.entry.block_hash) || db.contains_key(block_key(n.entry.block_hash)),
    ensures
        add_plan(db, n).result == Ok::<Option<Batch>, Failure>(None),
        forall|c: CandidateHash| !(#[trigger] add_plan(db, n).queries.contains(Query::Info(c))),
{
    recording_a_present_block_does_nothing(db, n);
    assert forall|c: CandidateHash| !(#[trigger] add_plan(db, n).queries.contains(
        Query::Info(c),
    )) by {
        recording_a_present_block_asks_nothing(db, n, c);
    }
}

/// What is recorded is new, everything is known of its candidates, and it fits in the database.
pub proof fn what_is_recorded_is_new_and_fits(db: Db, n: NewBlock, batch: Batch)
    requires
        records(db, n, batch),
    ensures
        n.number < u32::MAX,
        list_of(db, n.number) matches Ok(list) && list.len() < u32::MAX && !list.contains(
            n.entry.block_hash,
        ),
        !db.contains_key(block_key(n.entry.block_hash)),
        n.entry.candidates.len() <= n.infos.len(),
        forall|j: int| 0 <= j < n.entry.candidates.len() ==> (#[trigger] n.infos[j]) is Some,
        n.entry.candidates.len() > 0 ==> n.n_validators <= u32::MAX,
        n.entry.candidates.len() <= u32::MAX,
        n.entry.children.len() <= u32::MAX,
        n.entry.approved_bitfield.count <= u32::MAX,
        block_of(db, n.parent) matches Ok(Some(parent)) ==> parent.children.len() < u32::MAX,
{
    lemma_recorded_block(db, n, batch);
    assert(list_of(db, n.number) is Ok);
    recording_writes_exactly_if_new_and_known(db, n);
    if n.entry.candidates.len() > 0 {
        assert(info_at(n.infos, n.entry.candidates.len() - 1) is Some);
        assert(info_at(n.infos, 0) is Some);
        assert(known_through(n, 0));
        assert(candidate_fits(db, n, 0));
    }
    assert forall|j: int| 0 <= j < n.entry.candidates.len() implies (
    #[trigger] n.infos[j]) is Some by {
        assert(info_at(n.infos, j) is Some);
    }
}

proof fn lemma_candidate_queries(db: Db, n: NewBlock, i: nat, items: Items)
    requires
        i <= n.entry.candidates.len(),
        record_candidates(db, n, i, items).result matches Ok(Some(_)),
    ensures
        ({
            let queries = record_candidates(db, n, i, items).queries;
            let left = n.entry.candidates.len() - i;
            &&& queries.len() == 2 * left + 1
            &&& queries[2 * left] == Query::Value(block_key(n.parent))
            &&& forall|j: int|
                0 <= j < left ==> queries[2 * j] == Query::Info(
                    (#[trigger] n.entry.candidates[i + j]).1,
                ) && queries[2 * j + 1] == Query::Value(
                    candidate_key(n.entry.candidates[i + j].1),
                )
        }),
    decreases n.entry.candidates.len() - i,
{
    if i < n.entry.candidates.len() {
        let c = n.entry.candidates[i as int].1;
        let info = info_at(n.infos, i as int)->Some_0;
        let old = candidate_of(db, c)->Ok_0;
        let entry = with_block(n, info, old);
        let more = items.push((candidate_key(c), CandidateEntry::encoded(entry)));
        lemma_candidate_queries(db, n, i + 1, more);
        let rest = record_candidates(db, n, i + 1, more).queries;
        let queries = record_candidates(db, n, i, items).queries;
        assert(queries =~= seq![Query::Info(c), Query::Value(candidate_key(c))] + rest);
        let left = n.entry.candidates.len() - i;
        assert forall|j: int| 0 <= j < left implies queries[2 * j] == Query::Info(
            (#[trigger] n.entry.candidates[i + j]).1,
        ) && queries[2 * j + 1] == Query::Value(candidate_key(n.entry.candidates[i + j].1)) by {
            if j > 0 {
                assert(n.entry.candidates[(i + 1) + (j - 1)] == n.entry.candidates[i + j]);
                assert(queries[2 * j] == rest[2 * (j - 1)]);
                assert(queries[2 * j + 1] == rest[2 * (j - 1) + 1]);
            }
        }
    }
}

/// Recording a block asks for the range, for the list at its height and for its own entry. Then,
/// for one candidate after the other, it asks what is known of the candidate, and for its entry. In
/// the end it asks for the entry of the parent.
pub proof fn recording_asks_in_order(db: Db, n: NewBlock, batch: Batch)
    requires
        records(db, n, batch),
    ensures
        ({
            let queries = add_plan(db, n).queries;
            let len = n.entry.candidates.len() as int;
            &&& queries.len() == 2 * len + 4
            &&& queries[0] == Query::Value(range_key())
            &&& queries[1] == Query::Value(height_key(n.number))
            &&& queries[2] == Query::Value(block_key(n.entry.block_hash))
            &&& forall|j: int|
                0 <= j < len ==> queries[3 + 2 * j] == Query::Info(
                    (#[trigger] n.entry.candidates[j]).1,
                ) && queries[4 + 2 * j] == Query::Value(candidate_key(n.entry.candidates[j].1))
            &&& queries[3 + 2 * len] == Query::Value(block_key(n.parent))
        }),
{
    lemma_recorded_block(db, n, batch);
    let list = list_of(db, n.number)->Ok_0;
    let start = range_items(range_of(db)->Ok_0, n.number);
    let items = start.push(
        (height_key(n.number), Vec::<H256>::encoded(list.push(n.entry.block_hash))),
    );
    assert(list_of(db, n.number) is Ok);
    let rest = record_candidates(db, n, 0, items).queries;
    let queries = add_plan(db, n).queries;
    lemma_candidate_queries(db, n, 0, items);
    assert(queries =~= seq![
        Query::Value(range_key()),
        Query::Value(height_key(n.number)),
        Query::Value(block_key(n.entry.block_hash)),
    ] + rest);
    let len = n.entry.candidates.len();
    assert forall|j: int| 0 <= j < len implies queries[3 + 2 * j] == Query::Info(
        (#[trigger] n.entry.candidates[j]).1,
    ) && queries[4 + 2 * j] == Query::Value(candidate_key(n.entry.candidates[j].1)) by {
        assert(n.entry.candidates[0 + j] == n.entry.candidates[j]);
        assert(queries[3 + 2 * j] == rest[2 * j]);
        assert(queries[4 + 2 * j] == rest[2 * j + 1]);
    }
}

/// What is stored for a recorded block is the entry that was given, also where its bit vector is
/// too long to be read back.
pub proof fn the_given_entry_is_stored(db: Db, n: NewBlock, batch: Batch)
    requires
        records(db, n, batch),
    ensures
        lookup(after_writes(db, batch), block_key(n.entry.block_hash)) == Some(
            BlockEntry::encoded(n.entry),
        ),
{
    lemma_written_blocks(db, n, batch);
}

/// What is stored for the parent of a recorded block is the entry that it had, with the block
/// behind its children.
pub proof fn the_parent_is_stored_with_its_child(
    db: Db,
    n: NewBlock,
    batch: Batch,
    before: Block,
)
    requires
        records(db, n, batch),
        block_of(db, n.parent) == Ok::<Option<Block>, Failure>(Some(before)),
    ensures
        exists|after: Block|
            lookup(after_writes(db, batch), block_key(n.parent)) == Some(
                #[trigger] BlockEntry::encoded(after),
            ) && {
                &&& after.block_hash == before.block_hash
                &&& after.session == before.session
                &&& after.slot == before.slot
                &&& after.relay_vrf_story == before.relay_vrf_story
                &&& after.candidates == before.candidates
                &&& after.approved_bitfield == before.approved_bitfield
                &&& after.children.len() == before.children.len() + 1
                &&& after.children.last() == n.entry.block_hash
                &&& after.children.drop_last() == before.children
            },
{
    lemma_written_blocks(db, n, batch);
    let after = before.with_child(n.entry.block_hash);
    assert(after.children.drop_last() =~= before.children);
    assert(lookup(after_writes(db, batch), block_key(n.parent)) == Some(
        BlockEntry::encoded(after),
    ));
}

/// What is stored for a candidate that a recorded block includes, whatever the number of
/// validators. If it had an entry, all of it stays, but for what it says of the recorded block; if
/// not, it has the session of the block, the receipt that was given and no approval. Of the
/// recorded block it says that nothing happened yet.
pub proof fn a_candidate_is_stored_with_a_blank_approval_entry(
    db: Db,
    n: NewBlock,
    batch: Batch,
    c: CandidateHash,
    j: int,
)
    requires
        records(db, n, batch),
        0 <= j < n.entry.candidates.len(),
        n.entry.candidates[j].1 == c,
        forall|k: int|
            j < k < n.entry.candidates.len() ==> (#[trigger] n.entry.candidates[k]).1 != c,
    ensures
        j < n.infos.len(),
        n.infos[j] matches Some(info) && exists|after: Candidate|
            lookup(after_writes(db, batch), candidate_key(c)) == Some(
                #[trigger] CandidateEntry::encoded(after),
            ) && {
                let hash = n.entry.block_hash;
                &&& candidate_of(db, c) matches Ok(Some(before)) ==> {
                    &&& after.candidate == before.candidate
                    &&& after.session == before.session
                    &&& after.approvals == before.approvals
                    &&& after.block_assignments.remove(hash) == before.block_assignments.remove(
                        hash,
                    )
                }
                &&& candidate_of(db, c) matches Ok(None) ==> {
                    &&& after.candidate == info.candidate
                    &&& after.session == n.entry.session
                    &&& after.approvals.count == n.n_validators
                    &&& after.approvals.bytes.len() == (n.n_validators + 7) / 8
                    &&& forall|i: int|
                        0 <= i < after.approvals.bytes.len()
                            ==> #[trigger] after.approvals.bytes[i] == 0
                    &&& after.block_assignments.dom() == set![hash]
                }
                &&& after.block_assignments.contains_key(hash)
                &&& !after.block_assignments[hash].approved
                &&& after.block_assignments[hash].tranches.len() == 0
                &&& after.block_assignments[hash].next_wakeup == 0
                &&& after.block_assignments[hash].backing_group == info.backing_group
                &&& after.block_assignments[hash].our_assignment == info.our_assignment
                &&& after.block_assignments[hash].assignments.count == n.n_validators
                &&& after.block_assignments[hash].assignments.bytes.len() == (n.n_validators + 7)
                    / 8
                &&& forall|i: int|
                    0 <= i < after.block_assignments[hash].assignments.bytes.len()
                        ==> #[trigger] after.block_assignments[hash].assignments.bytes[i] == 0
            },
{
    let hash = n.entry.block_hash;
    lemma_recorded_block(db, n, batch);
    assert(info_at(n.infos, j) is Some);
    lemma_written_candidate(db, n, batch, c, j);
    let after = candidate_written(db, n, j);
    assert(candidate_of(db, c) is Ok);
    if let Ok(Some(before)) = candidate_of(db, c) {
        assert(after.block_assignments.remove(hash) =~= before.block_assignments.remove(hash));
    } else {
        assert(after.block_assignments.dom() =~= set![hash]);
    }
    assert(lookup(after_writes(db, batch), candidate_key(c)) == Some(
        CandidateEntry::encoded(after),
    ));
}

proof fn lemma_recording_overflows(db: Db, n: NewBlock, i: nat, items: Items)
    requires
        readable(db),
    ensures
        record_candidates(db, n, i, items).result matches Err(e) ==> e is Overflow,
    decreases n.entry.candidates.len() - i,
{
    if i >= n.entry.candidates.len() {
        assert(block_of(db, n.parent) is Ok);
    } else if let Some(info) = info_at(n.infos, i as int) {
        let c = n.entry.candidates[i as int].1;
        assert(candidate_of(db, c) is Ok);
        let entry = with_block(n, info, candidate_of(db, c)->Ok_0);
        let more = items.push((candidate_key(c), CandidateEntry::encoded(entry)));
        lemma_recording_overflows(db, n, i + 1, more);
    }
}

/// Recording a block of a database that can be read fails in one way only, by overflow.
pub proof fn recording_fails_only_by_overflow(db: Db, n: NewBlock)
    requires
        readable(db),
        add_plan(db, n).result is Err,
    ensures
        add_plan(db, n).result == Err::<Option<Batch>, Failure>(Failure::Overflow),
{
    let list = list_of(db, n.number)->Ok_0;
    assert(list_of(db, n.number) is Ok);
    let start = range_items(range_of(db)->Ok_0, n.number);
    let items = start.push(
        (height_key(n.number), Vec::<H256>::encoded(list.push(n.entry.block_hash))),
    );
    lemma_recording_overflows(db, n, 0, items);
}

/// A block that has the last number, or a new one of which everything is known and that does not
/// fit in the database, overflows.
pub proof fn a_block_that_does_not_fit_overflows(db: Db, n: NewBlock, list: Seq<H256>)
    requires
        readable(db),
        list_of(db, n.number) == Ok::<Seq<H256>, Failure>(list),
        n.number == u32::MAX || {
            &&& !list.contains(n.entry.block_hash)
            &&& !db.contains_key(block_key(n.entry.block_hash))
            &&& n.entry.candidates.len() <= n.infos.len()
            &&& forall|j: int| 0 <= j < n.entry.candidates.len() ==> (#[trigger] n.infos[j]) is Some
            &&& {
                ||| list.len() >= u32::MAX
                ||| n.entry.candidates.len() > 0 && n.n_validators > u32::MAX
                ||| n.entry.candidates.len() > u32::MAX
                ||| n.entry.children.len() > u32::MAX
                ||| n.entry.approved_bitfield.count > u32::MAX
                ||| block_of(db, n.parent) matches Ok(Some(parent)) && parent.children.len()
                    >= u32::MAX
            }
        },
    ensures
        add_plan(db, n).result == Err::<Option<Batch>, Failure>(Failure::Overflow),
{
    recording_writes_exactly_if_new_and_known(db, n);
    if let Ok(outcome) = add_plan(db, n).result {
        if n.number < u32::MAX {
            assert forall|k: int| 0 <= k < n.entry.candidates.len() implies (#[trigger] info_at(
                n.infos,
                k,
            )) is Some by {
                assert(n.infos[k] is Some);
            }
            what_is_recorded_is_new_and_fits(db, n, outcome->Some_0);
        }
    }
    recording_fails_only_by_overflow(db, n);
}

} // verus!
