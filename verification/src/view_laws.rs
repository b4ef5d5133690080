//! What an entry stands for is what its fields hold.
use crate::add_block::{agrees, ends_in, info_view};
use crate::adding::{add_plan, Infos, NewBlock};
use crate::assignments::{ascending, collected, lemma_collected_exists};
use crate::cli::{Source, SpecSource};
use crate::hashes::{first_difference, hash_before};
use crate::operation::{outcome_view, reads_from, RunError};
use crate::scale::layout_of;
use crate::store::{lookup, reply_view, Batch, Db, Error, Failure, WriteBatch};
use crate::types::{ApprovalEntry, BlockEntry, Candidate, CandidateEntry, NewCandidateInfo, H256};
use vstd::prelude::*;

verus! {

/// Two block entries stand for the same exactly if their fields hold the same.
pub proof fn a_block_entry_stands_for_its_fields(e: BlockEntry)
    ensures
        e@.block_hash == e.block_hash,
        e@.session == e.session,
        e@.slot == e.slot,
        e@.relay_vrf_story == e.relay_vrf_story,
        e@.candidates == e.candidates@,
        e@.approved_bitfield == e.approved_bitfield@,
        e@.children == e.children@,
{
}

/// A candidate entry stands for what its fields hold.
pub proof fn a_candidate_entry_stands_for_its_fields(e: CandidateEntry)
    ensures
        e@.candidate == e.candidate.encoded@,
        e@.session == e.session,
        e@.block_assignments == e.block_assignments@,
        e@.approvals == e.approvals@,
{
}

/// An approval entry stands for what its fields hold, its tranches each by what they hold.
pub proof fn an_approval_entry_stands_for_its_fields(e: ApprovalEntry)
    ensures
        e@.tranches.len() == e.tranches@.len(),
        forall|i: int|
            0 <= i < e.tranches@.len() ==> (#[trigger] e@.tranches[i]).tranche
                == e.tranches@[i].tranche && e@.tranches[i].assignments
                == e.tranches@[i].assignments@,
        e@.backing_group == e.backing_group,
        e@.next_wakeup == e.next_wakeup,
        e@.our_assignment == e.our_assignment,
        e@.assignments == e.assignments@,
        e@.approved == e.approved,
{
}

/// What is known of a candidate stands for what its fields hold.
pub proof fn an_info_stands_for_its_fields(info: NewCandidateInfo)
    ensures
        info@.candidate == info.candidate.encoded@,
        info@.backing_group == info.backing_group,
        info@.our_assignment == info.our_assignment,
{
}

/// An answer stands for an info if it is one, and for nothing if it is none.
pub proof fn an_answer_stands_for_what_it_says(answer: Option<NewCandidateInfo>)
    ensures
        answer is None == info_view(answer) is None,
        answer matches Some(info) ==> info_view(answer) == Some(info@),
{
}

/// Infos agree with answers exactly if they begin with what the answers stand for.
pub proof fn answers_begin_the_infos(infos: Infos, answers: Seq<Option<NewCandidateInfo>>)
    ensures
        agrees(infos, answers) <==> (answers.len() <= infos.len() && forall|i: int|
            0 <= i < answers.len() ==> ((#[trigger] answers[i]) matches Some(info) ==> infos[i]
                == Some(info@)) && (answers[i] is None ==> infos[i] is None)),
{
    if agrees(infos, answers) {
        assert forall|i: int| 0 <= i < answers.len() implies ((#[trigger] answers[i]) matches Some(
            info,
        ) ==> infos[i] == Some(info@)) && (answers[i] is None ==> infos[i] is None) by {
            assert(infos[i] == info_view(answers[i]));
        }
    }
}

/// What a recording ends in is what its plan ends in, for every store that is read from and all
/// infos that begin with the answers.
pub proof fn a_recording_ends_as_planned<E, F: Fn(&Vec<u8>) -> Result<Option<Vec<u8>>, E>>(
    read: F,
    block: spec_fn(Infos) -> NewBlock,
    answers: Seq<Option<NewCandidateInfo>>,
    r: Result<Option<WriteBatch>, RunError<E>>,
    db: Db,
    infos: Infos,
)
    requires
        ends_in(read, block, answers, r),
        reads_from(read, db),
        agrees(infos, answers),
    ensures
        r matches Ok(None) ==> add_plan(db, block(infos)).result == Ok::<Option<Batch>, Failure>(
            None,
        ),
        r matches Ok(Some(batch)) ==> add_plan(db, block(infos)).result == Ok::<
            Option<Batch>,
            Failure,
        >(Some(batch@)),
        r matches Err(RunError::Operation(e)) ==> add_plan(db, block(infos)).result == Err::<
            Option<Batch>,
            Failure,
        >(e@),
{
}

/// A batch of writes stands for its insertions and deletions, one for one and in order.
pub proof fn a_batch_stands_for_its_writes(batch: WriteBatch)
    ensures
        batch@.inserted.len() == batch.inserted@.len(),
        forall|i: int|
            0 <= i < batch.inserted@.len() ==> (#[trigger] batch@.inserted[i]).0
                == batch.inserted@[i].0@ && batch@.inserted[i].1 == batch.inserted@[i].1@,
        batch@.deleted.len() == batch.deleted@.len(),
        forall|i: int|
            0 <= i < batch.deleted@.len() ==> #[trigger] batch@.deleted[i] == batch.deleted@[i]@,
{
}

/// An error stands for what it says, and the end of an operation for what it came to.
pub proof fn an_end_stands_for_what_it_came_to(
    text: String,
    batch: WriteBatch,
    e: Error,
    reply: Vec<u8>,
)
    ensures
        Error::Storage(text)@ == Failure::Storage(text@),
        Error::Overflow@ == Failure::Overflow,
        outcome_view(Ok(Some(batch))) == Ok::<Option<Batch>, Failure>(Some(batch@)),
        outcome_view(Ok(None)) == Ok::<Option<Batch>, Failure>(None),
        outcome_view(Err(e)) == Err::<Option<Batch>, Failure>(e@),
        reply_view(Some(reply)) == Some(reply@),
        reply_view(None) == None::<Seq<u8>>,
{
}

/// A value is looked up by its key.
pub proof fn a_value_is_found_under_its_key(db: Db, key: Seq<u8>)
    ensures
        lookup(db, key) is Some == db.contains_key(key),
        db.contains_key(key) ==> lookup(db, key) == Some(db[key]),
{
}

/// Reading gives what a store holds if every value that is read is the one under its key.
pub proof fn reading_gives_what_the_store_holds<
    E,
    F: Fn(&Vec<u8>) -> Result<Option<Vec<u8>>, E>,
>(read: F, db: Db)
    ensures
        reads_from(read, db) <==> (forall|key: Vec<u8>, reply: Option<Vec<u8>>| #[trigger]
            read.ensures((&key,), Ok(reply)) ==> match reply {
                Some(raw) => db.contains_key(key@) && raw@ == db[key@],
                None => !db.contains_key(key@),
            }),
{
    if reads_from(read, db) {
        assert forall|key: Vec<u8>, reply: Option<Vec<u8>>| #[trigger]
            read.ensures((&key,), Ok(reply)) implies match reply {
            Some(raw) => db.contains_key(key@) && raw@ == db[key@],
            None => !db.contains_key(key@),
        } by {
            assert(reply_view(reply) == lookup(db, key@));
        }
    }
}

/// The source of a spec stands for the network, or for the path of the file.
pub proof fn a_source_stands_for_what_it_names(path: String)
    ensures
        SpecSource::Rococo@ == Source::Rococo,
        SpecSource::RococoStaging@ == Source::RococoStaging,
        SpecSource::RococoLocal@ == Source::RococoLocal,
        SpecSource::File(path)@ == Source::File(path@),
{
}

/// Pairs collect to a map that has exactly their keys. Under each key it has the value of the last
/// pair with that key.
pub proof fn the_last_pair_counts<T>(pairs: Seq<(H256, T)>, i: int)
    ensures
        forall|key: H256| #[trigger]
            collected(pairs).contains_key(key) ==> exists|j: int|
                0 <= j < pairs.len() && (#[trigger] pairs[j]).0 == key,
        0 <= i < pairs.len() && (forall|j: int|
            i < j < pairs.len() ==> (#[trigger] pairs[j]).0 != pairs[i].0) ==> collected(
            pairs,
        ).contains_key(pairs[i].0) && collected(pairs)[pairs[i].0] == pairs[i].1,
    decreases pairs.len(),
{
    if pairs.len() > 0 {
        let fewer = pairs.drop_last();
        the_last_pair_counts(fewer, i);
        assert forall|key: H256| #[trigger]
            collected(pairs).contains_key(key) implies exists|j: int|
            0 <= j < pairs.len() && (#[trigger] pairs[j]).0 == key by {
            if collected(fewer).contains_key(key) {
                let j = choose|j: int| 0 <= j < fewer.len() && (#[trigger] fewer[j]).0 == key;
                assert(pairs[j].0 == key);
            } else {
                assert(pairs[pairs.len() - 1].0 == key);
            }
        }
        if 0 <= i < pairs.len() - 1 && (forall|j: int|
            i < j < pairs.len() ==> (#[trigger] pairs[j]).0 != pairs[i].0) {
            assert(pairs[pairs.len() - 1].0 != pairs[i].0);
            assert forall|j: int| i < j < fewer.len() implies (#[trigger] fewer[j]).0
                != fewer[i].0 by {
                assert(pairs[j].0 != pairs[i].0);
            }
            assert(fewer[i] == pairs[i]);
        }
    }
}

/// A candidate entry is written with its approval entries in ascending order of the blocks' hashes:
/// of two of them, the first has the smaller byte where the hashes first differ. Everything that it
/// says of a block is written, and nothing else.
pub proof fn approval_entries_are_written_in_order(c: Candidate, i: int, j: int)
    requires
        c.block_assignments.dom().finite(),
        0 <= i < j < layout_of(c).pairs.len(),
    ensures
        exists|k: int|
            0 <= k < 32 && (#[trigger] layout_of(c).pairs[i].0[k]) < layout_of(c).pairs[j].0[k]
                && forall|l: int|
                0 <= l < k ==> layout_of(c).pairs[i].0[l] == layout_of(c).pairs[j].0[l],
        collected(layout_of(c).pairs) == c.block_assignments,
        layout_of(c).candidate == c.candidate,
        layout_of(c).session == c.session,
        layout_of(c).approvals == c.approvals,
{
    let pairs = lemma_collected_exists(c.block_assignments);
    assert(ascending(pairs) && collected(pairs) == c.block_assignments);
    let a = layout_of(c).pairs[i].0;
    let b = layout_of(c).pairs[j].0;
    assert(hash_before(a, b));
    let k = choose|k: int| first_difference(a, b, k) && a[k] < b[k];
    assert(a[k] < b[k]);
}

} // verus!
