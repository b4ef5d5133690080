//! What holds of the database after any sequence of operations.
use crate::add_laws::{recording_keeps_clearable, recording_leaves_other_values};
use crate::adding::{add_plan, NewBlock};
use crate::bitfield::Bits;
use crate::canonicalize_laws::{canonicalizing_leaves_other_values, lemma_some_account};
use crate::clear::clear_plan;
use crate::clear_laws::{clearing_leaves_nothing, clearing_leaves_other_values};
use crate::consistency::{canonicalizing_keeps_clearable, clearable, without_entries_is_clearable};
use crate::keys::range_key;
use crate::pruning::canonicalize_plan;
use crate::store::{after_end, lookup, Batch, Db, Failure};
use crate::store_laws::ours;
use crate::types::{BlockNumber, H256};
use vstd::prelude::*;

verus! {

/// An operation that changes the database.
pub enum Change {
    /// A block is recorded.
    Record(NewBlock),
    /// A block is canonicalized.
    Canonicalize(BlockNumber, H256),
}

impl Change {
    /// How the operation ends.
    pub open spec fn end(self, db: Db) -> Result<Option<Batch>, Failure> {
        match self {
            Change::Record(n) => add_plan(db, n).result,
            Change::Canonicalize(number, hash) => canonicalize_plan(db, number, hash).result,
        }
    }

    /// The bit vectors that the operation writes can be read back.
    pub open spec fn storable(self) -> bool {
        match self {
            Change::Record(n) => n.entry.storable() && Bits::zeros(n.n_validators).storable(),
            Change::Canonicalize(_, _) => true,
        }
    }
}

/// The store after some operations. One that fails leaves it as it is.
pub open spec fn after_changes(db: Db, changes: Seq<Change>) -> Db
    decreases changes.len(),
{
    if changes.len() == 0 {
        db
    } else {
        let before = after_changes(db, changes.drop_last());
        after_end(before, changes.last().end(before))
    }
}

/// Whatever blocks are recorded and canonicalized, in whatever order, the database stays clearable.
pub proof fn changes_keep_clearable(db: Db, changes: Seq<Change>)
    requires
        clearable(db),
        forall|i: int| 0 <= i < changes.len() ==> (#[trigger] changes[i]).storable(),
    ensures
        clearable(after_changes(db, changes)),
    decreases changes.len(),
{
    if changes.len() > 0 {
        let fewer = changes.drop_last();
        assert forall|i: int| 0 <= i < fewer.len() implies (#[trigger] fewer[i]).storable() by {
            assert(changes[i].storable());
        }
        changes_keep_clearable(db, fewer);
        let before = after_changes(db, fewer);
        let last = changes.last();
        assert(changes[changes.len() - 1].storable());
        if let Ok(Some(batch)) = last.end(before) {
            match last {
                Change::Record(n) => {
                    recording_keeps_clearable(before, n, batch);
                },
                Change::Canonicalize(number, hash) => {
                    let (range, _) = lemma_some_account(before, number, hash, batch);
                    canonicalizing_keeps_clearable(before, number, hash, range, batch);
                },
            }
        }
    }
}

/// Whatever blocks are recorded and canonicalized, what does not belong to the database is left
/// alone.
pub proof fn changes_leave_other_values(db: Db, changes: Seq<Change>, key: Seq<u8>)
    requires
        !ours(key),
    ensures
        lookup(after_changes(db, changes), key) == lookup(db, key),
    decreases changes.len(),
{
    if changes.len() > 0 {
        let before = after_changes(db, changes.drop_last());
        changes_leave_other_values(db, changes.drop_last(), key);
        match changes.last() {
            Change::Record(n) => recording_leaves_other_values(before, n, key),
            Change::Canonicalize(number, hash) => canonicalizing_leaves_other_values(
                before,
                number,
                hash,
                key,
            ),
        }
    }
}

/// Clearing gives back the store that there was before any block was recorded, whatever blocks were
/// recorded and canonicalized since.
pub proof fn clearing_gives_back_the_store(start: Db, changes: Seq<Change>)
    requires
        forall|key: Seq<u8>| #[trigger] ours(key) ==> !start.contains_key(key),
        forall|i: int| 0 <= i < changes.len() ==> (#[trigger] changes[i]).storable(),
    ensures
        clear_plan(after_changes(start, changes)).result is Ok,
        after_end(
            after_changes(start, changes),
            clear_plan(after_changes(start, changes)).result,
        ) == start,
{
    let db = after_changes(start, changes);
    let end = after_end(db, clear_plan(db).result);
    without_entries_is_clearable(start);
    changes_keep_clearable(start, changes);
    clearing_leaves_nothing(db, range_key());
    assert forall|key: Seq<u8>| lookup(end, key) == #[trigger] lookup(start, key) by {
        if ours(key) {
            clearing_leaves_nothing(db, key);
        } else {
            clearing_leaves_other_values(db, key);
            changes_leave_other_values(start, changes, key);
        }
    }
    assert forall|key: Seq<u8>| #[trigger] end.contains_key(key) == start.contains_key(key) by {
        assert(lookup(end, key) == lookup(start, key));
    }
    assert forall|key: Seq<u8>| #[trigger] end.contains_key(key) implies end[key] == start[key] by {
        assert(lookup(end, key) == lookup(start, key));
    }
    assert(end =~= start);
}

} // verus!
