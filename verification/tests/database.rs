use approvals_db::{
    add_block_entry, begin_adding, block_entry_key, blocks_at_height_key, candidate_entry_key,
    canonicalize, clear, load_block_entry, load_blocks_at_height, load_candidate_entry,
    load_stored_blocks, run, stored_blocks_key, AddStep, Bitfield, BlockEntry, CandidateEntry,
    CandidateReceipt, Error, NewCandidateInfo, Operation, OurAssignment, RunError, Step, Stored,
    StoredBlockRange, WriteBatch, H256,
};
use std::collections::BTreeMap;

type Db = BTreeMap<Vec<u8>, Vec<u8>>;

type Outcome = Result<Option<WriteBatch>, RunError<()>>;

fn write(db: &mut Db, outcome: Outcome) -> Result<bool, Error> {
    match outcome {
        Ok(None) => Ok(false),
        Ok(Some(batch)) => {
            for (key, value) in batch.inserted {
                db.insert(key, value);
            }
            for key in batch.deleted {
                db.remove(&key);
            }
            Ok(true)
        }
        Err(RunError::Operation(e)) => Err(e),
        Err(RunError::Store(())) => panic!("the store does not fail"),
    }
}

fn apply<M: Operation>(db: &mut Db, first: Step<M>) -> Result<bool, Error> {
    let outcome = run(first, |key: &Vec<u8>| Ok::<Option<Vec<u8>>, ()>(db.get(key).cloned()));
    write(db, outcome)
}

fn record(
    db: &mut Db,
    parent: H256,
    number: u32,
    entry: BlockEntry,
    n_validators: usize,
    info: impl Fn(&H256) -> Option<NewCandidateInfo>,
) -> Result<bool, Error> {
    let read = |key: &Vec<u8>| Ok::<Option<Vec<u8>>, ()>(db.get(key).cloned());
    let outcome = add_block_entry(read, parent, number, entry, n_validators, info);
    write(db, outcome)
}

fn hash(n: u8) -> H256 {
    [n; 32]
}

fn block(n: u8, candidates: Vec<(u32, H256)>) -> BlockEntry {
    let bits = candidates.len();
    BlockEntry {
        block_hash: hash(n),
        session: 1,
        slot: 7,
        relay_vrf_story: [9; 32],
        candidates,
        approved_bitfield: Bitfield::zeros(bits),
        children: vec![],
    }
}

fn receipt() -> CandidateReceipt {
    CandidateReceipt { encoded: vec![1, 2, 3] }
}

fn info(_: &H256) -> Option<NewCandidateInfo> {
    Some(NewCandidateInfo { candidate: receipt(), backing_group: 4, our_assignment: None })
}

fn add(db: &mut Db, parent: u8, number: u32, n: u8, candidates: Vec<(u32, H256)>) {
    assert_eq!(record(db, hash(parent), number, block(n, candidates), 8, info), Ok(true));
}

fn range(db: &Db) -> Option<StoredBlockRange> {
    load_stored_blocks(db.get(&stored_blocks_key()[..]).cloned()).unwrap()
}

fn at_height(db: &Db, height: u32) -> Vec<H256> {
    load_blocks_at_height(db.get(&blocks_at_height_key(height)[..]).cloned()).unwrap()
}

fn block_entry(db: &Db, n: u8) -> Option<BlockEntry> {
    load_block_entry(db.get(&block_entry_key(&hash(n))[..]).cloned()).unwrap()
}

fn candidate_entry(db: &Db, n: u8) -> Option<CandidateEntry> {
    load_candidate_entry(db.get(&candidate_entry_key(&hash(n))[..]).cloned()).unwrap()
}

fn is_under(db: &Db, candidate: u8, n: u8) -> bool {
    candidate_entry(db, candidate).unwrap().block_assignments.get(&hash(n)).is_some()
}

#[test]
fn add_block_entry_works() {
    let mut db = Db::new();
    add(&mut db, 0, 10, 1, vec![(0, hash(50))]);
    add(&mut db, 0, 10, 2, vec![(0, hash(50)), (1, hash(51))]);

    assert_eq!(range(&db), Some(StoredBlockRange(10, 11)));
    assert_eq!(at_height(&db, 10), vec![hash(1), hash(2)]);
    assert_eq!(at_height(&db, 11), Vec::<H256>::new());
    assert_eq!(block_entry(&db, 1), Some(block(1, vec![(0, hash(50))])));
    assert_eq!(block_entry(&db, 2), Some(block(2, vec![(0, hash(50)), (1, hash(51))])));

    let c = candidate_entry(&db, 50).unwrap();
    assert_eq!(c.candidate, receipt());
    assert_eq!(c.session, 1);
    assert_eq!(c.approvals.len(), 8);
    assert_eq!(c.approvals.to_bytes(), vec![0]);
    assert_eq!(c.block_assignments.len(), 2);
    let a = c.block_assignments.get(&hash(1)).unwrap();
    assert_eq!(a.tranches, vec![]);
    assert_eq!(a.backing_group, 4);
    assert_eq!(a.next_wakeup, 0);
    assert_eq!(a.our_assignment, None);
    assert_eq!(a.assignments, Bitfield::zeros(8));
    assert!(!a.approved);
    assert_eq!(candidate_entry(&db, 51).unwrap().block_assignments.len(), 1);
    assert!(is_under(&db, 51, 2) && !is_under(&db, 51, 1));
}

#[test]
fn add_block_entry_adds_child() {
    let mut db = Db::new();
    add(&mut db, 0, 1, 1, vec![]);
    add(&mut db, 1, 2, 2, vec![]);
    add(&mut db, 1, 2, 3, vec![]);
    assert_eq!(block_entry(&db, 1).unwrap().children, vec![hash(2), hash(3)]);
    assert_eq!(range(&db), Some(StoredBlockRange(1, 3)));
}

#[test]
fn the_writes_of_a_recorded_block_come_in_order() {
    let db = Db::new();
    let read = |key: &Vec<u8>| Ok::<Option<Vec<u8>>, ()>(db.get(key).cloned());
    let entry = block(1, vec![(0, hash(50))]);
    let batch = add_block_entry(read, hash(0), 3, entry, 8, info).unwrap().unwrap();
    let keys: Vec<Vec<u8>> = batch.inserted.iter().map(|(key, _)| key.clone()).collect();
    assert_eq!(
        keys,
        vec![
            stored_blocks_key().to_vec(),
            blocks_at_height_key(3).to_vec(),
            candidate_entry_key(&hash(50)).to_vec(),
            block_entry_key(&hash(1)).to_vec(),
        ]
    );
    assert_eq!(batch.inserted[0].1, vec![3, 0, 0, 0, 4, 0, 0, 0]);
    assert_eq!(batch.deleted, Vec::<Vec<u8>>::new());
}

#[test]
fn the_range_runs_from_the_earliest_to_the_last_block() {
    let mut db = Db::new();
    add(&mut db, 0, 5, 1, vec![]);
    assert_eq!(range(&db), Some(StoredBlockRange(5, 6)));
    add(&mut db, 0, 3, 2, vec![]);
    assert_eq!(range(&db), Some(StoredBlockRange(3, 6)));
    add(&mut db, 0, 9, 3, vec![]);
    assert_eq!(range(&db), Some(StoredBlockRange(3, 10)));
    add(&mut db, 0, 7, 4, vec![]);
    assert_eq!(range(&db), Some(StoredBlockRange(3, 10)));
    add(&mut db, 0, 3, 5, vec![]);
    assert_eq!(range(&db), Some(StoredBlockRange(3, 10)));
}

#[test]
fn a_block_recorded_below_the_range_is_cleared_and_pruned_too() {
    let mut db = Db::new();
    add(&mut db, 0, 5, 1, vec![(0, hash(50))]);
    add(&mut db, 0, 3, 2, vec![(0, hash(51))]);
    let mut pruned = db.clone();
    assert_eq!(apply(&mut pruned, canonicalize(4, hash(9))), Ok(true));
    assert_eq!(range(&pruned), Some(StoredBlockRange(5, 6)));
    assert_eq!(block_entry(&pruned, 2), None);
    assert_eq!(candidate_entry(&pruned, 51), None);
    assert!(block_entry(&pruned, 1).is_some());
    assert_eq!(apply(&mut db, clear()), Ok(true));
    assert_eq!(db, Db::new());
}

#[test]
fn clearing_gives_back_the_store() {
    let mut db = Db::new();
    db.insert(b"Something else".to_vec(), vec![1]);
    let start = db.clone();
    // Parents and heights that fit together, and some that do not.
    add(&mut db, 0, 5, 1, vec![(0, hash(50))]);
    add(&mut db, 1, 9, 2, vec![(0, hash(50)), (1, hash(51))]);
    add(&mut db, 2, 2, 3, vec![(0, hash(51))]);
    add(&mut db, 0, 5, 4, vec![]);
    add(&mut db, 4, 7, 5, vec![(0, hash(52))]);
    assert_eq!(apply(&mut db, canonicalize(5, hash(1))), Ok(true));
    add(&mut db, 5, 1, 6, vec![(0, hash(52))]);
    assert_eq!(apply(&mut db, canonicalize(1, hash(7))), Ok(true));
    assert_eq!(apply(&mut db, clear()), Ok(true));
    assert_eq!(db, start);
}

#[test]
fn a_block_that_is_there_is_not_asked_about() {
    let mut db = Db::new();
    add(&mut db, 0, 1, 1, vec![(0, hash(50))]);
    let before = db.clone();
    let never = |_: &H256| -> Option<NewCandidateInfo> { panic!("asked about a known block") };
    for number in [1, 2] {
        let entry = block(1, vec![(0, hash(51))]);
        assert_eq!(record(&mut db, hash(0), number, entry, 8, never), Ok(false));
    }
    assert_eq!(db, before);
    db.insert(blocks_at_height_key(1).to_vec(), vec![4]);
    storage_error(record(&mut db, hash(0), 1, block(2, vec![(0, hash(51))]), 8, never));
}

#[test]
fn a_block_is_recorded_one_question_at_a_time() {
    let db = Db::new();
    let entry = block(1, vec![(0, hash(50)), (1, hash(51))]);
    let mut questions = vec![];
    let mut step = begin_adding(hash(0), 3, entry, 8);
    loop {
        match step {
            AddStep::Get { key, next } => {
                step = next.resume(db.get(&key).cloned());
                questions.push(key);
            }
            AddStep::Ask { candidate, asked } => {
                step = asked.inform(info(&candidate));
                questions.push(candidate.to_vec());
            }
            AddStep::Finish(r) => {
                assert!(r.unwrap().is_some());
                break;
            }
        }
    }
    assert_eq!(
        questions,
        vec![
            stored_blocks_key().to_vec(),
            blocks_at_height_key(3).to_vec(),
            block_entry_key(&hash(1)).to_vec(),
            hash(50).to_vec(),
            candidate_entry_key(&hash(50)).to_vec(),
            hash(51).to_vec(),
            candidate_entry_key(&hash(51)).to_vec(),
            block_entry_key(&hash(0)).to_vec(),
        ]
    );
}

#[test]
fn recording_a_listed_block_has_no_effect() {
    let mut db = Db::new();
    add(&mut db, 0, 1, 1, vec![(0, hash(50))]);
    let before = db.clone();
    let again = record(&mut db, hash(7), 1, block(1, vec![(0, hash(51))]), 8, info);
    assert_eq!(again, Ok(false));
    assert_eq!(db, before);
}

#[test]
fn recording_a_block_with_an_entry_has_no_effect_at_any_height() {
    let mut db = Db::new();
    add(&mut db, 0, 1, 1, vec![(0, hash(50))]);
    let before = db.clone();
    let again = record(&mut db, hash(7), 2, block(1, vec![(0, hash(51))]), 8, info);
    assert_eq!(again, Ok(false));
    assert_eq!(db, before);
}

#[test]
fn recording_with_an_unknown_candidate_has_no_effect() {
    let mut db = Db::new();
    let known = |c: &H256| if *c == hash(51) { None } else { info(c) };
    let candidates = vec![(0, hash(50)), (1, hash(51)), (2, hash(52))];
    let first = record(&mut db, hash(0), 1, block(1, candidates), 8, known);
    assert_eq!(first, Ok(false));
    assert_eq!(db, Db::new());
}

#[test]
fn recording_keeps_the_entry_that_a_candidate_has() {
    let mut db = Db::new();
    add(&mut db, 0, 1, 1, vec![(0, hash(50))]);
    let other = |_: &H256| {
        Some(NewCandidateInfo {
            candidate: CandidateReceipt { encoded: vec![8, 8] },
            backing_group: 6,
            our_assignment: Some(OurAssignment {}),
        })
    };
    let first = record(&mut db, hash(1), 2, block(2, vec![(0, hash(50))]), 16, other);
    assert_eq!(first, Ok(true));
    let c = candidate_entry(&db, 50).unwrap();
    assert_eq!(c.candidate, receipt());
    assert_eq!(c.approvals.len(), 8);
    let a = c.block_assignments.get(&hash(2)).unwrap();
    assert_eq!(a.assignments.len(), 16);
    assert_eq!(a.backing_group, 6);
    assert_eq!(a.our_assignment, Some(OurAssignment {}));
}

#[test]
fn a_candidate_that_a_block_includes_twice_gets_the_last_info() {
    let mut db = Db::new();
    let group = std::cell::Cell::new(1);
    let counting = |_: &H256| {
        group.set(group.get() + 1);
        Some(NewCandidateInfo {
            candidate: receipt(),
            backing_group: group.get(),
            our_assignment: None,
        })
    };
    let entry = block(1, vec![(0, hash(50)), (1, hash(50))]);
    assert_eq!(record(&mut db, hash(0), 1, entry, 8, counting), Ok(true));
    let c = candidate_entry(&db, 50).unwrap();
    assert_eq!(c.block_assignments.len(), 1);
    assert_eq!(c.block_assignments.get(&hash(1)).unwrap().backing_group, 3);
}

#[test]
fn recording_at_the_last_number_overflows() {
    let mut db = Db::new();
    let first = record(&mut db, hash(0), u32::MAX, block(1, vec![]), 8, info);
    assert_eq!(first, Err(Error::Overflow));
    add(&mut db, 0, 4, 2, vec![]);
    let first = record(&mut db, hash(0), u32::MAX, block(1, vec![]), 8, info);
    assert_eq!(first, Err(Error::Overflow));
    let first = record(&mut db, hash(0), u32::MAX - 1, block(1, vec![]), 8, info);
    assert_eq!(first, Ok(true));
    assert_eq!(range(&db), Some(StoredBlockRange(4, u32::MAX)));
}

#[test]
fn recording_with_too_many_validators_overflows() {
    let mut db = Db::new();
    let n_validators = usize::MAX;
    let first = record(&mut db, hash(0), 1, block(1, vec![(0, hash(50))]), n_validators, info);
    assert_eq!(first, Err(Error::Overflow));
    let first = record(&mut db, hash(0), 1, block(1, vec![]), n_validators, info);
    assert_eq!(first, Ok(true));
}

/// Two chains on one block:
///
///   -> 2 -> 4 -> 6
/// 1
///   -> 3 -> 5 -> 7
///
/// Candidate 50 is in all of them, and each block has one of its own, 50 above its number.
fn two_chains() -> Db {
    let mut db = Db::new();
    add(&mut db, 0, 1, 1, vec![(0, hash(50)), (1, hash(51))]);
    add(&mut db, 1, 2, 2, vec![(0, hash(50)), (1, hash(52))]);
    add(&mut db, 1, 2, 3, vec![(0, hash(50)), (1, hash(53))]);
    add(&mut db, 2, 3, 4, vec![(0, hash(50)), (1, hash(54))]);
    add(&mut db, 3, 3, 5, vec![(0, hash(50)), (1, hash(55))]);
    add(&mut db, 4, 4, 6, vec![(0, hash(50)), (1, hash(56))]);
    add(&mut db, 5, 4, 7, vec![(0, hash(50)), (1, hash(57))]);
    db
}

#[test]
fn canonicalize_works() {
    let mut db = two_chains();
    db.insert(b"Something else".to_vec(), vec![1]);
    assert_eq!(apply(&mut db, canonicalize(3, hash(4))), Ok(true));

    assert_eq!(range(&db), Some(StoredBlockRange(4, 5)));
    for n in [1, 2, 3, 4, 5, 7] {
        assert_eq!(block_entry(&db, n), None);
        assert_eq!(candidate_entry(&db, 50 + n), None);
    }
    assert_eq!(block_entry(&db, 6), Some(block(6, vec![(0, hash(50)), (1, hash(56))])));
    for height in [1, 2, 3, 5] {
        assert_eq!(db.get(&blocks_at_height_key(height)[..]), None);
    }
    assert_eq!(at_height(&db, 4), vec![hash(6)]);
    assert_eq!(candidate_entry(&db, 50).unwrap().block_assignments.len(), 1);
    assert!(is_under(&db, 50, 6));
    assert!(is_under(&db, 56, 6));
    assert_eq!(db.get(&b"Something else"[..]), Some(&vec![1]));
    assert_eq!(db.len(), 6);
}

#[test]
fn canonicalizing_the_first_block_of_the_range_cuts_the_competing_branches() {
    let mut db = two_chains();
    assert_eq!(apply(&mut db, canonicalize(1, hash(1))), Ok(true));
    assert_eq!(range(&db), Some(StoredBlockRange(2, 5)));
    assert_eq!(apply(&mut db, canonicalize(2, hash(2))), Ok(true));
    assert_eq!(range(&db), Some(StoredBlockRange(3, 5)));
    for n in [1, 2, 3, 5, 7] {
        assert_eq!(block_entry(&db, n), None);
    }
    assert_eq!(at_height(&db, 3), vec![hash(4)]);
    assert_eq!(at_height(&db, 4), vec![hash(6)]);
    assert!(is_under(&db, 50, 4) && is_under(&db, 50, 6));
    assert_eq!(candidate_entry(&db, 50).unwrap().block_assignments.len(), 2);
}

#[test]
fn canonicalizing_an_unknown_block_cuts_every_branch() {
    let mut db = two_chains();
    assert_eq!(apply(&mut db, canonicalize(2, hash(99))), Ok(true));
    assert_eq!(range(&db), Some(StoredBlockRange(3, 5)));
    assert_eq!(db.len(), 1);
}

#[test]
fn canonicalizing_above_the_range_leaves_room_for_one_block() {
    let mut db = two_chains();
    assert_eq!(apply(&mut db, canonicalize(20, hash(99))), Ok(true));
    assert_eq!(range(&db), Some(StoredBlockRange(21, 22)));
    assert_eq!(db.len(), 1);
}

#[test]
fn canonicalizing_again_does_nothing() {
    let mut db = two_chains();
    assert_eq!(apply(&mut db, canonicalize(3, hash(4))), Ok(true));
    let before = db.clone();
    assert_eq!(apply(&mut db, canonicalize(3, hash(4))), Ok(false));
    assert_eq!(apply(&mut db, canonicalize(1, hash(2))), Ok(false));
    assert_eq!(db, before);
}

#[test]
fn canonicalizing_an_empty_database_does_nothing() {
    let mut db = Db::new();
    assert_eq!(apply(&mut db, canonicalize(3, hash(4))), Ok(false));
    assert_eq!(apply(&mut db, canonicalize(u32::MAX, hash(4))), Ok(false));
    assert_eq!(db, Db::new());
}

#[test]
fn the_writes_of_a_canonicalization_come_in_order() {
    let db = two_chains();
    let read = |key: &Vec<u8>| Ok::<Option<Vec<u8>>, ()>(db.get(key).cloned());
    let batch = run(canonicalize(2, hash(2)), read).unwrap().unwrap();
    let inserted: Vec<Vec<u8>> = batch.inserted.iter().map(|(key, _)| key.clone()).collect();
    assert_eq!(
        inserted,
        vec![
            stored_blocks_key().to_vec(),
            candidate_entry_key(&hash(50)).to_vec(),
            blocks_at_height_key(3).to_vec(),
            blocks_at_height_key(4).to_vec(),
        ]
    );
    let blocks = [1, 2, 3, 5, 7].iter().map(|n| block_entry_key(&hash(*n)).to_vec());
    let heights = [1, 2].iter().map(|h| blocks_at_height_key(*h).to_vec());
    let gone = [51, 52, 53, 55, 57].iter().map(|n| candidate_entry_key(&hash(*n)).to_vec());
    let deleted: Vec<Vec<u8>> = blocks.chain(heights).chain(gone).collect();
    assert_eq!(batch.deleted, deleted);
}

#[test]
fn canonicalizing_passes_over_missing_entries() {
    let mut db = two_chains();
    db.remove(&block_entry_key(&hash(5))[..]);
    db.remove(&candidate_entry_key(&hash(53))[..]);
    assert_eq!(apply(&mut db, canonicalize(2, hash(2))), Ok(true));
    assert_eq!(at_height(&db, 3), vec![hash(4)]);
    assert_eq!(at_height(&db, 4), vec![hash(6), hash(7)]);
    assert!(block_entry(&db, 7).is_some());
    assert_eq!(candidate_entry(&db, 53), None);
}

#[test]
fn canonicalizing_near_the_last_number_overflows() {
    let mut db = Db::new();
    add(&mut db, 0, u32::MAX - 2, 1, vec![]);
    add(&mut db, 1, u32::MAX - 1, 2, vec![]);
    let before = db.clone();
    assert_eq!(apply(&mut db, canonicalize(u32::MAX - 1, hash(2))), Err(Error::Overflow));
    assert_eq!(apply(&mut db, canonicalize(u32::MAX, hash(2))), Err(Error::Overflow));
    assert_eq!(db, before);
    assert_eq!(apply(&mut db, canonicalize(u32::MAX - 2, hash(1))), Ok(true));
    assert_eq!(range(&db), Some(StoredBlockRange(u32::MAX - 1, u32::MAX)));
}

#[test]
fn a_branch_that_leads_above_the_last_number_overflows() {
    let mut db = Db::new();
    add(&mut db, 0, u32::MAX - 2, 1, vec![]);
    let mut looping = block(2, vec![]);
    looping.children = vec![hash(2)];
    let first = record(&mut db, hash(1), u32::MAX - 1, looping, 8, info);
    assert_eq!(first, Ok(true));
    assert_eq!(apply(&mut db, canonicalize(u32::MAX - 2, hash(9))), Err(Error::Overflow));
}

#[test]
fn clear_works() {
    let mut db = two_chains();
    db.insert(b"Approvals_other".to_vec(), vec![1]);
    assert_eq!(apply(&mut db, clear()), Ok(true));
    assert_eq!(db.len(), 1);
    assert_eq!(db.get(&b"Approvals_other"[..]), Some(&vec![1]));
    assert_eq!(apply(&mut db, clear()), Ok(false));
}

#[test]
fn the_writes_of_a_clearing_come_in_order() {
    let mut db = Db::new();
    add(&mut db, 0, 1, 1, vec![(0, hash(50))]);
    add(&mut db, 1, 2, 2, vec![(0, hash(50)), (1, hash(51))]);
    let read = |key: &Vec<u8>| Ok::<Option<Vec<u8>>, ()>(db.get(key).cloned());
    let batch = run(clear(), read).unwrap().unwrap();
    assert_eq!(batch.inserted, vec![]);
    assert_eq!(
        batch.deleted,
        vec![
            blocks_at_height_key(1).to_vec(),
            blocks_at_height_key(2).to_vec(),
            block_entry_key(&hash(1)).to_vec(),
            block_entry_key(&hash(2)).to_vec(),
            candidate_entry_key(&hash(50)).to_vec(),
            candidate_entry_key(&hash(50)).to_vec(),
            candidate_entry_key(&hash(51)).to_vec(),
            stored_blocks_key().to_vec(),
        ]
    );
}

#[test]
fn clearing_passes_over_missing_entries() {
    let mut db = two_chains();
    db.remove(&block_entry_key(&hash(5))[..]);
    db.remove(&candidate_entry_key(&hash(50))[..]);
    assert_eq!(apply(&mut db, clear()), Ok(true));
    let keys: Vec<Vec<u8>> = db.keys().cloned().collect();
    assert_eq!(keys, vec![candidate_entry_key(&hash(55)).to_vec()]);
}

#[test]
fn a_cleared_database_can_be_used_again() {
    let mut db = two_chains();
    assert_eq!(apply(&mut db, clear()), Ok(true));
    add(&mut db, 0, 1, 1, vec![]);
    assert_eq!(range(&db), Some(StoredBlockRange(1, 2)));
}

fn storage_error<T: std::fmt::Debug>(r: Result<T, Error>) {
    match r {
        Err(Error::Storage(text)) => {
            let prefix = "Failed to decode item in approvals DB: ";
            assert!(text.starts_with(prefix));
            assert!(text.len() > prefix.len());
        }
        other => panic!("{:?}", other),
    }
}

#[test]
fn every_operation_reports_what_it_cannot_decode() {
    let keys = [
        stored_blocks_key().to_vec(),
        blocks_at_height_key(2).to_vec(),
        block_entry_key(&hash(3)).to_vec(),
        candidate_entry_key(&hash(53)).to_vec(),
        blocks_at_height_key(4).to_vec(),
    ];
    for key in keys.iter() {
        let mut db = two_chains();
        db.insert(key.clone(), vec![1]);
        let before = db.clone();
        storage_error(apply(&mut db, canonicalize(2, hash(2))));
        assert_eq!(db, before);
    }
    for key in keys[..3].iter() {
        let mut db = two_chains();
        db.insert(key.clone(), vec![1]);
        storage_error(apply(&mut db, clear()));
        let entry = block(9, vec![(0, hash(53))]);
        storage_error(record(&mut db, hash(3), 2, entry, 8, info));
    }
}

#[test]
fn loading_reports_what_cannot_be_decoded() {
    let text = "Failed to decode item in approvals DB: \
        Error { cause: None, desc: \"Not enough data to fill buffer\" }";
    assert_eq!(
        load_stored_blocks(Some(vec![1, 2, 3, 4, 5, 6, 7])),
        Err(Error::Storage(text.to_string()))
    );
    assert_eq!(load_stored_blocks(Some(vec![1])), Err(Error::Storage(text.to_string())));
    storage_error(load_blocks_at_height(Some(vec![4])));
    storage_error(load_block_entry(Some(vec![0; 50])));
    storage_error(load_candidate_entry(Some(vec![])));
    assert_eq!(load_stored_blocks(None), Ok(None));
    assert_eq!(load_blocks_at_height(None), Ok(vec![]));
    assert_eq!(load_block_entry(None), Ok(None));
    assert_eq!(load_candidate_entry(None), Ok(None));
}

#[test]
fn a_failure_of_the_store_ends_a_run() {
    let first = canonicalize(2, hash(2));
    let outcome = run(first, |_: &Vec<u8>| Err::<Option<Vec<u8>>, &str>("no disk"));
    assert_eq!(outcome, Err(RunError::Store("no disk")));
    let read = |_: &Vec<u8>| Err::<Option<Vec<u8>>, &str>("no disk");
    let outcome = add_block_entry(read, hash(0), 1, block(1, vec![]), 8, info);
    assert_eq!(outcome, Err(RunError::Store("no disk")));
}

#[test]
fn an_operation_asks_for_one_value_after_the_other() {
    let mut asked = vec![];
    let db = two_chains();
    let mut step = clear();
    loop {
        match step {
            Step::Get { key, next } => {
                asked.push(key.clone());
                step = next.resume(db.get(&key).cloned());
            }
            Step::Finish(r) => {
                assert!(r.is_ok());
                break;
            }
        }
    }
    assert_eq!(asked.len(), 12);
    assert_eq!(asked[0], stored_blocks_key().to_vec());
    assert_eq!(asked[1], blocks_at_height_key(1).to_vec());
    assert_eq!(asked[2], block_entry_key(&hash(1)).to_vec());
    assert_eq!(asked[3], blocks_at_height_key(2).to_vec());
}

#[test]
fn what_is_written_reads_back() {
    let range = StoredBlockRange(3, 0x0102_0304);
    assert_eq!(range.write(), vec![3, 0, 0, 0, 4, 3, 2, 1]);
    assert_eq!(load_stored_blocks(Some(range.write())), Ok(Some(range)));
    let list = vec![hash(1), hash(2)];
    assert_eq!(load_blocks_at_height(Some(list.write())), Ok(list));
    let entry = block(1, vec![(3, hash(2))]);
    assert_eq!(load_block_entry(Some(entry.write())), Ok(Some(entry)));
}
