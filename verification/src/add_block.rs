//! Recording a new block, one question at a time.
use crate::adding::{
    add_plan, info_at, range_items, record_candidate, record_candidates, record_parent,
    record_unless_listed, record_unless_present, with_block, Infos, NewBlock,
};
use crate::assignments::BlockAssignments;
use crate::bitfield::bits_fit;
use crate::codec::Stored;
use crate::hashes::find_hash;
use crate::keys::{
    block_entry_key, block_key, blocks_at_height_key, candidate_entry_key, candidate_key,
    height_key, range_key, stored_blocks_key,
};
use crate::operation::{
    ask, ask_info, fails_to_read, outcome_view, reads_from, run_view, Plan, Query, RunError, Traced,
};
use crate::outside::Bitfield;
use crate::store::{
    load_block_entry, load_blocks_at_height, load_candidate_entry, load_stored_blocks, lookup,
    reply_view, Db, Error, WriteBatch,
};
use crate::types::{
    tranches, ApprovalEntry, Block, BlockEntry, BlockNumber, Candidate, CandidateEntry,
    CandidateHash, CandidateInfo, CoreIndex, NewCandidateInfo, StoredBlockRange, TrancheEntry, H256,
};
use vstd::prelude::*;
use vstd::slice::slice_to_vec;

verus! {

/// A block that is recorded, and what is to be written so far.
pub struct Recording {
    parent_hash: H256,
    number: BlockNumber,
    entry: BlockEntry,
    n_validators: usize,
    batch: WriteBatch,
}

/// Which value the recording of a block waits for.
pub enum AddStage {
    /// The stored range.
    Range,
    /// The list at the block's height.
    Height,
    /// The block's own entry; `list` holds the blocks at its height.
    Own { list: Vec<H256> },
    /// The entry of the candidate at `next` among those that the block includes; `info` is what
    /// is known of it.
    Candidate { next: usize, info: NewCandidateInfo },
    /// The entry of the block's parent.
    Parent,
}

/// The recording of a block that waits for a value.
pub struct AddBlockEntry {
    recording: Recording,
    stage: AddStage,
}

/// The recording of a block that waits to be told what is known of the candidate at `next` among
/// those that the block includes.
pub struct AskedBlockEntry {
    recording: Recording,
    next: usize,
}

/// What to do next: read the value under a key and hand it to `next`, find out what is known of a
/// candidate and tell `asked`, or stop.
pub enum AddStep {
    Get { key: Vec<u8>, next: AddBlockEntry },
    Ask { candidate: CandidateHash, asked: AskedBlockEntry },
    Finish(Result<Option<WriteBatch>, Error>),
}

/// What an answer on a candidate stands for.
pub open spec fn info_view(info: Option<NewCandidateInfo>) -> Option<CandidateInfo> {
    match info {
        Some(info) => Some(info@),
        None => None,
    }
}

/// The block that is recorded, for given answers on the candidates that it includes.
pub open spec fn new_block(
    parent_hash: H256,
    number: BlockNumber,
    entry: Block,
    n_validators: usize,
    infos: Infos,
) -> NewBlock {
    NewBlock { parent: parent_hash, number, entry, n_validators: n_validators as nat, infos }
}

impl Recording {
    /// The block that is recorded, for given answers.
    closed spec fn block(self, infos: Infos) -> NewBlock {
        new_block(self.parent_hash, self.number, self.entry@, self.n_validators, infos)
    }

    /// Nothing is deleted.
    closed spec fn valid(self) -> bool {
        self.batch@.deleted == Seq::<Seq<u8>>::empty()
    }
}

impl AddBlockEntry {
    /// The recording is in a state that it can be in.
    pub closed spec fn valid(self) -> bool {
        &&& self.recording.valid()
        &&& match self.stage {
            AddStage::Range => self.recording.batch@.inserted == Seq::<
                (Seq<u8>, Seq<u8>),
            >::empty(),
            AddStage::Candidate { next, info } => next < self.recording.entry@.candidates.len(),
            _ => true,
        }
    }

    /// The key that it waits for the value of.
    pub closed spec fn awaits(self) -> Seq<u8> {
        match self.stage {
            AddStage::Range => range_key(),
            AddStage::Height => height_key(self.recording.number),
            AddStage::Own { list } => block_key(self.recording.entry@.block_hash),
            AddStage::Candidate { next, info } => candidate_key(
                self.recording.entry@.candidates[next as int].1,
            ),
            AddStage::Parent => block_key(self.recording.parent_hash),
        }
    }

    /// What it does over a store, for given answers, the read that it waits for among it.
    pub closed spec fn plan(self, db: Db, infos: Infos) -> Plan {
        let n = self.recording.block(infos);
        let items = self.recording.batch@.inserted;
        match self.stage {
            AddStage::Range => add_plan(db, n),
            AddStage::Height => record_unless_listed(db, n, items),
            AddStage::Own { list } => record_unless_present(db, n, list@, items),
            AddStage::Candidate { next, info } => record_candidate(
                db,
                n,
                next as nat,
                info@,
                items,
            ),
            AddStage::Parent => record_parent(db, n, items),
        }
    }

    /// It records a block with the given candidates, and was told of the first `told` of them.
    pub closed spec fn at(self, candidates: Seq<(CoreIndex, CandidateHash)>, told: nat) -> bool {
        &&& self.recording.entry@.candidates == candidates
        &&& told == match self.stage {
            AddStage::Candidate { next, info } => next + 1,
            AddStage::Parent => candidates.len() as int,
            _ => 0,
        }
    }

    /// How many questions there can be before it ends.
    pub closed spec fn questions_left(self) -> nat {
        let len = self.recording.entry@.candidates.len();
        match self.stage {
            AddStage::Range => 2 * len + 5,
            AddStage::Height => 2 * len + 4,
            AddStage::Own { list } => 2 * len + 3,
            AddStage::Candidate { next, info } => (2 * (len - next) + 1) as nat,
            AddStage::Parent => 1,
        }
    }

    /// The read that it waits for comes first.
    pub proof fn awaits_first(self, db: Db, infos: Infos)
        requires
            self.valid(),
        ensures
            self.plan(db, infos).queries.len() > 0,
            self.plan(db, infos).queries[0] == Query::Value(self.awaits()),
    {
    }
}

impl AskedBlockEntry {
    /// The recording is in a state that it can be in.
    pub closed spec fn valid(self) -> bool {
        self.recording.valid() && self.next < self.recording.entry@.candidates.len()
    }

    /// The place of the candidate that it asks about, among those that the block includes.
    pub closed spec fn place(self) -> nat {
        self.next as nat
    }

    /// The candidate that it asks about.
    pub closed spec fn candidate(self) -> CandidateHash {
        self.recording.entry@.candidates[self.next as int].1
    }

    /// What it does over a store, for given answers, the question that it asks among it.
    pub closed spec fn plan(self, db: Db, infos: Infos) -> Plan {
        record_candidates(
            db,
            self.recording.block(infos),
            self.next as nat,
            self.recording.batch@.inserted,
        )
    }

    /// It records a block with the given candidates, and was told of the first `told` of them.
    pub closed spec fn at(self, candidates: Seq<(CoreIndex, CandidateHash)>, told: nat) -> bool {
        self.recording.entry@.candidates == candidates && told == self.next
    }

    /// How many questions there can be before it ends.
    pub closed spec fn questions_left(self) -> nat {
        (2 * (self.recording.entry@.candidates.len() - self.next) + 2) as nat
    }

    /// The question that it asks comes first. It is about the first candidate that it was not told
    /// of.
    pub proof fn asks_first(
        self,
        db: Db,
        infos: Infos,
        candidates: Seq<(CoreIndex, CandidateHash)>,
        told: nat,
    )
        requires
            self.valid(),
            self.at(candidates, told),
        ensures
            self.plan(db, infos).queries.len() > 0,
            self.plan(db, infos).queries[0] == Query::Info(self.candidate()),
            told < candidates.len(),
            self.place() == told,
            self.candidate() == candidates[told as int].1,
    {
    }
}

impl AddStep {
    /// The recording is in a state that it can be in, and asks for what it waits for.
    pub open spec fn valid(self) -> bool {
        match self {
            AddStep::Get { key, next } => next.valid() && key@ == next.awaits(),
            AddStep::Ask { candidate, asked } => asked.valid() && candidate == asked.candidate(),
            AddStep::Finish(_) => true,
        }
    }

    /// What is still to be done over a store, for given answers.
    pub open spec fn plan(self, db: Db, infos: Infos) -> Plan {
        match self {
            AddStep::Get { key, next } => next.plan(db, infos),
            AddStep::Ask { candidate, asked } => asked.plan(db, infos),
            AddStep::Finish(r) => Traced { queries: Seq::empty(), result: outcome_view(r) },
        }
    }

    /// It records a block with the given candidates, and was told of the first `told` of them.
    pub open spec fn at(self, candidates: Seq<(CoreIndex, CandidateHash)>, told: nat) -> bool {
        match self {
            AddStep::Get { key, next } => next.at(candidates, told),
            AddStep::Ask { candidate, asked } => asked.at(candidates, told),
            AddStep::Finish(_) => true,
        }
    }

    /// How many questions there can be before it ends.
    pub open spec fn questions_left(self) -> nat {
        match self {
            AddStep::Get { key, next } => next.questions_left(),
            AddStep::Ask { candidate, asked } => asked.questions_left(),
            AddStep::Finish(_) => 0,
        }
    }
}

/// `r` is what is to be done after the value under a key came.
spec fn follows(q: AddBlockEntry, reply: Option<Vec<u8>>, r: AddStep) -> bool {
    &&& r.valid()
    &&& r.questions_left() < q.questions_left()
    &&& forall|candidates: Seq<(CoreIndex, CandidateHash)>, told: nat|
        q.at(candidates, told) ==> #[trigger] r.at(candidates, told)
    &&& forall|db: Db, infos: Infos|
        lookup(db, q.awaits()) == reply_view(reply) ==> q.plan(db, infos) == ask(
            q.awaits(),
            #[trigger] r.plan(db, infos),
        )
}

/// A candidate entry with one more approval entry can be encoded if its lists are short enough.
proof fn lemma_with_block(
    n: NewBlock,
    info: CandidateInfo,
    old: Option<Candidate>,
    block_assignments_len: nat,
)
    requires
        bits_fit(n.n_validators),
        old is Some ==> old->Some_0.encodable(),
        with_block(n, info, old).block_assignments.len() == block_assignments_len,
        with_block(n, info, old).block_assignments.dom().finite(),
    ensures
        with_block(n, info, old).encodable() == (with_block(n, info, old).candidate.len()
            <= u32::MAX && block_assignments_len <= u32::MAX),
{
}

/// Whether every list in a block entry is short enough to be encoded.
fn entry_fits(entry: &BlockEntry) -> (r: bool)
    ensures
        r == entry@.encodable(),
{
    entry.candidates.len() <= u32::MAX as usize && entry.children.len() <= u32::MAX as usize
        && entry.approved_bitfield.len() <= u32::MAX as usize
}

impl Recording {
    /// Turn to a candidate.
    fn at_candidate(self, next: usize) -> (r: AddStep)
        requires
            self.valid(),
            next <= self.entry@.candidates.len(),
        ensures
            r.valid(),
            r.questions_left() <= 2 * (self.entry@.candidates.len() - next) + 2,
            r.at(self.entry@.candidates, next as nat),
            forall|db: Db, infos: Infos| #[trigger]
                r.plan(db, infos) == record_candidates(
                    db,
                    self.block(infos),
                    next as nat,
                    self.batch@.inserted,
                ),
    {
        if next >= self.entry.candidates.len() {
            let key = slice_to_vec(block_entry_key(&self.parent_hash).as_slice());
            return AddStep::Get {
                key,
                next: AddBlockEntry { recording: self, stage: AddStage::Parent },
            };
        }
        let candidate = self.entry.candidates[next].1;
        AddStep::Ask { candidate, asked: AskedBlockEntry { recording: self, next } }
    }

    /// Go on with the stored range.
    fn got_range(self, reply: Option<Vec<u8>>) -> (r: AddStep)
        requires
            (AddBlockEntry { recording: self, stage: AddStage::Range }).valid(),
        ensures
            follows(AddBlockEntry { recording: self, stage: AddStage::Range }, reply, r),
    {
        match load_stored_blocks(reply) {
            Err(e) => AddStep::Finish(Err(e)),
            Ok(range) => {
                let mut batch = self.batch;
                let number = self.number;
                let grows: bool = match range {
                    None => true,
                    Some(range) => range.1 <= number || number < range.0,
                };
                if grows {
                    if number == u32::MAX {
                        return AddStep::Finish(Err(Error::Overflow));
                    }
                    let above: BlockNumber = number + 1;
                    let new_range = match range {
                        None => StoredBlockRange(number, above),
                        Some(range) => StoredBlockRange(
                            if range.0 <= number {
                                range.0
                            } else {
                                number
                            },
                            if above <= range.1 {
                                range.1
                            } else {
                                above
                            },
                        ),
                    };
                    batch.insert(stored_blocks_key().as_slice(), new_range.write());
                }
                assert(batch@.inserted =~= range_items(range, number));
                let key = slice_to_vec(blocks_at_height_key(number).as_slice());
                let recording = Recording { batch, ..self };
                AddStep::Get { key, next: AddBlockEntry { recording, stage: AddStage::Height } }
            },
        }
    }

    /// Go on with the list at the block's height.
    fn got_height(self, reply: Option<Vec<u8>>) -> (r: AddStep)
        requires
            self.valid(),
        ensures
            follows(AddBlockEntry { recording: self, stage: AddStage::Height }, reply, r),
    {
        match load_blocks_at_height(reply) {
            Err(e) => AddStep::Finish(Err(e)),
            Ok(list) => match find_hash(&list, &self.entry.block_hash) {
                Some(_) => {
                    assert(list@.contains(self.entry.block_hash));
                    AddStep::Finish(Ok(None))
                },
                None => {
                    let key = slice_to_vec(block_entry_key(&self.entry.block_hash).as_slice());
                    let stage = AddStage::Own { list };
                    AddStep::Get { key, next: AddBlockEntry { recording: self, stage } }
                },
            },
        }
    }

    /// Go on with the block's own entry.
    fn got_own(self, list: Vec<H256>, reply: Option<Vec<u8>>) -> (r: AddStep)
        requires
            self.valid(),
        ensures
            follows(AddBlockEntry { recording: self, stage: AddStage::Own { list } }, reply, r),
    {
        match reply {
            Some(_) => AddStep::Finish(Ok(None)),
            None => {
                if list.len() >= u32::MAX as usize {
                    return AddStep::Finish(Err(Error::Overflow));
                }
                let mut list = list;
                let mut batch = self.batch;
                list.push(self.entry.block_hash);
                batch.insert(blocks_at_height_key(self.number).as_slice(), list.write());
                Recording { batch, ..self }.at_candidate(0)
            },
        }
    }

    /// Go on with the entry of a candidate.
    fn got_candidate(self, next: usize, info: NewCandidateInfo, reply: Option<Vec<u8>>) -> (r:
        AddStep)
        requires
            self.valid(),
            next < self.entry@.candidates.len(),
        ensures
            follows(
                AddBlockEntry { recording: self, stage: AddStage::Candidate { next, info } },
                reply,
                r,
            ),
    {
        let ghost n = self.block(Seq::empty());
        assert(next < self.entry.candidates.len());
        let candidate_hash = self.entry.candidates[next].1;
        match load_candidate_entry(reply) {
            Err(e) => AddStep::Finish(Err(e)),
            Ok(old) => {
                let n_validators = self.n_validators;
                if n_validators > u32::MAX as usize || n_validators > usize::MAX / 8 {
                    return AddStep::Finish(Err(Error::Overflow));
                }
                let ghost before = match &old {
                    Some(entry) => Some(entry@),
                    None => None,
                };
                let ghost known = info@;
                let NewCandidateInfo { candidate, backing_group, our_assignment } = info;
                let mut candidate_entry = match old {
                    Some(entry) => entry,
                    None => CandidateEntry {
                        candidate,
                        session: self.entry.session,
                        block_assignments: BlockAssignments::new(),
                        approvals: Bitfield::zeros(n_validators),
                    },
                };
                let none: Vec<TrancheEntry> = Vec::new();
                assert(tranches(none@) =~= Seq::empty());
                let approval_entry = ApprovalEntry {
                    tranches: none,
                    backing_group,
                    next_wakeup: 0,
                    our_assignment,
                    assignments: Bitfield::zeros(n_validators),
                    approved: false,
                };
                candidate_entry.block_assignments.insert(self.entry.block_hash, approval_entry);
                assert(candidate_entry@ =~= with_block(n, known, before));
                let blocks = candidate_entry.block_assignments.len();
                proof {
                    lemma_with_block(n, known, before, blocks as nat);
                    assert forall|infos: Infos| #[trigger] with_block(
                        self.block(infos),
                        known,
                        before,
                    ) == with_block(n, known, before) by {}
                }
                if candidate_entry.candidate.encoded.len() > u32::MAX as usize || blocks
                    > u32::MAX as usize {
                    return AddStep::Finish(Err(Error::Overflow));
                }
                let mut batch = self.batch;
                batch.insert(
                    candidate_entry_key(&candidate_hash).as_slice(),
                    candidate_entry.write(),
                );
                Recording { batch, ..self }.at_candidate(next + 1)
            },
        }
    }

    /// Go on with the entry of the block's parent.
    fn got_parent(self, reply: Option<Vec<u8>>) -> (r: AddStep)
        requires
            self.valid(),
        ensures
            follows(AddBlockEntry { recording: self, stage: AddStage::Parent }, reply, r),
    {
        let ghost q = AddBlockEntry { recording: self, stage: AddStage::Parent };
        match load_block_entry(reply) {
            Err(e) => AddStep::Finish(Err(e)),
            Ok(parent) => {
                let entry = self.entry;
                let mut batch = self.batch;
                let fits = entry_fits(&entry);
                let key = block_entry_key(&entry.block_hash);
                let ghost items = batch@.inserted;
                let ghost own = (block_key(entry.block_hash), BlockEntry::encoded(entry@));
                match parent {
                    None => {
                        if !fits {
                            return AddStep::Finish(Err(Error::Overflow));
                        }
                        batch.insert(key.as_slice(), entry.write());
                        assert(batch@.inserted =~= items + seq![own]);
                    },
                    Some(parent) => {
                        let mut parent = parent;
                        let ghost before = parent@;
                        parent.children.push(entry.block_hash);
                        assert(parent@ =~= before.with_child(entry.block_hash));
                        if !fits || !entry_fits(&parent) {
                            return AddStep::Finish(Err(Error::Overflow));
                        }
                        batch.insert(key.as_slice(), entry.write());
                        batch.insert(
                            block_entry_key(&self.parent_hash).as_slice(),
                            parent.write(),
                        );
                        assert(batch@.inserted =~= items + seq![own] + seq![
                            (block_key(self.parent_hash), BlockEntry::encoded(parent@)),
                        ]);
                    },
                }
                let r = AddStep::Finish(Ok(Some(batch)));
                proof {
                    assert forall|db: Db, infos: Infos|
                        lookup(db, q.awaits()) == reply_view(reply) implies q.plan(db, infos)
                        == ask(q.awaits(), #[trigger] r.plan(db, infos)) by {
                        assert(q.plan(db, infos) =~= ask(q.awaits(), r.plan(db, infos)));
                    }
                }
                r
            },
        }
    }
}

impl AddBlockEntry {
    /// Go on with what the store holds under the key.
    pub fn resume(self, reply: Option<Vec<u8>>) -> (r: AddStep)
        requires
            self.valid(),
        ensures
            r.valid(),
            r.questions_left() < self.questions_left(),
            forall|candidates: Seq<(CoreIndex, CandidateHash)>, told: nat|
                self.at(candidates, told) ==> #[trigger] r.at(candidates, told),
            forall|db: Db, infos: Infos|
                lookup(db, self.awaits()) == reply_view(reply) ==> self.plan(db, infos) == ask(
                    self.awaits(),
                    #[trigger] r.plan(db, infos),
                ),
    {
        let AddBlockEntry { recording, stage } = self;
        match stage {
            AddStage::Range => recording.got_range(reply),
            AddStage::Height => recording.got_height(reply),
            AddStage::Own { list } => recording.got_own(list, reply),
            AddStage::Candidate { next, info } => recording.got_candidate(next, info, reply),
            AddStage::Parent => recording.got_parent(reply),
        }
    }
}

impl AskedBlockEntry {
    /// Go on with what is known of the candidate. If nothing is, the recording ends without
    /// effect.
    pub fn inform(self, info: Option<NewCandidateInfo>) -> (r: AddStep)
        requires
            self.valid(),
        ensures
            r.valid(),
            r.questions_left() < self.questions_left(),
            forall|candidates: Seq<(CoreIndex, CandidateHash)>, told: nat|
                self.at(candidates, told) ==> #[trigger] r.at(candidates, told + 1),
            forall|db: Db, infos: Infos|
                info_at(infos, self.place() as int) == info_view(info) ==> self.plan(db, infos)
                    == ask_info(self.candidate(), #[trigger] r.plan(db, infos)),
    {
        let next = self.next;
        match info {
            None => AddStep::Finish(Ok(None)),
            Some(info) => {
                let key = slice_to_vec(
                    candidate_entry_key(&self.recording.entry.candidates[next].1).as_slice(),
                );
                let stage = AddStage::Candidate { next, info };
                AddStep::Get { key, next: AddBlockEntry { recording: self.recording, stage } }
            },
        }
    }
}

/// Begin to record a new block entry: see [`add_block_entry`].
pub fn begin_adding(
    parent_hash: H256,
    number: BlockNumber,
    entry: BlockEntry,
    n_validators: usize,
) -> (r: AddStep)
    ensures
        r.valid(),
        r.at(entry@.candidates, 0),
        forall|db: Db, infos: Infos| #[trigger]
            r.plan(db, infos) == add_plan(
                db,
                NewBlock {
                    parent: parent_hash,
                    number,
                    entry: entry@,
                    n_validators: n_validators as nat,
                    infos,
                },
            ),
{
    let recording = Recording {
        parent_hash,
        number,
        entry,
        n_validators,
        batch: WriteBatch::new(),
    };
    let next = AddBlockEntry { recording, stage: AddStage::Range };
    AddStep::Get { key: slice_to_vec(stored_blocks_key().as_slice()), next }
}

/// What a function says of the first candidates of a block, in order.
pub open spec fn answered<G: Fn(&CandidateHash) -> Option<NewCandidateInfo>>(
    candidate_info: G,
    candidates: Seq<(CoreIndex, CandidateHash)>,
    answers: Seq<Option<NewCandidateInfo>>,
) -> bool {
    &&& answers.len() <= candidates.len()
    &&& forall|i: int|
        0 <= i < answers.len() ==> candidate_info.ensures(
            (&candidates[i].1,),
            #[trigger] answers[i],
        )
}

/// Infos that begin with the given answers.
pub open spec fn agrees(infos: Infos, answers: Seq<Option<NewCandidateInfo>>) -> bool {
    &&& answers.len() <= infos.len()
    &&& forall|i: int| 0 <= i < answers.len() ==> infos[i] == info_view(#[trigger] answers[i])
}

/// Whatever the store is that is read from, and whatever is known of the candidates that were not
/// asked about, recording the block asks for the value under a key.
pub open spec fn asks_for<E, F: Fn(&Vec<u8>) -> Result<Option<Vec<u8>>, E>>(
    read: F,
    block: spec_fn(Infos) -> NewBlock,
    answers: Seq<Option<NewCandidateInfo>>,
    key: Seq<u8>,
) -> bool {
    forall|db: Db, infos: Infos|
        #![trigger reads_from(read, db), agrees(infos, answers)]
        reads_from(read, db) && agrees(infos, answers) ==> add_plan(
            db,
            block(infos),
        ).queries.contains(Query::Value(key))
}

/// Whatever the store is that is read from, and whatever is known of the candidates that were not
/// asked about, recording the block comes to the given end.
pub open spec fn ends_in<E, F: Fn(&Vec<u8>) -> Result<Option<Vec<u8>>, E>>(
    read: F,
    block: spec_fn(Infos) -> NewBlock,
    answers: Seq<Option<NewCandidateInfo>>,
    r: Result<Option<WriteBatch>, RunError<E>>,
) -> bool {
    forall|db: Db, infos: Infos|
        #![trigger reads_from(read, db), agrees(infos, answers)]
        reads_from(read, db) && agrees(infos, answers) ==> add_plan(db, block(infos)).result
            == run_view(r)
}

/// Record a new block entry.
///
/// This will update the blocks-at-height mapping, the stored block range, if necessary,
/// and add block and candidate entries. It will also add approval entries to existing
/// candidate entries and add this as a child of any block entry corresponding to the
/// parent hash.
///
/// Has no effect if there is already an entry for the block or `candidate_info` returns
/// `None` for any of the candidates referenced by the block entry.
///
/// `read` reads the value under a key from a store that does not change meanwhile. The writes are
/// left to be performed. `candidate_info` has to accept the candidates that it is asked about, and
/// no others: it is asked once the block is known to be new, about one candidate after the other.
pub fn add_block_entry<
    E,
    F: Fn(&Vec<u8>) -> Result<Option<Vec<u8>>, E>,
    G: Fn(&CandidateHash) -> Option<NewCandidateInfo>,
>(
    read: F,
    parent_hash: H256,
    number: BlockNumber,
    entry: BlockEntry,
    n_validators: usize,
    candidate_info: G,
) -> (r: Result<Option<WriteBatch>, RunError<E>>)
    requires
        forall|key: Vec<u8>| #[trigger] read.requires((&key,)),
        exists|db: Db| #[trigger] reads_from(read, db),
        forall|db: Db, infos: Infos, c: CandidateHash|
            reads_from(read, db) && (#[trigger] add_plan(
                db,
                new_block(parent_hash, number, entry@, n_validators, infos),
            ).queries.contains(Query::Info(c))) ==> candidate_info.requires((&c,)),
    ensures
        exists|answers: Seq<Option<NewCandidateInfo>>|
            (#[trigger] answered(candidate_info, entry@.candidates, answers)) && match r {
                Err(RunError::Store(e)) => exists|key: Vec<u8>|
                    (#[trigger] fails_to_read(read, key, e)) && asks_for(
                        read,
                        |infos: Infos| new_block(parent_hash, number, entry@, n_validators, infos),
                        answers,
                        key@,
                    ),
                _ => ends_in(
                    read,
                    |infos: Infos| new_block(parent_hash, number, entry@, n_validators, infos),
                    answers,
                    r,
                ),
            },
{
    let ghost candidates = entry@.candidates;
    let ghost block = |infos: Infos|
        new_block(parent_hash, number, entry@, n_validators, infos);
    let ghost some_db = choose|db: Db| #[trigger] reads_from(read, db);
    let ghost mut past = Seq::<Query>::empty();
    let ghost mut answers = Seq::<Option<NewCandidateInfo>>::empty();
    let mut step = begin_adding(parent_hash, number, entry, n_validators);
    proof {
        assert forall|db: Db, infos: Infos| #[trigger]
            step.plan(db, infos).queries == add_plan(db, block(infos)).queries && past + step.plan(
                db,
                infos,
            ).queries == step.plan(db, infos).queries by {
            assert(past + step.plan(db, infos).queries =~= step.plan(db, infos).queries);
        }
    }
    loop
        invariant
            step.valid(),
            step.at(candidates, answers.len()),
            answered(candidate_info, candidates, answers),
            forall|key: Vec<u8>| #[trigger] read.requires((&key,)),
            reads_from(read, some_db),
            forall|db: Db, infos: Infos, c: CandidateHash|
                reads_from(read, db) && (#[trigger] add_plan(
                    db,
                    new_block(parent_hash, number, entry@, n_validators, infos),
                ).queries.contains(Query::Info(c))) ==> candidate_info.requires((&c,)),
            block == |infos: Infos| new_block(parent_hash, number, entry@, n_validators, infos),
            candidates == entry@.candidates,
            forall|db: Db, infos: Infos|
                reads_from(read, db) && agrees(infos, answers) ==> {
                    let plan = add_plan(db, block(infos));
                    &&& plan.result == (#[trigger] step.plan(db, infos)).result
                    &&& plan.queries == past + step.plan(db, infos).queries
                },
        decreases step.questions_left(),
    {
        match step {
            AddStep::Finish(outcome) => {
                let r: Result<Option<WriteBatch>, RunError<E>> = match outcome {
                    Ok(outcome) => Ok(outcome),
                    Err(e) => Err(RunError::Operation(e)),
                };
                assert(ends_in(read, block, answers, r)) by {
                    assert forall|db: Db, infos: Infos|
                        #![trigger reads_from(read, db), agrees(infos, answers)]
                        reads_from(read, db) && agrees(infos, answers) implies add_plan(
                        db,
                        block(infos),
                    ).result == run_view(r) by {
                        assert(step.plan(db, infos).result == outcome_view(outcome));
                    }
                }
                return r;
            },
            AddStep::Get { key, next } => match read(&key) {
                Err(e) => {
                    let ghost failure = e;
                    assert(asks_for(read, block, answers, key@)) by {
                        assert forall|db: Db, infos: Infos|
                            #![trigger reads_from(read, db), agrees(infos, answers)]
                            reads_from(read, db) && agrees(infos, answers) implies add_plan(
                            db,
                            block(infos),
                        ).queries.contains(Query::Value(key@)) by {
                            next.awaits_first(db, infos);
                            let queries = past + step.plan(db, infos).queries;
                            assert(queries[past.len() as int] == Query::Value(key@));
                        }
                    }
                    assert(fails_to_read(read, key, failure));
                    let r: Result<Option<WriteBatch>, RunError<E>> = Err(RunError::Store(e));
                    assert(r->Err_0->Store_0 == failure);
                    return r;
                },
                Ok(reply) => {
                    let ghost before = step;
                    step = next.resume(reply);
                    proof {
                        let longer = past.push(Query::Value(key@));
                        assert forall|db: Db, infos: Infos|
                            reads_from(read, db) && agrees(infos, answers) implies {
                            let plan = add_plan(db, block(infos));
                            &&& plan.result == (#[trigger] step.plan(db, infos)).result
                            &&& plan.queries == longer + step.plan(db, infos).queries
                        } by {
                            assert(reply_view(reply) == lookup(db, key@));
                            assert(before.plan(db, infos) == ask(key@, step.plan(db, infos)));
                            assert(past + before.plan(db, infos).queries =~= longer + step.plan(
                                db,
                                infos,
                            ).queries);
                        }
                        past = longer;
                    }
                },
            },
            AddStep::Ask { candidate, asked } => {
                let ghost so_far: Infos = Seq::new(answers.len(), |i: int| info_view(answers[i]));
                proof {
                    asked.asks_first(some_db, so_far, candidates, answers.len());
                    assert(agrees(so_far, answers));
                    let queries = past + step.plan(some_db, so_far).queries;
                    assert(queries[past.len() as int] == Query::Info(candidate));
                    assert(add_plan(some_db, block(so_far)).queries.contains(
                        Query::Info(candidate),
                    ));
                }
                let info = candidate_info(&candidate);
                let ghost answer = info;
                let ghost before = step;
                step = asked.inform(info);
                proof {
                    let longer = past.push(Query::Info(candidate));
                    let more = answers.push(answer);
                    assert(answered(candidate_info, candidates, more)) by {
                        assert forall|i: int| 0 <= i < more.len() implies candidate_info.ensures(
                            (&candidates[i].1,),
                            #[trigger] more[i],
                        ) by {
                            if i < answers.len() {
                                assert(more[i] == answers[i]);
                            }
                        }
                    }
                    assert forall|db: Db, infos: Infos|
                        reads_from(read, db) && agrees(infos, more) implies {
                        let plan = add_plan(db, block(infos));
                        &&& plan.result == (#[trigger] step.plan(db, infos)).result
                        &&& plan.queries == longer + step.plan(db, infos).queries
                    } by {
                        assert(agrees(infos, answers)) by {
                            assert forall|i: int| 0 <= i < answers.len() implies infos[i]
                                == info_view(#[trigger] answers[i]) by {
                                assert(more[i] == answers[i]);
                            }
                        }
                        assert(more[answers.len() as int] == answer);
                        assert(before.plan(db, infos) == ask_info(
                            candidate,
                            step.plan(db, infos),
                        ));
                        assert(past + before.plan(db, infos).queries =~= longer + step.plan(
                            db,
                            infos,
                        ).queries);
                    }
                    past = longer;
                    answers = more;
                }
            },
        }
    }
}

} // verus!
