//! Clearing the database, one read at a time.
use crate::keys::{
    block_entry_key, block_key, blocks_at_height_key, candidate_entry_key, candidate_key,
    height_key, range_key, stored_blocks_key,
};
use crate::operation::{
    ask, done, fail, follow, lemma_follow_ask, lemma_follow_done, lemma_follow_follow, Operation,
    Plan, Step, Traced, Waiting,
};
use crate::store::{
    block_keys, block_of, height_keys, list_of, load_block_entry, load_blocks_at_height,
    load_stored_blocks, lookup, range_of, reply_view, Batch, Db, Failure, WriteBatch,
};
use crate::types::{BlockNumber, CandidateHash, CoreIndex, H256};
use vstd::prelude::*;
use vstd::slice::slice_to_vec;

verus! {

/// What a clearing has come across so far.
#[verifier::ext_equal]
pub struct Found {
    pub heights: Seq<BlockNumber>,
    pub blocks: Seq<H256>,
    pub candidates: Seq<CandidateHash>,
}

/// The hashes of the candidates that a block includes.
pub open spec fn candidate_hashes(s: Seq<(CoreIndex, CandidateHash)>) -> Seq<CandidateHash> {
    Seq::new(s.len(), |i: int| s[i].1)
}

/// The keys of some candidate entries.
pub open spec fn candidate_keys(s: Seq<CandidateHash>) -> Seq<Seq<u8>> {
    Seq::new(s.len(), |i: int| candidate_key(s[i]))
}

impl Found {
    /// Nothing yet.
    pub open spec fn nothing() -> Found {
        Found { heights: Seq::empty(), blocks: Seq::empty(), candidates: Seq::empty() }
    }

    /// One more height.
    pub open spec fn height(self, height: BlockNumber) -> Found {
        Found { heights: self.heights.push(height), ..self }
    }

    /// One more block, with the candidates that it includes.
    pub open spec fn block(
        self,
        block: H256,
        candidates: Seq<(CoreIndex, CandidateHash)>,
    ) -> Found {
        Found {
            blocks: self.blocks.push(block),
            candidates: self.candidates + candidate_hashes(candidates),
            ..self
        }
    }
}

/// Look at the blocks that are listed at a height. One without an entry is passed over.
pub open spec fn look_at_listed(db: Db, list: Seq<H256>, f: Found) -> Traced<Found>
    decreases list.len(),
{
    if list.len() == 0 {
        done(f)
    } else {
        ask(
            block_key(list[0]),
            match block_of(db, list[0]) {
                Err(e) => fail(e),
                Ok(None) => look_at_listed(db, list.skip(1), f),
                Ok(Some(entry)) => look_at_listed(
                    db,
                    list.skip(1),
                    f.block(list[0], entry.candidates),
                ),
            },
        )
    }
}

/// Look at the heights from `height` on, up to and without `top`.
pub open spec fn look_at_heights(db: Db, height: BlockNumber, top: BlockNumber, f: Found) -> Traced<
    Found,
>
    decreases top - height,
{
    if height >= top {
        done(f)
    } else {
        ask(
            height_key(height),
            match list_of(db, height) {
                Err(e) => fail(e),
                Ok(list) => {
                    let v = look_at_listed(db, list, f.height(height));
                    follow(v, look_at_heights(db, (height + 1) as BlockNumber, top, v.value()))
                },
            },
        )
    }
}

/// The writes that a clearing ends with: everything that it came across goes, and the range.
pub open spec fn clearing_batch(f: Found) -> Batch {
    Batch {
        inserted: Seq::empty(),
        deleted: height_keys(f.heights) + block_keys(f.blocks) + candidate_keys(f.candidates)
            + seq![range_key()],
    }
}

/// What clearing the database does: it deletes the lists at every height of the stored range, the
/// entries of the blocks on them, and the entries of the candidates that those include.
pub open spec fn clear_plan(db: Db) -> Plan {
    ask(
        range_key(),
        match range_of(db) {
            Err(e) => fail(e),
            Ok(None) => done(None),
            Ok(Some(range)) => {
                let v = look_at_heights(db, range.0, range.1, Found::nothing());
                follow(v, done(Some(clearing_batch(v.value()))))
            },
        },
    )
}

/// What a clearing waits for.
pub enum ClearStage {
    /// The stored range.
    Range,
    /// The list at a height.
    Height { height: BlockNumber, top: BlockNumber },
    /// The entry of the block at `next` on the list at a height.
    Block { height: BlockNumber, top: BlockNumber, list: Vec<H256>, next: usize },
}

/// A clearing that waits for a value.
pub struct Clear {
    heights: Vec<BlockNumber>,
    blocks: Vec<H256>,
    candidates: Vec<CandidateHash>,
    stage: ClearStage,
}

impl Clear {
    /// What it has come across so far.
    closed spec fn found(&self) -> Found {
        Found { heights: self.heights@, blocks: self.blocks@, candidates: self.candidates@ }
    }

    /// Turn to a height.
    fn at_height(self, height: BlockNumber, top: BlockNumber) -> (r: Step<Clear>)
        ensures
            r.valid(),
            forall|db: Db| #[trigger] r.plan(db) == from_heights(db, height, top, self.found()),
    {
        if height >= top {
            let mut batch = WriteBatch::new();
            batch.delete_heights(&self.heights);
            batch.delete_blocks(&self.blocks);
            let ghost before = batch@.deleted;
            let mut i: usize = 0;
            assert(batch@.deleted =~= before + candidate_keys(self.candidates@.take(0)));
            while i < self.candidates.len()
                invariant
                    i <= self.candidates.len(),
                    batch@.inserted == Seq::<(Seq<u8>, Seq<u8>)>::empty(),
                    batch@.deleted == before + candidate_keys(self.candidates@.take(i as int)),
                decreases self.candidates.len() - i,
            {
                batch.delete(candidate_entry_key(&self.candidates[i]).as_slice());
                i = i + 1;
                assert(batch@.deleted =~= before + candidate_keys(
                    self.candidates@.take(i as int),
                ));
            }
            assert(self.candidates@.take(i as int) =~= self.candidates@);
            batch.delete(stored_blocks_key().as_slice());
            assert(batch@ =~= clearing_batch(self.found()));
            let r = Step::Finish(Ok(Some(batch)));
            proof {
                assert forall|db: Db| #[trigger] r.plan(db) == from_heights(
                    db,
                    height,
                    top,
                    self.found(),
                ) by {
                    assert(r.plan(db) =~= from_heights(db, height, top, self.found()));
                }
            }
            r
        } else {
            let key = slice_to_vec(blocks_at_height_key(height).as_slice());
            let next = Clear { stage: ClearStage::Height { height, top }, ..self };
            Step::Get { key, next }
        }
    }

    /// Turn to a block on the list at a height.
    fn at_block(
        self,
        height: BlockNumber,
        top: BlockNumber,
        list: Vec<H256>,
        next: usize,
    ) -> (r: Step<Clear>)
        requires
            height < top,
            next <= list@.len(),
        ensures
            r.valid(),
            forall|db: Db| #[trigger]
                r.plan(db) == from_blocks(db, height, top, list@.skip(next as int), self.found()),
    {
        if next < list.len() {
            let key = slice_to_vec(block_entry_key(&list[next]).as_slice());
            let stage = ClearStage::Block { height, top, list, next };
            return Step::Get { key, next: Clear { stage, ..self } };
        }
        proof {
            assert forall|db: Db| #[trigger] from_heights(
                db,
                (height + 1) as BlockNumber,
                top,
                self.found(),
            ) == from_blocks(db, height, top, list@.skip(next as int), self.found()) by {
                lemma_follow_done(
                    self.found(),
                    from_heights(db, (height + 1) as BlockNumber, top, self.found()),
                );
            }
        }
        self.at_height(height + 1, top)
    }
}

/// What is done from a height on.
spec fn from_heights(db: Db, height: BlockNumber, top: BlockNumber, f: Found) -> Plan {
    let v = look_at_heights(db, height, top, f);
    follow(v, done(Some(clearing_batch(v.value()))))
}

/// What is done from some of the blocks listed at a height on.
spec fn from_blocks(
    db: Db,
    height: BlockNumber,
    top: BlockNumber,
    list: Seq<H256>,
    f: Found,
) -> Plan {
    let v = look_at_listed(db, list, f);
    follow(v, from_heights(db, (height + 1) as BlockNumber, top, v.value()))
}

/// Looking at a height is reading its list, and going on from the blocks on it.
proof fn lemma_height(db: Db, height: BlockNumber, top: BlockNumber, f: Found)
    requires
        height < top,
    ensures
        match list_of(db, height) {
            Err(e) => from_heights(db, height, top, f) == ask(
                height_key(height),
                fail::<Option<Batch>>(e),
            ),
            Ok(list) => from_heights(db, height, top, f) == ask(
                height_key(height),
                from_blocks(db, height, top, list, f.height(height)),
            ),
        },
{
    let key = height_key(height);
    match list_of(db, height) {
        Err(e) => {
            assert(from_heights(db, height, top, f) =~= ask(key, fail::<Option<Batch>>(e)));
        },
        Ok(list) => {
            let v = look_at_listed(db, list, f.height(height));
            let w = look_at_heights(db, (height + 1) as BlockNumber, top, v.value());
            let end = done(Some(clearing_batch(w.value())));
            lemma_follow_ask(key, follow(v, w), end);
            lemma_follow_follow(v, w, end);
            let whole = look_at_heights(db, height, top, f);
            assert(whole == ask(key, follow(v, w)));
            if v.result is Ok {
                assert(whole.value() == w.value());
            } else {
                assert(from_heights(db, height, top, f) =~= ask(key, follow(v, follow(w, end))));
            }
        },
    }
}

/// Looking at a listed block is reading its entry, and going on from the next one.
proof fn lemma_block(
    db: Db,
    height: BlockNumber,
    top: BlockNumber,
    list: Seq<H256>,
    f: Found,
)
    requires
        list.len() > 0,
    ensures
        from_blocks(db, height, top, list, f) == ask(
            block_key(list[0]),
            match block_of(db, list[0]) {
                Err(e) => fail(e),
                Ok(None) => from_blocks(db, height, top, list.skip(1), f),
                Ok(Some(entry)) => from_blocks(
                    db,
                    height,
                    top,
                    list.skip(1),
                    f.block(list[0], entry.candidates),
                ),
            },
        ),
{
    let key = block_key(list[0]);
    match block_of(db, list[0]) {
        Err(e) => {
            assert(from_blocks(db, height, top, list, f) =~= ask(key, fail::<Option<Batch>>(e)));
        },
        Ok(entry) => {
            let g = match entry {
                None => f,
                Some(entry) => f.block(list[0], entry.candidates),
            };
            let v = look_at_listed(db, list.skip(1), g);
            lemma_follow_ask(
                key,
                v,
                from_heights(db, (height + 1) as BlockNumber, top, v.value()),
            );
        },
    }
}

impl Waiting for Clear {
    closed spec fn valid(&self) -> bool {
        match self.stage {
            ClearStage::Range => self.found() == Found::nothing(),
            ClearStage::Height { height, top } => height < top,
            ClearStage::Block { height, top, list, next } => height < top && next < list@.len(),
        }
    }

    closed spec fn awaits(&self) -> Seq<u8> {
        match self.stage {
            ClearStage::Range => range_key(),
            ClearStage::Height { height, top } => height_key(height),
            ClearStage::Block { height, top, list, next } => block_key(list@[next as int]),
        }
    }

    closed spec fn plan(&self, db: Db) -> Plan {
        match self.stage {
            ClearStage::Range => clear_plan(db),
            ClearStage::Height { height, top } => from_heights(db, height, top, self.found()),
            ClearStage::Block { height, top, list, next } => from_blocks(
                db,
                height,
                top,
                list@.skip(next as int),
                self.found(),
            ),
        }
    }

    proof fn awaits_first(&self, db: Db) {
    }
}

impl Operation for Clear {
    fn resume(self, reply: Option<Vec<u8>>) -> (r: Step<Clear>) {
        let ghost start = self;
        let ghost f = self.found();
        let Clear { heights, blocks, candidates, stage } = self;
        let mut heights = heights;
        let mut blocks = blocks;
        let mut candidates = candidates;
        match stage {
            ClearStage::Range => match load_stored_blocks(reply) {
                Err(e) => Step::Finish(Err(e)),
                Ok(None) => Step::Finish(Ok(None)),
                Ok(Some(range)) => {
                    let next = Clear { heights, blocks, candidates, stage: ClearStage::Range };
                    next.at_height(range.0, range.1)
                },
            },
            ClearStage::Height { height, top } => {
                match load_blocks_at_height(reply) {
                    Err(e) => {
                        let r = Step::Finish(Err(e));
                        proof {
                            assert forall|db: Db|
                                lookup(db, height_key(height)) == reply_view(
                                    reply,
                                ) implies start.plan(db) == ask(
                                height_key(height),
                                #[trigger] r.plan(db),
                            ) by {
                                lemma_height(db, height, top, f);
                            }
                        }
                        r
                    },
                    Ok(list) => {
                        heights.push(height);
                        let ghost listed = list@;
                        assert(list@.skip(0) =~= listed);
                        let next = Clear { heights, blocks, candidates, stage: ClearStage::Range };
                        assert(next.found() =~= f.height(height));
                        proof {
                            assert forall|db: Db|
                                lookup(db, height_key(height)) == reply_view(
                                    reply,
                                ) implies start.plan(db) == ask(
                                height_key(height),
                                #[trigger] from_blocks(db, height, top, listed, next.found()),
                            ) by {
                                lemma_height(db, height, top, f);
                            }
                        }
                        next.at_block(height, top, list, 0)
                    },
                }
            },
            ClearStage::Block { height, top, list, next } => {
                assert(next < list.len());
                let block = list[next];
                let ghost all = list@.skip(next as int);
                assert(all.skip(1) =~= list@.skip(next + 1));
                assert(all[0] == block);
                match load_block_entry(reply) {
                    Err(e) => {
                        let r = Step::Finish(Err(e));
                        proof {
                            assert forall|db: Db|
                                lookup(db, block_key(block)) == reply_view(
                                    reply,
                                ) implies start.plan(db) == ask(
                                block_key(block),
                                #[trigger] r.plan(db),
                            ) by {
                                lemma_block(db, height, top, all, f);
                            }
                        }
                        r
                    },
                    Ok(entry) => {
                        let ghost g = match &entry {
                            None => f,
                            Some(entry) => f.block(block, entry@.candidates),
                        };
                        let ghost loaded = match &entry {
                            None => None,
                            Some(entry) => Some(entry@),
                        };
                        match entry {
                            None => {},
                            Some(entry) => {
                                blocks.push(block);
                                push_hashes(&mut candidates, &entry.candidates);
                            },
                        }
                        let after = Clear { heights, blocks, candidates, stage: ClearStage::Range };
                        assert(after.found() =~= g);
                        proof {
                            assert forall|db: Db|
                                lookup(db, block_key(block)) == reply_view(
                                    reply,
                                ) implies start.plan(db) == ask(
                                block_key(block),
                                #[trigger] from_blocks(
                                    db,
                                    height,
                                    top,
                                    list@.skip(next + 1),
                                    after.found(),
                                ),
                            ) by {
                                assert(block_of(db, block) == Ok::<_, Failure>(loaded));
                                lemma_block(db, height, top, all, f);
                            }
                        }
                        after.at_block(height, top, list, next + 1)
                    },
                }
            },
        }
    }
}

/// Add the hashes of the candidates that a block includes.
fn push_hashes(hashes: &mut Vec<CandidateHash>, candidates: &Vec<(CoreIndex, CandidateHash)>)
    ensures
        final(hashes)@ == old(hashes)@ + candidate_hashes(candidates@),
{
    let mut i: usize = 0;
    assert(hashes@ =~= old(hashes)@ + candidate_hashes(candidates@.take(0)));
    while i < candidates.len()
        invariant
            i <= candidates.len(),
            hashes@ == old(hashes)@ + candidate_hashes(candidates@.take(i as int)),
        decreases candidates.len() - i,
    {
        hashes.push(candidates[i].1);
        i = i + 1;
        assert(hashes@ =~= old(hashes)@ + candidate_hashes(candidates@.take(i as int)));
    }
    assert(candidates@.take(i as int) =~= candidates@);
}

/// Clear the aux store of everything.
pub fn clear() -> (r: Step<Clear>)
    ensures
        r.valid(),
        forall|db: Db| #[trigger] r.plan(db) == clear_plan(db),
{
    let next = Clear {
        heights: Vec::new(),
        blocks: Vec::new(),
        candidates: Vec::new(),
        stage: ClearStage::Range,
    };
    assert(next.found() =~= Found::nothing());
    Step::Get { key: slice_to_vec(stored_blocks_key().as_slice()), next }
}

} // verus!
