//! Keeping account of what a canonicalization prunes.
use crate::codec::Stored;
use crate::hashes::{
    find_hash, hash_eq, lemma_remove_first_absent, lemma_remove_first_at, lemma_remove_first_len,
    remove_first,
};
use crate::keys::{blocks_at_height_key, candidate_entry_key, stored_blocks_key};
use crate::pruning::{
    first_at, gone_candidates, gone_lists, kept_candidates, kept_lists, known, place, pruning_batch,
    Pruned, Target,
};
use crate::store::{keys_view, WriteBatch};
use crate::types::{BlockNumber, Candidate, CandidateEntry, CandidateHash, StoredBlockRange, H256};
use vstd::prelude::*;
use vstd::slice::slice_to_vec;

verus! {

/// What a canonicalization has found out so far: see [`Pruned`].
pub struct Tally {
    pub(crate) heights: Vec<BlockNumber>,
    pub(crate) blocks: Vec<H256>,
    pub(crate) candidates: Vec<(CandidateHash, CandidateEntry)>,
    pub(crate) lists: Vec<(BlockNumber, Vec<H256>)>,
}

/// Candidate entries by their hashes, each by what it stands for.
pub(crate) open spec fn candidates_view(s: Seq<(CandidateHash, CandidateEntry)>) -> Seq<
    (CandidateHash, Candidate),
> {
    Seq::new(s.len(), |i: int| (s[i].0, s[i].1@))
}

/// Lists of blocks by their heights, as sequences.
pub(crate) open spec fn lists_view(s: Seq<(BlockNumber, Vec<H256>)>) -> Seq<
    (BlockNumber, Seq<H256>),
> {
    Seq::new(s.len(), |i: int| (s[i].0, s[i].1@))
}

impl View for Tally {
    type V = Pruned;

    closed spec fn view(&self) -> Pruned {
        Pruned {
            heights: self.heights@,
            blocks: self.blocks@,
            candidates: candidates_view(self.candidates@),
            lists: lists_view(self.lists@),
        }
    }
}

/// Removing a block from a candidate entry leaves it fit to be written.
proof fn lemma_without(c: Candidate, block: H256)
    requires
        c.encodable(),
    ensures
        c.without(block).encodable(),
{
    let m = c.block_assignments;
    if m.contains_key(block) {
        assert(m.remove(block).dom() =~= m.dom().remove(block));
    } else {
        assert(m.remove(block) =~= m);
    }
}

/// Take the first occurrence of a block off a list.
fn strike_from(list: &mut Vec<H256>, block: &H256)
    ensures
        final(list)@ == remove_first(old(list)@, *block),
        final(list)@.len() <= old(list)@.len(),
{
    proof {
        lemma_remove_first_len(list@, *block);
    }
    match find_hash(list, block) {
        Some(i) => {
            proof {
                lemma_remove_first_at(list@, *block, i as int);
            }
            let _removed = list.remove(i);
        },
        None => {
            proof {
                lemma_remove_first_absent(list@, *block);
            }
        },
    }
}

proof fn lemma_first_at<K, V>(s: Seq<(K, V)>, key: K, i: int)
    requires
        first_at(s, key, i),
    ensures
        known(s, key),
        place(s, key) == i,
{
    let j = place(s, key);
    assert(first_at(s, key, j));
    if i < j {
        assert(s[i].0 != key);
    } else if j < i {
        assert(s[j].0 != key);
    }
}

impl Tally {
    /// Every entry and every list is fit to be written.
    pub closed spec fn valid(self) -> bool {
        &&& forall|i: int|
            0 <= i < self.candidates@.len() ==> (#[trigger] self.candidates@[i]).1.writable()
        &&& forall|i: int| 0 <= i < self.lists@.len() ==> (#[trigger] self.lists@[i]).1.writable()
    }

    /// Nothing found out yet.
    pub(crate) fn new() -> (r: Tally)
        ensures
            r.valid(),
            r@ == Pruned::nothing(),
    {
        let r = Tally {
            heights: Vec::new(),
            blocks: Vec::new(),
            candidates: Vec::new(),
            lists: Vec::new(),
        };
        assert(r@ =~= Pruned::nothing());
        r
    }

    /// One more height is cleared.
    pub(crate) fn clear_height(&mut self, height: BlockNumber)
        requires
            old(self).valid(),
        ensures
            final(self).valid(),
            final(self)@ == old(self)@.clear_height(height),
    {
        self.heights.push(height);
        assert(self@ =~= old(self)@.clear_height(height));
    }

    /// One more block entry goes.
    pub(crate) fn drop_block(&mut self, block: H256)
        requires
            old(self).valid(),
        ensures
            final(self).valid(),
            final(self)@ == old(self)@.drop_block(block),
    {
        self.blocks.push(block);
        assert(self@ =~= old(self)@.drop_block(block));
    }

    /// Release a candidate from a block, if the candidate was visited before. Says whether it was.
    pub(crate) fn release_again(&mut self, candidate: &CandidateHash, block: &H256) -> (r: bool)
        requires
            old(self).valid(),
        ensures
            final(self).valid(),
            r == known(old(self)@.candidates, *candidate),
            r ==> final(self)@ == old(self)@.release_again(*candidate, *block),
            !r ==> *final(self) == *old(self),
    {
        let mut i: usize = 0;
        while i < self.candidates.len()
            invariant
                *self == *old(self),
                self.valid(),
                i <= self.candidates.len(),
                forall|j: int|
                    0 <= j < i ==> (#[trigger] self@.candidates[j]).0 != *candidate,
            decreases self.candidates.len() - i,
        {
            if hash_eq(&self.candidates[i].0, candidate) {
                let ghost before = self@.candidates;
                proof {
                    assert(first_at(before, *candidate, i as int));
                    lemma_first_at(before, *candidate, i as int);
                    lemma_without(self.candidates@[i as int].1@, *block);
                }
                self.candidates[i].1.block_assignments.remove(block);
                assert(self@ =~= old(self)@.release_again(*candidate, *block));
                return true;
            }
            i = i + 1;
        }
        false
    }

    /// Release a candidate that was not visited before from a block.
    pub(crate) fn release_new(
        &mut self,
        candidate: CandidateHash,
        entry: CandidateEntry,
        block: &H256,
    )
        requires
            old(self).valid(),
            entry.writable(),
        ensures
            final(self).valid(),
            final(self)@ == old(self)@.release_new(candidate, entry@, *block),
    {
        let mut entry = entry;
        let ghost before = entry@;
        proof {
            lemma_without(before, *block);
        }
        entry.block_assignments.remove(block);
        self.candidates.push((candidate, entry));
        assert(self@ =~= old(self)@.release_new(candidate, before, *block));
    }

    /// Take a block off the list at a height, if the height was visited before. Says whether it
    /// was.
    pub(crate) fn strike_again(&mut self, height: BlockNumber, block: &H256) -> (r: bool)
        requires
            old(self).valid(),
        ensures
            final(self).valid(),
            r == known(old(self)@.lists, height),
            r ==> final(self)@ == old(self)@.strike_again(height, *block),
            !r ==> *final(self) == *old(self),
    {
        let mut i: usize = 0;
        while i < self.lists.len()
            invariant
                *self == *old(self),
                self.valid(),
                i <= self.lists.len(),
                forall|j: int| 0 <= j < i ==> (#[trigger] self@.lists[j]).0 != height,
            decreases self.lists.len() - i,
        {
            if self.lists[i].0 == height {
                let ghost before = self@.lists;
                proof {
                    assert(first_at(before, height, i as int));
                    lemma_first_at(before, height, i as int);
                }
                strike_from(&mut self.lists[i].1, block);
                assert(self@ =~= old(self)@.strike_again(height, *block));
                return true;
            }
            i = i + 1;
        }
        false
    }

    /// Take a block off the list at a height that was not visited before.
    pub(crate) fn strike_new(&mut self, height: BlockNumber, list: Vec<H256>, block: &H256)
        requires
            old(self).valid(),
            list.writable(),
        ensures
            final(self).valid(),
            final(self)@ == old(self)@.strike_new(height, list@, *block),
    {
        let mut list = list;
        let ghost before = list@;
        strike_from(&mut list, block);
        self.lists.push((height, list));
        assert(self@ =~= old(self)@.strike_new(height, before, *block));
    }

    /// The writes that a canonicalization ends with.
    pub(crate) fn batch(&self, target: &Target) -> (r: WriteBatch)
        requires
            self.valid(),
            target.number <= u32::MAX - 2,
        ensures
            r@ == pruning_batch(*target, self@),
    {
        let mut batch = WriteBatch::new();
        let end: BlockNumber = target.number + 2;
        let range = StoredBlockRange(
            target.number + 1,
            if target.top >= end {
                target.top
            } else {
                end
            },
        );
        batch.insert(stored_blocks_key().as_slice(), range.write());
        batch.delete_blocks(&self.blocks);
        batch.delete_heights(&self.heights);
        let ghost before = batch@;
        let mut gone: Vec<Vec<u8>> = Vec::new();
        let mut i: usize = 0;
        assert(keys_view(gone@) =~= gone_candidates(self@.candidates.take(0)));
        assert(batch@.inserted =~= before.inserted + kept_candidates(self@.candidates.take(0)));
        while i < self.candidates.len()
            invariant
                self.valid(),
                i <= self.candidates.len(),
                batch@.deleted == before.deleted,
                batch@.inserted == before.inserted + kept_candidates(
                    self@.candidates.take(i as int),
                ),
                keys_view(gone@) == gone_candidates(self@.candidates.take(i as int)),
            decreases self.candidates.len() - i,
        {
            let key = candidate_entry_key(&self.candidates[i].0);
            let entry = &self.candidates[i].1;
            let ghost so_far = self@.candidates.take(i + 1);
            assert(so_far.drop_last() =~= self@.candidates.take(i as int));
            assert(so_far.last() == (self.candidates@[i as int].0, entry@));
            if entry.block_assignments.is_empty() {
                gone.push(slice_to_vec(key.as_slice()));
                assert(keys_view(gone@) =~= gone_candidates(so_far));
            } else {
                batch.insert(key.as_slice(), entry.write());
                assert(batch@.inserted =~= before.inserted + kept_candidates(so_far));
            }
            i = i + 1;
        }
        assert(self@.candidates.take(i as int) =~= self@.candidates);
        let ghost middle = batch@;
        let mut k: usize = 0;
        assert(batch@.deleted =~= middle.deleted + gone_lists(self@.lists.take(0)));
        assert(batch@.inserted =~= middle.inserted + kept_lists(self@.lists.take(0)));
        while k < self.lists.len()
            invariant
                self.valid(),
                k <= self.lists.len(),
                batch@.deleted == middle.deleted + gone_lists(self@.lists.take(k as int)),
                batch@.inserted == middle.inserted + kept_lists(self@.lists.take(k as int)),
            decreases self.lists.len() - k,
        {
            let key = blocks_at_height_key(self.lists[k].0);
            let list = &self.lists[k].1;
            let ghost so_far = self@.lists.take(k + 1);
            assert(so_far.drop_last() =~= self@.lists.take(k as int));
            assert(so_far.last() == (self.lists@[k as int].0, list@));
            if list.len() == 0 {
                batch.delete(key.as_slice());
                assert(batch@.deleted =~= middle.deleted + gone_lists(so_far));
            } else {
                batch.insert(key.as_slice(), list.write());
                assert(batch@.inserted =~= middle.inserted + kept_lists(so_far));
            }
            k = k + 1;
        }
        assert(self@.lists.take(k as int) =~= self@.lists);
        let ghost late = batch@;
        let ghost gone_keys = keys_view(gone@);
        batch.deleted.append(&mut gone);
        assert(batch@.deleted =~= late.deleted + gone_keys);
        assert(batch@.inserted =~= pruning_batch(*target, self@).inserted);
        assert(batch@.deleted =~= pruning_batch(*target, self@).deleted);
        batch
    }
}

} // verus!
