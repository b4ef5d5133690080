//! The key-value store that holds the database, as an operation on the database sees it.
//!
//! An operation is a machine: it asks for the value under a key, is handed the reply, and asks
//! again, until it ends with a batch of writes or an error. Whoever runs it performs the reads and
//! the writes.
use crate::codec::Stored;
use crate::keys::{
    block_entry_key, block_key, blocks_at_height_key, candidate_key, height_key, range_key,
};
use crate::types::{
    Block, BlockEntry, BlockNumber, Candidate, CandidateEntry, CandidateHash, StoredBlockRange,
    H256,
};
use vstd::prelude::*;
use vstd::slice::slice_to_vec;

verus! {

/// What the store holds: values by their keys.
pub type Db = Map<Seq<u8>, Seq<u8>>;

/// Why an operation fails.
#[derive(Debug, PartialEq)]
pub enum Error {
    /// A stored item could not be decoded.
    Storage(String),
    /// A block number or the length of a list leaves the range that the database can hold.
    Overflow,
}

/// What an [`Error`] stands for.
#[verifier::ext_equal]
pub enum Failure {
    Storage(Seq<char>),
    Overflow,
}

impl View for Error {
    type V = Failure;

    open spec fn view(&self) -> Failure {
        match self {
            Error::Storage(text) => Failure::Storage(text@),
            Error::Overflow => Failure::Overflow,
        }
    }
}

/// Writes that are performed together: first the insertions, in order, then the deletions.
#[derive(Debug, PartialEq)]
pub struct WriteBatch {
    pub inserted: Vec<(Vec<u8>, Vec<u8>)>,
    pub deleted: Vec<Vec<u8>>,
}

/// What a [`WriteBatch`] stands for.
#[verifier::ext_equal]
pub struct Batch {
    pub inserted: Seq<(Seq<u8>, Seq<u8>)>,
    pub deleted: Seq<Seq<u8>>,
}

/// Pairs of a key and a value, as sequences.
pub open spec fn items_view(s: Seq<(Vec<u8>, Vec<u8>)>) -> Seq<(Seq<u8>, Seq<u8>)> {
    Seq::new(s.len(), |i: int| (s[i].0@, s[i].1@))
}

/// Keys, as sequences.
pub open spec fn keys_view(s: Seq<Vec<u8>>) -> Seq<Seq<u8>> {
    Seq::new(s.len(), |i: int| s[i]@)
}

impl View for WriteBatch {
    type V = Batch;

    open spec fn view(&self) -> Batch {
        Batch { inserted: items_view(self.inserted@), deleted: keys_view(self.deleted@) }
    }
}

impl WriteBatch {
    /// No writes.
    pub(crate) fn new() -> (r: WriteBatch)
        ensures
            r@ == (Batch { inserted: Seq::empty(), deleted: Seq::empty() }),
    {
        let r = WriteBatch { inserted: Vec::new(), deleted: Vec::new() };
        assert(r@ =~= (Batch { inserted: Seq::empty(), deleted: Seq::empty() }));
        r
    }

    /// Insert a value under a key.
    pub(crate) fn insert(&mut self, key: &[u8], value: Vec<u8>)
        ensures
            final(self)@.inserted == old(self)@.inserted.push((key@, value@)),
            final(self)@.deleted == old(self)@.deleted,
    {
        self.inserted.push((slice_to_vec(key), value));
        assert(self@.inserted =~= old(self)@.inserted.push((key@, value@)));
    }

    /// Delete the value under a key.
    pub(crate) fn delete(&mut self, key: &[u8])
        ensures
            final(self)@.inserted == old(self)@.inserted,
            final(self)@.deleted == old(self)@.deleted.push(key@),
    {
        self.deleted.push(slice_to_vec(key));
        assert(self@.deleted =~= old(self)@.deleted.push(key@));
    }

    /// Delete the entries of some blocks.
    pub(crate) fn delete_blocks(&mut self, blocks: &Vec<H256>)
        ensures
            final(self)@.inserted == old(self)@.inserted,
            final(self)@.deleted == old(self)@.deleted + block_keys(blocks@),
    {
        let mut i: usize = 0;
        assert(self@.deleted =~= old(self)@.deleted + block_keys(blocks@.take(0)));
        while i < blocks.len()
            invariant
                i <= blocks.len(),
                self@.inserted == old(self)@.inserted,
                self@.deleted == old(self)@.deleted + block_keys(blocks@.take(i as int)),
            decreases blocks.len() - i,
        {
            self.delete(block_entry_key(&blocks[i]).as_slice());
            i = i + 1;
            assert(self@.deleted =~= old(self)@.deleted + block_keys(blocks@.take(i as int)));
        }
        assert(blocks@.take(i as int) =~= blocks@);
    }

    /// Delete the lists at some heights.
    pub(crate) fn delete_heights(&mut self, heights: &Vec<BlockNumber>)
        ensures
            final(self)@.inserted == old(self)@.inserted,
            final(self)@.deleted == old(self)@.deleted + height_keys(heights@),
    {
        let mut i: usize = 0;
        assert(self@.deleted =~= old(self)@.deleted + height_keys(heights@.take(0)));
        while i < heights.len()
            invariant
                i <= heights.len(),
                self@.inserted == old(self)@.inserted,
                self@.deleted == old(self)@.deleted + height_keys(heights@.take(i as int)),
            decreases heights.len() - i,
        {
            self.delete(blocks_at_height_key(heights[i]).as_slice());
            i = i + 1;
            assert(self@.deleted =~= old(self)@.deleted + height_keys(heights@.take(i as int)));
        }
        assert(heights@.take(i as int) =~= heights@);
    }
}

/// The keys of some block entries.
pub open spec fn block_keys(s: Seq<H256>) -> Seq<Seq<u8>> {
    Seq::new(s.len(), |i: int| block_key(s[i]))
}

/// The keys of the lists at some heights.
pub open spec fn height_keys(s: Seq<BlockNumber>) -> Seq<Seq<u8>> {
    Seq::new(s.len(), |i: int| height_key(s[i]))
}

/// The store after some insertions.
pub open spec fn after_insertions(db: Db, items: Seq<(Seq<u8>, Seq<u8>)>) -> Db
    decreases items.len(),
{
    if items.len() == 0 {
        db
    } else {
        after_insertions(db, items.drop_last()).insert(items.last().0, items.last().1)
    }
}

/// The store after a batch of writes.
pub open spec fn after_writes(db: Db, batch: Batch) -> Db {
    after_insertions(db, batch.inserted).remove_keys(batch.deleted.to_set())
}

/// The store after an operation that ended well: one that has nothing to write leaves it as it
/// is.
pub open spec fn after_outcome(db: Db, outcome: Option<Batch>) -> Db {
    match outcome {
        Some(batch) => after_writes(db, batch),
        None => db,
    }
}

/// The store after an operation: one that fails leaves it as it is.
pub open spec fn after_end(db: Db, end: Result<Option<Batch>, Failure>) -> Db {
    match end {
        Ok(outcome) => after_outcome(db, outcome),
        Err(_) => db,
    }
}

/// The value under a key.
pub open spec fn lookup(db: Db, key: Seq<u8>) -> Option<Seq<u8>> {
    if db.contains_key(key) {
        Some(db[key])
    } else {
        None
    }
}

/// A reply of the store, as a sequence.
pub open spec fn reply_view(reply: Option<Vec<u8>>) -> Option<Seq<u8>> {
    match reply {
        Some(raw) => Some(raw@),
        None => None,
    }
}

/// The error for an item that could not be decoded, from the text of the decoder's error.
pub open spec fn decode_failure(text: Seq<char>) -> Failure {
    Failure::Storage("Failed to decode item in approvals DB: "@ + text)
}

/// What a reply of the store says, decoded.
pub open spec fn loaded<D: Stored>(reply: Option<Seq<u8>>) -> Result<Option<D::V>, Failure> {
    match reply {
        None => Ok(None),
        Some(raw) => match D::decoded(raw) {
            Ok(v) => Ok(Some(v)),
            Err(text) => Err(decode_failure(text)),
        },
    }
}

/// The stored range.
pub open spec fn range_of(db: Db) -> Result<Option<StoredBlockRange>, Failure> {
    loaded::<StoredBlockRange>(lookup(db, range_key()))
}

/// A list that may be missing is empty.
pub open spec fn list_or_empty(list: Result<Option<Seq<H256>>, Failure>) -> Result<
    Seq<H256>,
    Failure,
> {
    match list {
        Ok(Some(list)) => Ok(list),
        Ok(None) => Ok(Seq::empty()),
        Err(e) => Err(e),
    }
}

/// The blocks that are listed at a height.
pub open spec fn list_of(db: Db, height: BlockNumber) -> Result<Seq<H256>, Failure> {
    list_or_empty(loaded::<Vec<H256>>(lookup(db, height_key(height))))
}

/// The entry of a block.
pub open spec fn block_of(db: Db, block_hash: H256) -> Result<Option<Block>, Failure> {
    loaded::<BlockEntry>(lookup(db, block_key(block_hash)))
}

/// The entry of a candidate.
pub open spec fn candidate_of(db: Db, candidate_hash: CandidateHash) -> Result<
    Option<Candidate>,
    Failure,
> {
    loaded::<CandidateEntry>(lookup(db, candidate_key(candidate_hash)))
}

/// What a result of loading stands for.
pub open spec fn loaded_view<D: Stored>(r: Result<Option<D>, Error>) -> Result<
    Option<D::V>,
    Failure,
> {
    match r {
        Ok(Some(v)) => Ok(Some(v@)),
        Ok(None) => Ok(None),
        Err(e) => Err(e@),
    }
}

/// Decode what the store holds under some key.
pub fn load_decode<D: Stored>(reply: Option<Vec<u8>>) -> (r: Result<Option<D>, Error>)
    ensures
        loaded_view(r) == loaded::<D>(reply_view(reply)),
        match r {
            Ok(Some(v)) => v.well_formed(),
            _ => true,
        },
        match reply {
            None => r matches Ok(None),
            Some(raw) => match D::decoded(raw@) {
                Ok(v) => r matches Ok(Some(entry)) && entry@ == v,
                Err(text) => r matches Err(Error::Storage(message)) && message@
                    == "Failed to decode item in approvals DB: "@ + text,
            },
        },
{
    match reply {
        None => Ok(None),
        Some(raw) => match D::read(&raw) {
            Ok(v) => Ok(Some(v)),
            Err(text) => {
                let mut message: String = "Failed to decode item in approvals DB: ".to_owned();
                message.append(text.as_str());
                Err(Error::Storage(message))
            },
        },
    }
}

/// Load the stored-blocks key from the state, given what the store holds under
/// [`stored_blocks_key`](crate::stored_blocks_key).
pub fn load_stored_blocks(reply: Option<Vec<u8>>) -> (r: Result<Option<StoredBlockRange>, Error>)
    ensures
        loaded_view(r) == loaded::<StoredBlockRange>(reply_view(reply)),
{
    load_decode(reply)
}

/// What a result of loading a list stands for.
pub open spec fn list_view(r: Result<Vec<H256>, Error>) -> Result<Seq<H256>, Failure> {
    match r {
        Ok(list) => Ok(list@),
        Err(e) => Err(e@),
    }
}

/// Load a blocks-at-height entry for a given block number, given what the store holds under
/// [`blocks_at_height_key`](crate::blocks_at_height_key).
pub fn load_blocks_at_height(reply: Option<Vec<u8>>) -> (r: Result<Vec<H256>, Error>)
    ensures
        list_view(r) == list_or_empty(loaded::<Vec<H256>>(reply_view(reply))),
        reply is None ==> (r matches Ok(list) && list@.len() == 0),
        reply matches Some(raw) ==> match Vec::<H256>::decoded(raw@) {
            Ok(v) => r matches Ok(list) && list@ == v,
            Err(text) => r matches Err(Error::Storage(message)) && message@
                == "Failed to decode item in approvals DB: "@ + text,
        },
        match r {
            Ok(list) => list.well_formed(),
            Err(_) => true,
        },
{
    match load_decode::<Vec<H256>>(reply) {
        Ok(Some(list)) => Ok(list),
        Ok(None) => {
            let list: Vec<H256> = Vec::new();
            assert(list@ =~= Seq::empty());
            Ok(list)
        },
        Err(e) => Err(e),
    }
}

/// Load a block entry, given what the store holds under
/// [`block_entry_key`](crate::block_entry_key).
pub fn load_block_entry(reply: Option<Vec<u8>>) -> (r: Result<Option<BlockEntry>, Error>)
    ensures
        loaded_view(r) == loaded::<BlockEntry>(reply_view(reply)),
        match r {
            Ok(Some(v)) => v.well_formed(),
            _ => true,
        },
{
    load_decode(reply)
}

/// Load a candidate entry, given what the store holds under
/// [`candidate_entry_key`](crate::candidate_entry_key).
pub fn load_candidate_entry(reply: Option<Vec<u8>>) -> (r: Result<Option<CandidateEntry>, Error>)
    ensures
        loaded_view(r) == loaded::<CandidateEntry>(reply_view(reply)),
        match r {
            Ok(Some(v)) => v.well_formed(),
            _ => true,
        },
{
    load_decode(reply)
}

} // verus!
