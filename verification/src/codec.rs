//! Encoding and decoding the entries of the database with `parity_scale_codec`.
use crate::assignments::{
    ascending, collected, lemma_collected_at, lemma_collected_exists, lemma_collected_len,
    lemma_collected_unique, lemma_opened, pairs_of, BlockAssignments,
};
use crate::outside::{
    block_error, candidate_error, decode_block, decode_candidate, decode_hashes, decode_range,
    encode_block, encode_candidate, encode_hashes, encode_range, error_text, Bitfield,
};
use crate::scale::{
    block_bytes, hashes_bytes, layout_bytes, layout_of, little_endian, range_bytes, Layout,
};
use crate::scale_laws::{lemma_block, lemma_hashes, lemma_layout, lemma_range};
use crate::types::{
    Approval, ApprovalEntry, Block, BlockEntry, Candidate, CandidateEntry, CandidateReceipt,
    StoredBlockRange, H256,
};
use vstd::prelude::*;

verus! {

/// The layout that the approval entries of a candidate entry have in memory.
pub(crate) open spec fn memory_layout(entry: CandidateEntry) -> Layout {
    Layout {
        candidate: entry.candidate.encoded@,
        session: entry.session,
        pairs: pairs_of(entry.block_assignments.entries@),
        approvals: entry.approvals@,
    }
}

/// The fields of a candidate entry as they are read: the approval entries are a list, in the order
/// in which they are stored.
pub(crate) type CandidateFields = (CandidateReceipt, u32, Vec<(H256, ApprovalEntry)>, Bitfield);

/// The layout that the fields of a candidate entry were read from.
pub(crate) open spec fn fields_layout(fields: CandidateFields) -> Layout {
    Layout {
        candidate: fields.0.encoded@,
        session: fields.1,
        pairs: pairs_of(fields.2@),
        approvals: fields.3@,
    }
}

/// A type of entries that the database holds.
pub trait Stored: Sized + View {
    /// The entry is well formed, and can be written and read back.
    spec fn well_formed(&self) -> bool;

    /// The entry is well formed, and can be written.
    spec fn writable(&self) -> bool;

    /// The bytes that hold an entry.
    spec fn encoded(v: Self::V) -> Seq<u8>;

    /// What is read from the given bytes, or the text of the error that reading ends in.
    spec fn decoded(raw: Seq<u8>) -> Result<Self::V, Seq<char>>;

    /// Write an entry.
    fn write(&self) -> (r: Vec<u8>)
        requires
            self.writable(),
        ensures
            r@ == Self::encoded(self@),
    ;

    /// Read an entry from the bytes that hold it.
    fn read(raw: &Vec<u8>) -> (r: Result<Self, String>)
        ensures
            match r {
                Ok(v) => v.well_formed() && Self::decoded(raw@) == Ok::<Self::V, Seq<char>>(v@),
                Err(text) => Self::decoded(raw@) == Err::<Self::V, Seq<char>>(text@),
            },
    ;
}

/// Bytes begin with a length that is not in its shortest form, or that takes more than four bytes.
pub open spec fn bad_length(raw: Seq<u8>) -> bool {
    ||| exists|n: nat| n < 0x40 && (#[trigger] little_endian(n * 4 + 1, 2)).is_prefix_of(raw)
    ||| exists|n: nat| n < 0x4000 && (#[trigger] little_endian(n * 4 + 2, 4)).is_prefix_of(raw)
    ||| exists|n: nat|
        n < 0x4000_0000 && (seq![3u8] + #[trigger] little_endian(n, 4)).is_prefix_of(raw)
    ||| raw.len() > 0 && raw[0] % 4 == 3 && raw[0] != 3
}

/// The text of the error that decoding a list of hashes from the given bytes ends in.
pub open spec fn hashes_error(raw: Seq<u8>) -> Seq<char> {
    if bad_length(raw) {
        error_text("out of range decoding Compact<u32>"@)
    } else {
        too_few_bytes()
    }
}

/// The text of the error for an item that has too few bytes.
pub open spec fn too_few_bytes() -> Seq<char> {
    error_text("Not enough data to fill buffer"@)
}

/// The range that the given bytes begin with.
#[verifier::opaque]
pub open spec fn decoded_range(raw: Seq<u8>) -> Result<StoredBlockRange, Seq<char>> {
    if exists|r: StoredBlockRange| (#[trigger] range_bytes(r.0, r.1)).is_prefix_of(raw) {
        Ok(choose|r: StoredBlockRange| (#[trigger] range_bytes(r.0, r.1)).is_prefix_of(raw))
    } else {
        Err(too_few_bytes())
    }
}

/// The list of hashes that the given bytes begin with.
#[verifier::opaque]
pub open spec fn decoded_hashes(raw: Seq<u8>) -> Result<Seq<H256>, Seq<char>> {
    if exists|s: Seq<H256>| s.len() <= u32::MAX && (#[trigger] hashes_bytes(s)).is_prefix_of(raw) {
        Ok(
            choose|s: Seq<H256>|
                s.len() <= u32::MAX && (#[trigger] hashes_bytes(s)).is_prefix_of(raw),
        )
    } else {
        Err(hashes_error(raw))
    }
}

/// The block entry that the given bytes begin with.
#[verifier::opaque]
pub open spec fn decoded_block(raw: Seq<u8>) -> Result<Block, Seq<char>> {
    if exists|b: Block| b.storable() && (#[trigger] block_bytes(b)).is_prefix_of(raw) {
        Ok(choose|b: Block| b.storable() && (#[trigger] block_bytes(b)).is_prefix_of(raw))
    } else {
        Err(block_error(raw))
    }
}

/// The candidate entry that the given bytes begin with.
#[verifier::opaque]
pub open spec fn decoded_candidate(raw: Seq<u8>) -> Result<Candidate, Seq<char>> {
    if exists|l: Layout| l.storable() && (#[trigger] layout_bytes(l)).is_prefix_of(raw) {
        Ok(
            (choose|l: Layout|
                l.storable() && (#[trigger] layout_bytes(l)).is_prefix_of(raw)).entry(),
        )
    } else {
        Err(candidate_error(raw))
    }
}

proof fn lemma_prefix(a: Seq<u8>, raw: Seq<u8>) -> (rest: Seq<u8>)
    requires
        a.is_prefix_of(raw),
    ensures
        raw == a + rest,
{
    let rest = raw.skip(a.len() as int);
    assert(raw =~= a + rest);
    rest
}

/// The range that some bytes begin with is what is read from them.
pub(crate) proof fn lemma_decoded_range(r: StoredBlockRange, raw: Seq<u8>)
    requires
        range_bytes(r.0, r.1).is_prefix_of(raw),
    ensures
        decoded_range(raw) == Ok::<StoredBlockRange, Seq<char>>(r),
{
    reveal(decoded_range);
    let s = choose|s: StoredBlockRange| (#[trigger] range_bytes(s.0, s.1)).is_prefix_of(raw);
    let x = lemma_prefix(range_bytes(r.0, r.1), raw);
    let y = lemma_prefix(range_bytes(s.0, s.1), raw);
    lemma_range(r.0, r.1, s.0, s.1, x, y);
}

/// The list of hashes that some bytes begin with is what is read from them.
pub(crate) proof fn lemma_decoded_hashes(list: Seq<H256>, raw: Seq<u8>)
    requires
        list.len() <= u32::MAX,
        hashes_bytes(list).is_prefix_of(raw),
    ensures
        decoded_hashes(raw) == Ok::<Seq<H256>, Seq<char>>(list),
{
    reveal(decoded_hashes);
    let s = choose|s: Seq<H256>|
        s.len() <= u32::MAX && (#[trigger] hashes_bytes(s)).is_prefix_of(raw);
    let x = lemma_prefix(hashes_bytes(list), raw);
    let y = lemma_prefix(hashes_bytes(s), raw);
    lemma_hashes(list, s, x, y);
}

/// The block entry that some bytes begin with is what is read from them.
pub(crate) proof fn lemma_decoded_block(b: Block, raw: Seq<u8>)
    requires
        b.storable(),
        block_bytes(b).is_prefix_of(raw),
    ensures
        decoded_block(raw) == Ok::<Block, Seq<char>>(b),
{
    reveal(decoded_block);
    let s = choose|s: Block| s.storable() && (#[trigger] block_bytes(s)).is_prefix_of(raw);
    let x = lemma_prefix(block_bytes(b), raw);
    let y = lemma_prefix(block_bytes(s), raw);
    lemma_block(b, s, x, y);
}

/// The candidate entry that some bytes begin with is what is read from them.
pub(crate) proof fn lemma_decoded_layout(l: Layout, raw: Seq<u8>)
    requires
        l.storable(),
        layout_bytes(l).is_prefix_of(raw),
    ensures
        decoded_candidate(raw) == Ok::<Candidate, Seq<char>>(l.entry()),
{
    reveal(decoded_candidate);
    let s = choose|s: Layout| s.storable() && (#[trigger] layout_bytes(s)).is_prefix_of(raw);
    let x = lemma_prefix(layout_bytes(l), raw);
    let y = lemma_prefix(layout_bytes(s), raw);
    lemma_layout(l, s, x, y);
}

/// An entry that is read from a layout can be written again.
pub(crate) proof fn lemma_layout_storable(l: Layout)
    requires
        l.storable(),
    ensures
        l.entry().storable(),
{
    lemma_collected_storable(l.pairs);
}

proof fn lemma_collected_storable(pairs: Seq<(H256, Approval)>)
    requires
        forall|i: int| 0 <= i < pairs.len() ==> (#[trigger] pairs[i]).1.storable(),
    ensures
        collected(pairs).dom().finite(),
        collected(pairs).len() <= pairs.len(),
        forall|key: H256| #[trigger]
            collected(pairs).contains_key(key) ==> collected(pairs)[key].storable(),
    decreases pairs.len(),
{
    if pairs.len() > 0 {
        lemma_collected_storable(pairs.drop_last());
        assert(pairs[pairs.len() - 1].1.storable());
    }
}

/// The layout of an entry is the one with ascending keys.
proof fn lemma_layout_of(c: Candidate, pairs: Seq<(H256, Approval)>)
    requires
        ascending(pairs),
        collected(pairs) == c.block_assignments,
    ensures
        layout_of(c) == (Layout {
            candidate: c.candidate,
            session: c.session,
            pairs,
            approvals: c.approvals,
        }),
{
    let chosen = choose|p: Seq<(H256, Approval)>|
        ascending(p) && #[trigger] collected(p) == c.block_assignments;
    lemma_collected_unique(chosen, pairs);
}

/// What is read of a range that was written is that range.
pub proof fn range_reads_back(r: StoredBlockRange)
    ensures
        StoredBlockRange::decoded(StoredBlockRange::encoded(r)) == Ok::<
            StoredBlockRange,
            Seq<char>,
        >(r),
{
    lemma_decoded_range(r, range_bytes(r.0, r.1));
}

/// What is read of a list of hashes that was written is that list.
pub proof fn hashes_read_back(list: Seq<H256>)
    requires
        list.len() <= u32::MAX,
    ensures
        Vec::<H256>::decoded(Vec::<H256>::encoded(list)) == Ok::<Seq<H256>, Seq<char>>(list),
{
    lemma_decoded_hashes(list, hashes_bytes(list));
}

/// What is read of a block entry that was written is that entry.
pub proof fn block_reads_back(b: Block)
    requires
        b.storable(),
    ensures
        BlockEntry::decoded(BlockEntry::encoded(b)) == Ok::<Block, Seq<char>>(b),
{
    lemma_decoded_block(b, block_bytes(b));
}

/// What is read of a candidate entry that was written is that entry.
pub proof fn candidate_reads_back(c: Candidate)
    requires
        c.storable(),
    ensures
        CandidateEntry::decoded(CandidateEntry::encoded(c)) == Ok::<Candidate, Seq<char>>(c),
{
    let pairs = lemma_collected_exists(c.block_assignments);
    lemma_layout_of(c, pairs);
    let l = layout_of(c);
    lemma_collected_len(pairs);
    assert forall|i: int| 0 <= i < l.pairs.len() implies (#[trigger] l.pairs[i]).1.storable() by {
        lemma_collected_at(pairs, i);
    }
    lemma_decoded_layout(l, layout_bytes(l));
}

/// What is read of bytes that begin with a written entry is that entry, whatever follows.
pub proof fn what_follows_an_entry_does_not_matter(
    r: StoredBlockRange,
    list: Seq<H256>,
    b: Block,
    c: Candidate,
    rest: Seq<u8>,
)
    requires
        list.len() <= u32::MAX,
        b.storable(),
        c.storable(),
    ensures
        StoredBlockRange::decoded(StoredBlockRange::encoded(r) + rest) == Ok::<
            StoredBlockRange,
            Seq<char>,
        >(r),
        Vec::<H256>::decoded(Vec::<H256>::encoded(list) + rest) == Ok::<Seq<H256>, Seq<char>>(list),
        BlockEntry::decoded(BlockEntry::encoded(b) + rest) == Ok::<Block, Seq<char>>(b),
        CandidateEntry::decoded(CandidateEntry::encoded(c) + rest) == Ok::<Candidate, Seq<char>>(
            c,
        ),
{
    lemma_begins(range_bytes(r.0, r.1), rest);
    lemma_begins(hashes_bytes(list), rest);
    lemma_begins(block_bytes(b), rest);
    lemma_decoded_range(r, range_bytes(r.0, r.1) + rest);
    lemma_decoded_hashes(list, hashes_bytes(list) + rest);
    lemma_decoded_block(b, block_bytes(b) + rest);
    let pairs = lemma_collected_exists(c.block_assignments);
    lemma_layout_of(c, pairs);
    let l = layout_of(c);
    lemma_collected_len(pairs);
    assert forall|i: int| 0 <= i < l.pairs.len() implies (#[trigger] l.pairs[i]).1.storable() by {
        lemma_collected_at(pairs, i);
    }
    lemma_begins(layout_bytes(l), rest);
    lemma_decoded_layout(l, layout_bytes(l) + rest);
}

proof fn lemma_begins(a: Seq<u8>, rest: Seq<u8>)
    ensures
        a.is_prefix_of(a + rest),
{
    assert(a =~= (a + rest).subrange(0, a.len() as int));
}

/// What is read of an entry comes from its bytes: the bytes begin with what would be written for
/// it.
pub proof fn what_is_read_stands_in_the_bytes(raw: Seq<u8>)
    ensures
        StoredBlockRange::decoded(raw) matches Ok(r) ==> StoredBlockRange::encoded(r).is_prefix_of(
            raw,
        ),
        Vec::<H256>::decoded(raw) matches Ok(list) ==> Vec::<H256>::encoded(list).is_prefix_of(raw),
        BlockEntry::decoded(raw) matches Ok(b) ==> BlockEntry::encoded(b).is_prefix_of(raw),
{
    reveal(decoded_range);
    reveal(decoded_hashes);
    reveal(decoded_block);
}

/// What is read of a candidate entry that is laid out in any order has the receipt, the session and
/// the approvals that stand there. It has an approval entry for exactly the blocks that occur, and
/// for each of them the one that occurs last.
pub proof fn a_candidate_entry_is_read_in_any_order(l: Layout, rest: Seq<u8>, i: int)
    requires
        l.storable(),
    ensures
        CandidateEntry::decoded(layout_bytes(l) + rest) matches Ok(c) && {
            &&& c.candidate == l.candidate
            &&& c.session == l.session
            &&& c.approvals == l.approvals
            &&& forall|b: H256| #[trigger]
                c.block_assignments.contains_key(b) ==> exists|j: int|
                    0 <= j < l.pairs.len() && (#[trigger] l.pairs[j]).0 == b
            &&& 0 <= i < l.pairs.len() && (forall|j: int|
                i < j < l.pairs.len() ==> (#[trigger] l.pairs[j]).0 != l.pairs[i].0)
                ==> c.block_assignments.contains_key(l.pairs[i].0)
                && c.block_assignments[l.pairs[i].0] == l.pairs[i].1
        },
{
    lemma_begins(layout_bytes(l), rest);
    lemma_decoded_layout(l, layout_bytes(l) + rest);
    crate::view_laws::the_last_pair_counts(l.pairs, i);
}

impl View for StoredBlockRange {
    type V = StoredBlockRange;

    open spec fn view(&self) -> StoredBlockRange {
        *self
    }
}

impl Stored for StoredBlockRange {
    open spec fn well_formed(&self) -> bool {
        true
    }

    open spec fn writable(&self) -> bool {
        true
    }

    open spec fn encoded(v: StoredBlockRange) -> Seq<u8> {
        range_bytes(v.0, v.1)
    }

    open spec fn decoded(raw: Seq<u8>) -> Result<StoredBlockRange, Seq<char>> {
        decoded_range(raw)
    }

    fn write(&self) -> (r: Vec<u8>) {
        encode_range(self)
    }

    fn read(raw: &Vec<u8>) -> (r: Result<StoredBlockRange, String>) {
        let r = decode_range(raw);
        proof {
            reveal(decoded_range);
            match &r {
                Ok(range) => lemma_decoded_range(*range, raw@),
                Err(_) => {},
            }
        }
        r
    }
}

impl Stored for Vec<H256> {
    open spec fn well_formed(&self) -> bool {
        self@.len() <= u32::MAX
    }

    open spec fn writable(&self) -> bool {
        self@.len() <= u32::MAX
    }

    open spec fn encoded(v: Seq<H256>) -> Seq<u8> {
        hashes_bytes(v)
    }

    open spec fn decoded(raw: Seq<u8>) -> Result<Seq<H256>, Seq<char>> {
        decoded_hashes(raw)
    }

    fn write(&self) -> (r: Vec<u8>) {
        encode_hashes(self)
    }

    fn read(raw: &Vec<u8>) -> (r: Result<Vec<H256>, String>) {
        let r = decode_hashes(raw);
        proof {
            reveal(decoded_hashes);
            match &r {
                Ok(list) => lemma_decoded_hashes(list@, raw@),
                Err(_) => {},
            }
        }
        r
    }
}

impl Stored for BlockEntry {
    open spec fn well_formed(&self) -> bool {
        self@.storable()
    }

    open spec fn writable(&self) -> bool {
        self@.encodable()
    }

    open spec fn encoded(v: Block) -> Seq<u8> {
        block_bytes(v)
    }

    open spec fn decoded(raw: Seq<u8>) -> Result<Block, Seq<char>> {
        decoded_block(raw)
    }

    fn write(&self) -> (r: Vec<u8>) {
        encode_block(self)
    }

    fn read(raw: &Vec<u8>) -> (r: Result<BlockEntry, String>) {
        let r = decode_block(raw);
        proof {
            reveal(decoded_block);
            match &r {
                Ok(entry) => lemma_decoded_block(entry@, raw@),
                Err(_) => {},
            }
        }
        r
    }
}

impl Stored for CandidateEntry {
    open spec fn well_formed(&self) -> bool {
        self.block_assignments.valid() && self@.storable()
    }

    open spec fn writable(&self) -> bool {
        self.block_assignments.valid() && self@.encodable()
    }

    open spec fn encoded(v: Candidate) -> Seq<u8> {
        layout_bytes(layout_of(v))
    }

    open spec fn decoded(raw: Seq<u8>) -> Result<Candidate, Seq<char>> {
        decoded_candidate(raw)
    }

    fn write(&self) -> (r: Vec<u8>) {
        proof {
            lemma_opened(self.block_assignments);
            lemma_layout_of(self@, pairs_of(self.block_assignments.entries@));
        }
        encode_candidate(self)
    }

    fn read(raw: &Vec<u8>) -> (r: Result<CandidateEntry, String>) {
        proof {
            reveal(decoded_candidate);
        }
        match decode_candidate(raw) {
            Err(text) => Err(text),
            Ok(fields) => {
                let ghost l = fields_layout(fields);
                let (candidate, session, pairs, approvals) = fields;
                let block_assignments = BlockAssignments::collect(pairs);
                let entry = CandidateEntry { candidate, session, block_assignments, approvals };
                proof {
                    lemma_decoded_layout(l, raw@);
                    lemma_layout_storable(l);
                    assert(entry@ =~= l.entry());
                }
                Ok(entry)
            },
        }
    }
}

} // verus!
