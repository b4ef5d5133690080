//! The approval entries of a candidate, one for each block that includes it.
use crate::hashes::{
    hash_before, hash_eq, hash_less, lemma_before_irreflexive, lemma_before_total,
    lemma_before_transitive,
};
use crate::types::{Approval, ApprovalEntry, H256};
use vstd::prelude::*;

verus! {

/// A map from the hash of a block to the approval entry under that block, in ascending order of
/// the hashes.
#[derive(Debug, Clone, PartialEq)]
pub struct BlockAssignments {
    pub(crate) entries: Vec<(H256, ApprovalEntry)>,
}

/// The keys of a list of pairs ascend, so that none occurs twice.
pub open spec fn ascending<T>(s: Seq<(H256, T)>) -> bool {
    forall|i: int, j: int|
        0 <= i < j < s.len() ==> hash_before(#[trigger] s[i].0, #[trigger] s[j].0)
}

/// One of the pairs has the given key.
pub open spec fn has_key<T>(s: Seq<(H256, T)>, key: H256) -> bool {
    exists|i: int| 0 <= i < s.len() && (#[trigger] s[i]).0 == key
}

/// The map that inserting the pairs one after the other gives.
pub open spec fn collected<T>(pairs: Seq<(H256, T)>) -> Map<H256, T>
    decreases pairs.len(),
{
    if pairs.len() == 0 {
        Map::empty()
    } else {
        collected(pairs.drop_last()).insert(pairs.last().0, pairs.last().1)
    }
}

/// A list of approval entries, each by what it stands for.
pub open spec fn pairs_of(s: Seq<(H256, ApprovalEntry)>) -> Seq<(H256, Approval)> {
    Seq::new(s.len(), |i: int| (s[i].0, s[i].1@))
}

impl View for BlockAssignments {
    type V = Map<H256, Approval>;

    closed spec fn view(&self) -> Map<H256, Approval> {
        collected(pairs_of(self.entries@))
    }
}

/// Two places hold two keys.
proof fn lemma_distinct<T>(s: Seq<(H256, T)>, i: int, j: int)
    requires
        ascending(s),
        0 <= i < s.len(),
        0 <= j < s.len(),
        i != j,
    ensures
        s[i].0 != s[j].0,
{
    if i < j {
        lemma_before_irreflexive(s[i].0, s[j].0);
    } else {
        lemma_before_irreflexive(s[j].0, s[i].0);
    }
}

/// The keys of the collected map are those of the pairs.
pub(crate) proof fn lemma_collected_keys<T>(s: Seq<(H256, T)>, key: H256)
    ensures
        collected(s).contains_key(key) == has_key(s, key),
    decreases s.len(),
{
    if s.len() > 0 {
        let t = s.drop_last();
        lemma_collected_keys(t, key);
        if has_key(t, key) {
            let i = choose|i: int| 0 <= i < t.len() && (#[trigger] t[i]).0 == key;
            assert(s[i].0 == key);
        }
        if has_key(s, key) {
            let i = choose|i: int| 0 <= i < s.len() && (#[trigger] s[i]).0 == key;
            if i < t.len() {
                assert(t[i].0 == key);
            }
        }
        assert(s[s.len() - 1].0 == s.last().0);
    }
}

/// With ascending keys, each pair is found in the collected map.
pub(crate) proof fn lemma_collected_at<T>(s: Seq<(H256, T)>, i: int)
    requires
        ascending(s),
        0 <= i < s.len(),
    ensures
        collected(s).contains_key(s[i].0),
        collected(s)[s[i].0] == s[i].1,
    decreases s.len(),
{
    let t = s.drop_last();
    if i < t.len() {
        assert(ascending(t));
        lemma_collected_at(t, i);
        assert(t[i] == s[i]);
        lemma_distinct(s, i, s.len() - 1);
    }
}

/// The collected map has as many keys as there are pairs.
pub(crate) proof fn lemma_collected_len<T>(s: Seq<(H256, T)>)
    requires
        ascending(s),
    ensures
        collected(s).dom().finite(),
        collected(s).len() == s.len(),
    decreases s.len(),
{
    if s.len() > 0 {
        let t = s.drop_last();
        let key = s.last().0;
        assert(ascending(t));
        lemma_collected_len(t);
        lemma_collected_keys(t, key);
        if has_key(t, key) {
            let i = choose|i: int| 0 <= i < t.len() && (#[trigger] t[i]).0 == key;
            lemma_distinct(s, i, s.len() - 1);
        }
    }
}

/// Two lists with ascending keys collect to the same map if each pair of the one is among the
/// other's.
proof fn lemma_collected_same<T>(s: Seq<(H256, T)>, m: Map<H256, T>)
    requires
        ascending(s),
        forall|i: int|
            0 <= i < s.len() ==> m.contains_key((#[trigger] s[i]).0) && m[s[i].0] == s[i].1,
        forall|key: H256| #[trigger] m.contains_key(key) ==> has_key(s, key),
    ensures
        collected(s) == m,
{
    assert forall|key: H256| #[trigger] collected(s).contains_key(key) == m.contains_key(key) by {
        lemma_collected_keys(s, key);
    }
    assert forall|key: H256| #[trigger] collected(s).contains_key(key) implies collected(s)[key]
        == m[key] by {
        lemma_collected_keys(s, key);
        let i = choose|i: int| 0 <= i < s.len() && (#[trigger] s[i]).0 == key;
        lemma_collected_at(s, i);
    }
    assert(collected(s) =~= m);
}

/// Removing one pair removes its key from the map.
proof fn lemma_removed<T>(s: Seq<(H256, T)>, i: int)
    requires
        ascending(s),
        0 <= i < s.len(),
    ensures
        ascending(s.remove(i)),
        collected(s.remove(i)) == collected(s).remove(s[i].0),
{
    let t = s.remove(i);
    let key = s[i].0;
    let m = collected(s).remove(key);
    assert(forall|j: int| 0 <= j < i ==> t[j] == s[j]);
    assert(forall|j: int| i <= j < t.len() ==> t[j] == s[j + 1]);
    assert forall|j: int| 0 <= j < t.len() implies m.contains_key((#[trigger] t[j]).0) && m[t[j].0]
        == t[j].1 by {
        let l = if j < i {
            j
        } else {
            j + 1
        };
        lemma_collected_at(s, l);
        lemma_distinct(s, l, i);
    }
    assert forall|k: H256| #[trigger] m.contains_key(k) implies has_key(t, k) by {
        lemma_collected_keys(s, k);
        let l = choose|l: int| 0 <= l < s.len() && (#[trigger] s[l]).0 == k;
        let j = if l < i {
            l
        } else {
            l - 1
        };
        assert(t[j].0 == k);
    }
    lemma_collected_same(t, m);
}

/// Inserting a pair at its place adds its key to the map.
proof fn lemma_inserted<T>(s: Seq<(H256, T)>, i: int, key: H256, value: T)
    requires
        ascending(s),
        !has_key(s, key),
        0 <= i <= s.len(),
        forall|j: int| 0 <= j < i ==> hash_before((#[trigger] s[j]).0, key),
        i < s.len() ==> !hash_before(s[i].0, key),
    ensures
        ascending(s.insert(i, (key, value))),
        collected(s.insert(i, (key, value))) == collected(s).insert(key, value),
{
    let t = s.insert(i, (key, value));
    let m = collected(s).insert(key, value);
    if i < s.len() {
        assert(s[i].0 != key);
        lemma_before_total(s[i].0, key);
    }
    assert forall|j: int| i <= j < s.len() implies hash_before(key, (#[trigger] s[j]).0) by {
        if i < j {
            lemma_before_transitive(key, s[i].0, s[j].0);
        }
    }
    assert(forall|j: int| 0 <= j < i ==> t[j] == s[j]);
    assert(t[i] == (key, value));
    assert(forall|j: int| i < j < t.len() ==> t[j] == s[j - 1]);
    assert(ascending(t));
    assert forall|j: int| 0 <= j < t.len() implies m.contains_key((#[trigger] t[j]).0) && m[t[j].0]
        == t[j].1 by {
        if j != i {
            let l = if j < i {
                j
            } else {
                j - 1
            };
            lemma_collected_at(s, l);
            lemma_distinct(t, i, j);
        }
    }
    assert forall|k: H256| #[trigger] m.contains_key(k) implies has_key(t, k) by {
        if k == key {
            assert(t[i].0 == k);
        } else {
            lemma_collected_keys(s, k);
            let l = choose|l: int| 0 <= l < s.len() && (#[trigger] s[l]).0 == k;
            let j = if l < i {
                l
            } else {
                l + 1
            };
            assert(t[j].0 == k);
        }
    }
    lemma_collected_same(t, m);
}

/// A map is laid out with ascending keys in one way only.
pub(crate) proof fn lemma_collected_unique<T>(s: Seq<(H256, T)>, t: Seq<(H256, T)>)
    requires
        ascending(s),
        ascending(t),
        collected(s) == collected(t),
    ensures
        s == t,
    decreases s.len(),
{
    if s.len() == 0 || t.len() == 0 {
        if s.len() > 0 {
            lemma_collected_at(s, 0);
        }
        if t.len() > 0 {
            lemma_collected_at(t, 0);
        }
        assert(s =~= t);
    } else {
        let p = s.drop_last();
        let q = t.drop_last();
        let a = s.last().0;
        let b = t.last().0;
        lemma_collected_at(s, s.len() - 1);
        lemma_collected_at(t, t.len() - 1);
        if a != b {
            lemma_collected_keys(s, b);
            lemma_collected_keys(t, a);
            let i = choose|i: int| 0 <= i < s.len() && (#[trigger] s[i]).0 == b;
            let j = choose|j: int| 0 <= j < t.len() && (#[trigger] t[j]).0 == a;
            assert(hash_before(s[i].0, s[s.len() - 1].0));
            assert(hash_before(t[j].0, t[t.len() - 1].0));
            lemma_before_irreflexive(a, b);
        }
        lemma_removed(s, s.len() - 1);
        lemma_removed(t, t.len() - 1);
        assert(s.remove(s.len() - 1) =~= p);
        assert(t.remove(t.len() - 1) =~= q);
        lemma_collected_unique(p, q);
        assert(s =~= p.push(s.last()));
        assert(t =~= q.push(t.last()));
    }
}

/// Every finite map can be laid out with ascending keys.
pub(crate) proof fn lemma_collected_exists<T>(m: Map<H256, T>) -> (s: Seq<(H256, T)>)
    requires
        m.dom().finite(),
    ensures
        ascending(s),
        collected(s) == m,
    decreases m.dom().len(),
{
    if m.dom().len() == 0 {
        let s = Seq::<(H256, T)>::empty();
        assert(m =~= Map::empty());
        s
    } else {
        let key = m.dom().choose();
        let s = lemma_collected_exists(m.remove(key));
        lemma_collected_keys(s, key);
        let i = lemma_place_for(s, key);
        lemma_inserted(s, i, key, m[key]);
        assert(m.remove(key).insert(key, m[key]) =~= m);
        s.insert(i, (key, m[key]))
    }
}

proof fn lemma_place_for<T>(s: Seq<(H256, T)>, key: H256) -> (i: int)
    ensures
        0 <= i <= s.len(),
        forall|j: int| 0 <= j < i ==> hash_before((#[trigger] s[j]).0, key),
        i < s.len() ==> !hash_before(s[i].0, key),
    decreases s.len(),
{
    if s.len() == 0 || !hash_before(s[0].0, key) {
        0
    } else {
        let i = lemma_place_for(s.skip(1), key);
        assert forall|j: int| 0 <= j < i + 1 implies hash_before((#[trigger] s[j]).0, key) by {
            if j > 0 {
                assert(s.skip(1)[j - 1] == s[j]);
            }
        }
        i + 1
    }
}

/// A list of entries ascends if and only if the list of what they stand for does.
proof fn lemma_pairs_ascending(s: Seq<(H256, ApprovalEntry)>)
    ensures
        ascending(s) == ascending(pairs_of(s)),
{
    let p = pairs_of(s);
    if ascending(s) {
        assert forall|i: int, j: int| 0 <= i < j < p.len() implies hash_before(
            #[trigger] p[i].0,
            #[trigger] p[j].0,
        ) by {
            assert(hash_before(s[i].0, s[j].0));
        }
    }
    if ascending(p) {
        assert forall|i: int, j: int| 0 <= i < j < s.len() implies hash_before(
            #[trigger] s[i].0,
            #[trigger] s[j].0,
        ) by {
            assert(hash_before(p[i].0, p[j].0));
        }
    }
}

/// What the list of entries says of the map.
pub(crate) proof fn lemma_opened(a: BlockAssignments)
    ensures
        a.valid() == ascending(a.entries@),
        a.valid() ==> ascending(pairs_of(a.entries@)),
        a@ == collected(pairs_of(a.entries@)),
{
    lemma_pairs_ascending(a.entries@);
}

impl BlockAssignments {
    /// The entries are in ascending order of their blocks' hashes.
    pub closed spec fn valid(self) -> bool {
        ascending(self.entries@)
    }

    /// No entries.
    pub fn new() -> (r: BlockAssignments)
        ensures
            r.valid(),
            r@ == Map::<H256, Approval>::empty(),
    {
        BlockAssignments { entries: Vec::new() }
    }

    /// The entries that come of inserting pairs one after the other: of two entries for one block,
    /// the later one counts.
    pub fn collect(pairs: Vec<(H256, ApprovalEntry)>) -> (r: BlockAssignments)
        ensures
            r.valid(),
            r@ == collected(pairs_of(pairs@)),
    {
        let ghost all = pairs_of(pairs@);
        let mut r = BlockAssignments::new();
        for pair in iter: pairs
            invariant
                iter.seq() == pairs@,
                all == pairs_of(pairs@),
                r.valid(),
                r@ == collected(all.take(iter.index())),
        {
            let ghost so_far = all.take(iter.index() + 1);
            assert(so_far.drop_last() =~= all.take(iter.index()));
            r.insert(pair.0, pair.1);
        }
        assert(all.take(all.len() as int) =~= all);
        r
    }

    /// The number of blocks that there is an entry for.
    pub fn len(&self) -> (r: usize)
        requires
            self.valid(),
        ensures
            self@.dom().finite(),
            r == self@.len(),
    {
        proof {
            lemma_pairs_ascending(self.entries@);
            lemma_collected_len(pairs_of(self.entries@));
        }
        self.entries.len()
    }

    /// Whether there is no entry at all.
    pub fn is_empty(&self) -> (r: bool)
        requires
            self.valid(),
        ensures
            r == (self@ == Map::<H256, Approval>::empty()),
    {
        let r = self.entries.len() == 0;
        proof {
            if !r {
                lemma_pairs_ascending(self.entries@);
                lemma_collected_at(pairs_of(self.entries@), 0);
                assert(self@.contains_key(self.entries@[0].0));
            }
        }
        r
    }

    /// The entry for a block, if there is one.
    pub fn get(&self, block_hash: &H256) -> (r: Option<&ApprovalEntry>)
        requires
            self.valid(),
        ensures
            match r {
                Some(entry) => self@.contains_key(*block_hash) && self@[*block_hash] == entry@,
                None => !self@.contains_key(*block_hash),
            },
    {
        let ghost pairs = pairs_of(self.entries@);
        proof {
            lemma_pairs_ascending(self.entries@);
        }
        let mut i: usize = 0;
        while i < self.entries.len()
            invariant
                pairs == pairs_of(self.entries@),
                ascending(pairs),
                i <= self.entries.len(),
                forall|j: int| 0 <= j < i ==> (#[trigger] pairs[j]).0 != *block_hash,
            decreases self.entries.len() - i,
        {
            if hash_eq(&self.entries[i].0, block_hash) {
                proof {
                    lemma_collected_at(pairs, i as int);
                }
                return Some(&self.entries[i].1);
            }
            i = i + 1;
        }
        proof {
            lemma_collected_keys(pairs, *block_hash);
        }
        None
    }

    /// Take out the entry for a block.
    pub fn remove(&mut self, block_hash: &H256)
        requires
            old(self).valid(),
        ensures
            final(self).valid(),
            final(self)@ == old(self)@.remove(*block_hash),
    {
        let ghost before = self.entries@;
        let ghost pairs = pairs_of(before);
        let mut i: usize = 0;
        while i < self.entries.len()
            invariant
                ascending(before),
                before == old(self).entries@,
                pairs == pairs_of(before),
                self.entries@ == before,
                i <= self.entries.len(),
                forall|j: int| 0 <= j < i ==> (#[trigger] pairs[j]).0 != *block_hash,
            decreases self.entries.len() - i,
        {
            if hash_eq(&self.entries[i].0, block_hash) {
                let _removed = self.entries.remove(i);
                proof {
                    lemma_pairs_ascending(before);
                    lemma_removed(pairs, i as int);
                    assert(pairs_of(self.entries@) =~= pairs.remove(i as int));
                    lemma_pairs_ascending(self.entries@);
                }
                return;
            }
            i = i + 1;
        }
        proof {
            lemma_collected_keys(pairs, *block_hash);
            assert(self@ =~= collected(pairs).remove(*block_hash));
        }
    }

    /// Set the entry for a block.
    pub fn insert(&mut self, block_hash: H256, entry: ApprovalEntry)
        requires
            old(self).valid(),
        ensures
            final(self).valid(),
            final(self)@ == old(self)@.insert(block_hash, entry@),
    {
        self.remove(&block_hash);
        let ghost before = self.entries@;
        let ghost pairs = pairs_of(before);
        let mut i: usize = 0;
        while i < self.entries.len() && hash_less(&self.entries[i].0, &block_hash)
            invariant
                self.entries@ == before,
                pairs == pairs_of(before),
                i <= self.entries.len(),
                forall|j: int| 0 <= j < i ==> hash_before((#[trigger] pairs[j]).0, block_hash),
            decreases self.entries.len() - i,
        {
            i = i + 1;
        }
        proof {
            lemma_pairs_ascending(before);
            lemma_collected_keys(pairs, block_hash);
            lemma_inserted(pairs, i as int, block_hash, entry@);
        }
        self.entries.insert(i, (block_hash, entry));
        proof {
            assert(pairs_of(self.entries@) =~= pairs.insert(i as int, (block_hash, entry@)));
            lemma_pairs_ascending(self.entries@);
            assert(self@ =~= old(self)@.insert(block_hash, entry@));
        }
    }
}

} // verus!
