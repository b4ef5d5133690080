//! Comparing hashes, and looking for one in a list.
use crate::types::H256;
use vstd::prelude::*;

verus! {

/// `a` comes before `b` in lexicographic order: at the first place where they differ, `a` holds
/// the smaller byte.
pub open spec fn hash_before(a: H256, b: H256) -> bool {
    exists|k: int| first_difference(a, b, k) && a[k] < b[k]
}

/// `a` and `b` differ at place `k` and agree on every place before it.
pub open spec fn first_difference(a: H256, b: H256, k: int) -> bool {
    &&& 0 <= k < 32
    &&& a[k] != b[k]
    &&& forall|j: int| 0 <= j < k ==> a[j] == b[j]
}

/// No hash comes before itself.
pub(crate) proof fn lemma_before_irreflexive(a: H256, b: H256)
    requires
        hash_before(a, b),
    ensures
        a != b,
        !hash_before(b, a),
{
    let k = choose|k: int| first_difference(a, b, k) && a[k] < b[k];
    assert(a[k] != b[k]);
    if hash_before(b, a) {
        let l = choose|l: int| first_difference(b, a, l) && b[l] < a[l];
        assert(k == l);
    }
}

/// The order of hashes is transitive.
pub(crate) proof fn lemma_before_transitive(a: H256, b: H256, c: H256)
    requires
        hash_before(a, b),
        hash_before(b, c),
    ensures
        hash_before(a, c),
{
    let k = choose|k: int| first_difference(a, b, k) && a[k] < b[k];
    let l = choose|l: int| first_difference(b, c, l) && b[l] < c[l];
    let m = if k < l {
        k
    } else {
        l
    };
    assert(first_difference(a, c, m) && a[m] < c[m]);
}

/// Whether two hashes are the same.
pub fn hash_eq(a: &H256, b: &H256) -> (r: bool)
    ensures
        r == (*a == *b),
{
    let mut i: usize = 0;
    while i < 32
        invariant
            i <= 32,
            forall|j: int| 0 <= j < i ==> a[j] == b[j],
        decreases 32 - i,
    {
        if a[i] != b[i] {
            return false;
        }
        i = i + 1;
    }
    assert(*a =~= *b);
    true
}

/// Whether one hash comes before another.
pub fn hash_less(a: &H256, b: &H256) -> (r: bool)
    ensures
        r == hash_before(*a, *b),
{
    let mut i: usize = 0;
    while i < 32
        invariant
            i <= 32,
            forall|j: int| 0 <= j < i ==> a[j] == b[j],
        decreases 32 - i,
    {
        if a[i] != b[i] {
            assert(first_difference(*a, *b, i as int));
            return a[i] < b[i];
        }
        i = i + 1;
    }
    false
}

/// Two hashes are the same, or one of them comes before the other.
pub(crate) proof fn lemma_before_total(a: H256, b: H256)
    ensures
        a == b || hash_before(a, b) || hash_before(b, a),
{
    if a != b {
        assert(!(a =~= b));
        let j = choose|j: int| 0 <= j < 32 && a[j] != b[j];
        let k = lemma_first_difference(a, b, j);
        if a[k] < b[k] {
        } else {
            assert(first_difference(b, a, k));
        }
    }
}

proof fn lemma_first_difference(a: H256, b: H256, j: int) -> (k: int)
    requires
        0 <= j < 32,
        a[j] != b[j],
    ensures
        first_difference(a, b, k),
    decreases j,
{
    if exists|i: int| 0 <= i < j && a[i] != b[i] {
        let i = choose|i: int| 0 <= i < j && a[i] != b[i];
        lemma_first_difference(a, b, i)
    } else {
        j
    }
}

/// Where a hash first occurs in a list.
pub fn find_hash(list: &Vec<H256>, hash: &H256) -> (r: Option<usize>)
    ensures
        match r {
            Some(i) => {
                &&& i < list.len()
                &&& list@[i as int] == *hash
                &&& forall|j: int| 0 <= j < i ==> list@[j] != *hash
            },
            None => !list@.contains(*hash),
        },
{
    let mut i: usize = 0;
    while i < list.len()
        invariant
            i <= list.len(),
            forall|j: int| 0 <= j < i ==> list@[j] != *hash,
        decreases list.len() - i,
    {
        if hash_eq(&list[i], hash) {
            return Some(i);
        }
        i = i + 1;
    }
    None
}

/// A list without the first occurrence of a hash.
pub open spec fn remove_first(list: Seq<H256>, hash: H256) -> Seq<H256>
    decreases list.len(),
{
    if list.len() == 0 {
        list
    } else if list[0] == hash {
        list.skip(1)
    } else {
        seq![list[0]] + remove_first(list.skip(1), hash)
    }
}

/// A list gets no longer by taking a hash out.
pub(crate) proof fn lemma_remove_first_len(list: Seq<H256>, hash: H256)
    ensures
        remove_first(list, hash).len() <= list.len(),
    decreases list.len(),
{
    if list.len() > 0 {
        lemma_remove_first_len(list.skip(1), hash);
    }
}

/// Removing the first occurrence by its place.
pub(crate) proof fn lemma_remove_first_at(list: Seq<H256>, hash: H256, i: int)
    requires
        0 <= i < list.len(),
        list[i] == hash,
        forall|j: int| 0 <= j < i ==> list[j] != hash,
    ensures
        remove_first(list, hash) == list.remove(i),
    decreases list.len(),
{
    if i == 0 {
        assert(list.skip(1) =~= list.remove(0));
    } else {
        lemma_remove_first_at(list.skip(1), hash, i - 1);
        assert(seq![list[0]] + list.skip(1).remove(i - 1) =~= list.remove(i));
    }
}

/// A list that lacks a hash is left as it is.
pub(crate) proof fn lemma_remove_first_absent(list: Seq<H256>, hash: H256)
    requires
        !list.contains(hash),
    ensures
        remove_first(list, hash) == list,
    decreases list.len(),
{
    if list.len() > 0 {
        assert(list[0] != hash);
        assert forall|i: int| 0 <= i < list.skip(1).len() implies list.skip(1)[i] != hash by {
            assert(list[i + 1] != hash);
        }
        lemma_remove_first_absent(list.skip(1), hash);
        assert(seq![list[0]] + list.skip(1) =~= list);
    }
}

/// Taking a hash off a list takes off the first place that holds it, and no other. A list that does
/// not hold it stays as it is.
pub proof fn one_place_is_taken_off(list: Seq<H256>, hash: H256, i: int)
    ensures
        !list.contains(hash) ==> remove_first(list, hash) == list,
        0 <= i < list.len() && list[i] == hash && (forall|j: int| 0 <= j < i ==> list[j] != hash)
            ==> {
            &&& remove_first(list, hash).len() == list.len() - 1
            &&& forall|j: int| 0 <= j < i ==> #[trigger] remove_first(list, hash)[j] == list[j]
            &&& forall|j: int|
                i <= j < list.len() - 1 ==> #[trigger] remove_first(list, hash)[j] == list[j + 1]
        },
{
    if !list.contains(hash) {
        lemma_remove_first_absent(list, hash);
    }
    if 0 <= i < list.len() && list[i] == hash && (forall|j: int| 0 <= j < i ==> list[j] != hash) {
        lemma_remove_first_at(list, hash, i);
    }
}

} // verus!
