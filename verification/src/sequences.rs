//! What sequences hold.
use vstd::prelude::*;

verus! {

/// A sequence holds its first item, and what the rest holds.
pub(crate) proof fn lemma_contains_first<T>(s: Seq<T>, x: T)
    requires
        s.len() > 0,
    ensures
        s.contains(x) == (x == s[0] || s.skip(1).contains(x)),
{
    if s.contains(x) {
        let i = choose|i: int| 0 <= i < s.len() && s[i] == x;
        if i > 0 {
            assert(s.skip(1)[i - 1] == x);
        }
    }
    if s.skip(1).contains(x) {
        let i = choose|i: int| 0 <= i < s.skip(1).len() && s.skip(1)[i] == x;
        assert(s[i + 1] == x);
    }
    assert(s.contains(s[0]));
}

/// A longer sequence holds the new item, and what it held before.
pub(crate) proof fn lemma_contains_push<T>(s: Seq<T>, y: T, x: T)
    ensures
        s.push(y).contains(x) == (x == y || s.contains(x)),
{
    let t = s.push(y);
    if s.contains(x) {
        let i = choose|i: int| 0 <= i < s.len() && s[i] == x;
        assert(t[i] == x);
    }
    if t.contains(x) {
        let i = choose|i: int| 0 <= i < t.len() && t[i] == x;
        if i < s.len() {
            assert(s[i] == x);
        }
    }
    assert(t[s.len() as int] == y);
}

/// Two sequences together hold what either holds.
pub(crate) proof fn lemma_contains_concat<T>(s: Seq<T>, t: Seq<T>, x: T)
    ensures
        (s + t).contains(x) == (s.contains(x) || t.contains(x)),
{
    let u = s + t;
    if s.contains(x) {
        let i = choose|i: int| 0 <= i < s.len() && s[i] == x;
        assert(u[i] == x);
    }
    if t.contains(x) {
        let i = choose|i: int| 0 <= i < t.len() && t[i] == x;
        assert(u[s.len() + i] == x);
    }
    if u.contains(x) {
        let i = choose|i: int| 0 <= i < u.len() && u[i] == x;
        if i < s.len() {
            assert(s[i] == x);
        } else {
            assert(t[i - s.len()] == x);
        }
    }
}

/// A sequence with one more item in front holds that item, and what it held before.
pub(crate) proof fn lemma_contains_more<T>(x: T, s: Seq<T>, y: T)
    ensures
        (seq![x] + s).contains(y) == (y == x || s.contains(y)),
{
    lemma_contains_concat(seq![x], s, y);
    let one = seq![x];
    assert(one[0] == x);
    if one.contains(y) {
        let i = choose|i: int| 0 <= i < one.len() && one[i] == y;
        assert(i == 0);
    }
}

} // verus!
