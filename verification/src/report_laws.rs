//! What cannot be decoded is reported.
use crate::clear::{clear_plan, clearing_batch, look_at_heights, look_at_listed, Found};
use crate::keys::{block_key, candidate_key, height_key, keys_differ, range_key};
use crate::operation::{ask, done, fail, follow, Query, Traced};
use crate::pruning::{
    branches, canonicalize_plan, conclude, cut_branches, descend, known, release, strike, sweep,
    visit, visit_listed, Pruned, Target,
};
use crate::sequences::{lemma_contains_concat, lemma_contains_more};
use crate::store::{after_end, block_of, candidate_of, list_of, range_of, Db, Failure};
use crate::store_laws::{undecodable, undecodable_is_a_storage_error};
use crate::types::{BlockNumber, CandidateHash, CoreIndex, H256};
use vstd::prelude::*;

verus! {

/// A computation ends in a storage error.
spec fn ends_in_storage_error<T>(t: Traced<T>) -> bool {
    t.result matches Err(e) && e is Storage
}

/// A computation ends in a storage error if it asks for a value that cannot be decoded.
spec fn reports<T>(db: Db, t: Traced<T>) -> bool {
    forall|key: Seq<u8>| #[trigger]
        t.queries.contains(Query::Value(key)) && undecodable(db, key) ==> ends_in_storage_error(t)
}

proof fn lemma_reports_ask<T>(db: Db, key: Seq<u8>, rest: Traced<T>)
    requires
        undecodable(db, key) ==> ends_in_storage_error(rest),
        reports(db, rest),
    ensures
        reports(db, ask(key, rest)),
{
    assert forall|k: Seq<u8>| #[trigger]
        ask(key, rest).queries.contains(Query::Value(k)) && undecodable(
            db,
            k,
        ) implies ends_in_storage_error(ask(key, rest)) by {
        lemma_contains_more(Query::Value(key), rest.queries, Query::Value(k));
    }
}

proof fn lemma_reports_follow<T, U>(db: Db, first: Traced<T>, rest: Traced<U>)
    requires
        reports(db, first),
        first.result is Ok ==> reports(db, rest),
    ensures
        reports(db, follow(first, rest)),
{
    let whole = follow(first, rest);
    assert forall|k: Seq<u8>| #[trigger]
        whole.queries.contains(Query::Value(k)) && undecodable(
            db,
            k,
        ) implies ends_in_storage_error(whole) by {
        lemma_contains_concat(first.queries, rest.queries, Query::Value(k));
    }
}

/// Which values cannot be decoded, by what they are of.
proof fn lemma_undecodable(db: Db, h: BlockNumber, b: H256, c: CandidateHash)
    ensures
        undecodable(db, range_key()) == (range_of(db) is Err),
        undecodable(db, height_key(h)) == (list_of(db, h) is Err),
        undecodable(db, block_key(b)) == (block_of(db, b) is Err),
        undecodable(db, candidate_key(c)) == (candidate_of(db, c) is Err),
        range_of(db) matches Err(e) ==> e is Storage,
        list_of(db, h) matches Err(e) ==> e is Storage,
        block_of(db, b) matches Err(e) ==> e is Storage,
        candidate_of(db, c) matches Err(e) ==> e is Storage,
{
    keys_differ();
    undecodable_is_a_storage_error(db, h, b, c);
}

proof fn lemma_reports_release(
    db: Db,
    b: H256,
    candidates: Seq<(CoreIndex, CandidateHash)>,
    p: Pruned,
)
    ensures
        reports(db, release(db, b, candidates, p)),
    decreases candidates.len(),
{
    if candidates.len() > 0 {
        let c = candidates[0].1;
        let rest = candidates.skip(1);
        if known(p.candidates, c) {
            lemma_reports_release(db, b, rest, p.release_again(c, b));
        } else {
            lemma_undecodable(db, 0, b, c);
            let then_on = match candidate_of(db, c) {
                Err(e) => fail(e),
                Ok(None) => release(db, b, rest, p),
                Ok(Some(entry)) => release(db, b, rest, p.release_new(c, entry, b)),
            };
            match candidate_of(db, c) {
                Err(e) => {},
                Ok(None) => lemma_reports_release(db, b, rest, p),
                Ok(Some(entry)) => lemma_reports_release(db, b, rest, p.release_new(c, entry, b)),
            }
            lemma_reports_ask(db, candidate_key(c), then_on);
        }
    }
}

proof fn lemma_reports_visit(db: Db, b: H256, p: Pruned)
    ensures
        reports(db, visit(db, b, p)),
{
    reveal(visit);
    lemma_undecodable(db, 0, b, b);
    match block_of(db, b) {
        Err(e) => lemma_reports_ask(db, block_key(b), fail::<(Pruned, Seq<H256>)>(e)),
        Ok(None) => lemma_reports_ask(db, block_key(b), done((p, Seq::<H256>::empty()))),
        Ok(Some(entry)) => {
            let r = release(db, b, entry.candidates, p.drop_block(b));
            let end = done((r.value(), entry.children));
            lemma_reports_release(db, b, entry.candidates, p.drop_block(b));
            lemma_reports_follow(db, r, end);
            lemma_reports_ask(db, block_key(b), follow(r, end));
        },
    }
}

proof fn lemma_reports_listed(
    db: Db,
    target: Target,
    height: BlockNumber,
    list: Seq<H256>,
    p: Pruned,
    left: Seq<H256>,
)
    ensures
        reports(db, visit_listed(db, target, height, list, p, left)),
    decreases list.len(),
{
    if list.len() > 0 {
        let v = visit(db, list[0], p);
        let left2 = left + branches(target, height, list[0], v.value().1);
        lemma_reports_visit(db, list[0], p);
        lemma_reports_listed(db, target, height, list.skip(1), v.value().0, left2);
        lemma_reports_follow(
            db,
            v,
            visit_listed(db, target, height, list.skip(1), v.value().0, left2),
        );
    }
}

proof fn lemma_reports_sweep(db: Db, target: Target, height: BlockNumber, p: Pruned)
    ensures
        reports(db, sweep(db, target, height, p)),
    decreases target.number - height,
{
    lemma_undecodable(db, height, target.hash, target.hash);
    match list_of(db, height) {
        Err(e) => lemma_reports_ask(db, height_key(height), fail::<(Pruned, Seq<H256>)>(e)),
        Ok(list) => {
            let p1 = p.clear_height(height);
            let v = visit_listed(db, target, height, list, p1, Seq::empty());
            lemma_reports_listed(db, target, height, list, p1, Seq::empty());
            if height >= target.number {
                lemma_reports_ask(db, height_key(height), v);
            } else {
                let next = (height + 1) as BlockNumber;
                let rest = sweep(db, target, next, v.value().0);
                lemma_reports_sweep(db, target, next, v.value().0);
                lemma_reports_follow(db, v, rest);
                lemma_reports_ask(db, height_key(height), follow(v, rest));
            }
        },
    }
}

proof fn lemma_reports_strike(db: Db, h: BlockNumber, b: H256, p: Pruned)
    ensures
        reports(db, strike(db, h, b, p)),
{
    reveal(strike);
    lemma_undecodable(db, h, b, b);
    if !known(p.lists, h) {
        match list_of(db, h) {
            Err(e) => lemma_reports_ask(db, height_key(h), fail::<Pruned>(e)),
            Ok(list) => lemma_reports_ask(db, height_key(h), done(p.strike_new(h, list, b))),
        }
    }
}

proof fn lemma_reports_descend(db: Db, h: BlockNumber, blocks: Seq<H256>, p: Pruned)
    ensures
        reports(db, descend(db, h, blocks, p)),
    decreases u32::MAX - h, blocks.len(),
{
    if blocks.len() > 0 {
        let last = blocks.last();
        let v = visit(db, last, p);
        let children = v.value().1;
        lemma_reports_visit(db, last, p);
        if children.len() > 0 && h == u32::MAX {
            lemma_reports_follow(db, v, fail::<Pruned>(Failure::Overflow));
        } else {
            let s = strike(db, h, last, v.value().0);
            lemma_reports_strike(db, h, last, v.value().0);
            let d = if children.len() > 0 {
                descend(db, (h + 1) as BlockNumber, children, s.value())
            } else {
                done(s.value())
            };
            if children.len() > 0 {
                lemma_reports_descend(db, (h + 1) as BlockNumber, children, s.value());
            }
            let rest = descend(db, h, blocks.drop_last(), d.value());
            lemma_reports_descend(db, h, blocks.drop_last(), d.value());
            lemma_reports_follow(db, d, rest);
            lemma_reports_follow(db, s, follow(d, rest));
            lemma_reports_follow(db, v, follow(s, follow(d, rest)));
        }
    }
}

proof fn lemma_reports_branches(db: Db, target: Target, p: Pruned, left: Seq<H256>)
    ensures
        reports(db, cut_branches(db, target, p, left)),
{
    reveal(conclude);
    if left.len() > 0 && target.number < u32::MAX {
        let above = (target.number + 1) as BlockNumber;
        let d = descend(db, above, left, p);
        lemma_reports_descend(db, above, left, p);
        lemma_reports_follow(db, d, conclude(target, d.value()));
    }
}

/// A value that a canonicalization asks for, and that cannot be decoded, ends it in a storage
/// error, and nothing is written.
pub proof fn canonicalizing_reports_what_it_cannot_decode(
    db: Db,
    number: BlockNumber,
    hash: H256,
    key: Seq<u8>,
)
    requires
        canonicalize_plan(db, number, hash).queries.contains(Query::Value(key)),
        undecodable(db, key),
    ensures
        canonicalize_plan(db, number, hash).result matches Err(e) && e is Storage,
        after_end(db, canonicalize_plan(db, number, hash).result) == db,
{
    lemma_undecodable(db, number, hash, hash);
    match range_of(db) {
        Ok(Some(range)) if range.0 <= number => {
            let target = Target { number, hash, top: range.1 };
            let s = sweep(db, target, range.0, Pruned::nothing());
            let rest = cut_branches(db, target, s.value().0, s.value().1);
            lemma_reports_sweep(db, target, range.0, Pruned::nothing());
            lemma_reports_branches(db, target, s.value().0, s.value().1);
            lemma_reports_follow(db, s, rest);
            lemma_reports_ask(db, range_key(), follow(s, rest));
        },
        Ok(_) => {
            lemma_contains_more(Query::Value(range_key()), Seq::empty(), Query::Value(key));
        },
        Err(_) => {},
    }
}

proof fn lemma_reports_look_at_listed(db: Db, list: Seq<H256>, f: Found)
    ensures
        reports(db, look_at_listed(db, list, f)),
    decreases list.len(),
{
    if list.len() > 0 {
        let b = list[0];
        lemma_undecodable(db, 0, b, b);
        match block_of(db, b) {
            Err(e) => lemma_reports_ask(db, block_key(b), fail::<Found>(e)),
            Ok(None) => {
                lemma_reports_look_at_listed(db, list.skip(1), f);
                lemma_reports_ask(db, block_key(b), look_at_listed(db, list.skip(1), f));
            },
            Ok(Some(entry)) => {
                let g = f.block(b, entry.candidates);
                lemma_reports_look_at_listed(db, list.skip(1), g);
                lemma_reports_ask(db, block_key(b), look_at_listed(db, list.skip(1), g));
            },
        }
    }
}

proof fn lemma_reports_look_at_heights(db: Db, height: BlockNumber, top: BlockNumber, f: Found)
    ensures
        reports(db, look_at_heights(db, height, top, f)),
    decreases top - height,
{
    if height < top {
        lemma_undecodable(db, height, arbitrary(), arbitrary());
        match list_of(db, height) {
            Err(e) => lemma_reports_ask(db, height_key(height), fail::<Found>(e)),
            Ok(list) => {
                let v = look_at_listed(db, list, f.height(height));
                let next = (height + 1) as BlockNumber;
                let rest = look_at_heights(db, next, top, v.value());
                lemma_reports_look_at_listed(db, list, f.height(height));
                lemma_reports_look_at_heights(db, next, top, v.value());
                lemma_reports_follow(db, v, rest);
                lemma_reports_ask(db, height_key(height), follow(v, rest));
            },
        }
    }
}

/// A value that a clearing asks for, and that cannot be decoded, ends it in a storage error, and
/// nothing is written.
pub proof fn clearing_reports_what_it_cannot_decode(db: Db, key: Seq<u8>)
    requires
        clear_plan(db).queries.contains(Query::Value(key)),
        undecodable(db, key),
    ensures
        clear_plan(db).result matches Err(e) && e is Storage,
        after_end(db, clear_plan(db).result) == db,
{
    lemma_undecodable(db, 0, arbitrary(), arbitrary());
    match range_of(db) {
        Ok(Some(range)) => {
            let v = look_at_heights(db, range.0, range.1, Found::nothing());
            let end = done(Some(clearing_batch(v.value())));
            lemma_reports_look_at_heights(db, range.0, range.1, Found::nothing());
            lemma_reports_follow(db, v, end);
            lemma_reports_ask(db, range_key(), follow(v, end));
        },
        Ok(None) => {
            lemma_contains_more(Query::Value(range_key()), Seq::empty(), Query::Value(key));
        },
        Err(_) => {},
    }
}

} // verus!
