//! Operations that take turns with the store.
use crate::store::{lookup, reply_view, Batch, Db, Error, Failure, WriteBatch};
use crate::types::CandidateHash;
use vstd::prelude::*;

verus! {

/// What is asked while an operation runs: the value that the store holds under a key, or what is
/// known of a candidate.
pub enum Query {
    Value(Seq<u8>),
    Info(CandidateHash),
}

/// A computation over a store: what it asks, in order, and how it ends.
#[verifier::ext_equal]
pub struct Traced<T> {
    pub queries: Seq<Query>,
    pub result: Result<T, Failure>,
}

/// What an operation does: what it asks, and the writes that it ends with. `None` stands for
/// having nothing to write.
pub type Plan = Traced<Option<Batch>>;

impl<T> Traced<T> {
    /// The value, of a computation that ends well.
    pub open spec fn value(self) -> T {
        self.result->Ok_0
    }
}

/// Ask nothing, and end with a value.
pub open spec fn done<T>(value: T) -> Traced<T> {
    Traced { queries: Seq::empty(), result: Ok(value) }
}

/// Ask nothing, and fail.
pub open spec fn fail<T>(failure: Failure) -> Traced<T> {
    Traced { queries: Seq::empty(), result: Err(failure) }
}

/// Read the value under a key, and go on.
pub open spec fn ask<T>(key: Seq<u8>, rest: Traced<T>) -> Traced<T> {
    Traced { queries: seq![Query::Value(key)] + rest.queries, result: rest.result }
}

/// Ask what is known of a candidate, and go on.
pub open spec fn ask_info<T>(candidate: CandidateHash, rest: Traced<T>) -> Traced<T> {
    Traced { queries: seq![Query::Info(candidate)] + rest.queries, result: rest.result }
}

/// Go on with `rest`, unless the first part fails.
pub open spec fn follow<T, U>(first: Traced<T>, rest: Traced<U>) -> Traced<U> {
    match first.result {
        Ok(_) => Traced { queries: first.queries + rest.queries, result: rest.result },
        Err(e) => Traced { queries: first.queries, result: Err(e) },
    }
}

/// What to do next: read the value under a key and hand it to `next`, or stop.
pub enum Step<M> {
    Get { key: Vec<u8>, next: M },
    Finish(Result<Option<WriteBatch>, Error>),
}

/// What can be said of an operation that waits for the value under a key.
pub trait Waiting: Sized {
    /// The operation is in a state that it can be in.
    spec fn valid(&self) -> bool;

    /// The key that it waits for the value of.
    spec fn awaits(&self) -> Seq<u8>;

    /// What it does over a store, the read that it waits for among it.
    spec fn plan(&self, db: Db) -> Plan;

    /// The read that it waits for comes first.
    proof fn awaits_first(&self, db: Db)
        requires
            self.valid(),
        ensures
            self.plan(db).queries.len() > 0,
            self.plan(db).queries[0] == Query::Value(self.awaits()),
    ;
}

/// An operation that waits for the value under a key.
pub trait Operation: Waiting {
    /// Go on with what the store holds under the key.
    fn resume(self, reply: Option<Vec<u8>>) -> (r: Step<Self>)
        requires
            self.valid(),
        ensures
            r.valid(),
            forall|db: Db|
                lookup(db, self.awaits()) == reply_view(reply) ==> self.plan(db) == ask(
                    self.awaits(),
                    #[trigger] r.plan(db),
                ),
    ;
}

/// What the end of an operation stands for.
pub open spec fn outcome_view(r: Result<Option<WriteBatch>, Error>) -> Result<
    Option<Batch>,
    Failure,
> {
    match r {
        Ok(Some(batch)) => Ok(Some(batch@)),
        Ok(None) => Ok(None),
        Err(e) => Err(e@),
    }
}

impl<M: Waiting> Step<M> {
    /// The operation is in a state that it can be in, and asks for what it waits for.
    pub open spec fn valid(self) -> bool {
        match self {
            Step::Get { key, next } => next.valid() && key@ == next.awaits(),
            Step::Finish(_) => true,
        }
    }

    /// What is still to be done over a store.
    pub open spec fn plan(self, db: Db) -> Plan {
        match self {
            Step::Get { key, next } => next.plan(db),
            Step::Finish(r) => Traced { queries: Seq::empty(), result: outcome_view(r) },
        }
    }
}

/// What follows a computation of two parts follows the second part.
pub(crate) proof fn lemma_follow_follow<T, U, V>(a: Traced<T>, b: Traced<U>, c: Traced<V>)
    ensures
        follow(follow(a, b), c) == follow(a, follow(b, c)),
{
    assert(follow(follow(a, b), c) =~= follow(a, follow(b, c)));
}

/// What follows a read comes after it.
pub(crate) proof fn lemma_follow_ask<T, U>(key: Seq<u8>, a: Traced<T>, b: Traced<U>)
    ensures
        follow(ask(key, a), b) == ask(key, follow(a, b)),
{
    assert(follow(ask(key, a), b) =~= ask(key, follow(a, b)));
}

/// What follows a value is all there is.
pub(crate) proof fn lemma_follow_done<T, U>(value: T, b: Traced<U>)
    ensures
        follow(done(value), b) == b,
{
    assert(follow(done(value), b) =~= b);
}

/// Why running an operation over a store fails.
#[derive(Debug, PartialEq)]
pub enum RunError<E> {
    /// The store failed to read a value.
    Store(E),
    /// The operation failed.
    Operation(Error),
}

/// Whatever is read is what the store holds.
pub open spec fn reads_from<E, F: Fn(&Vec<u8>) -> Result<Option<Vec<u8>>, E>>(
    read: F,
    db: Db,
) -> bool {
    forall|key: Vec<u8>, reply: Option<Vec<u8>>| #[trigger]
        read.ensures((&key,), Ok(reply)) ==> reply_view(reply) == lookup(db, key@)
}

/// Reading the value under a key fails with the given error.
pub open spec fn fails_to_read<E, F: Fn(&Vec<u8>) -> Result<Option<Vec<u8>>, E>>(
    read: F,
    key: Vec<u8>,
    e: E,
) -> bool {
    read.ensures((&key,), Err(e))
}

/// What running an operation came to.
pub open spec fn run_view<E>(r: Result<Option<WriteBatch>, RunError<E>>) -> Result<
    Option<Batch>,
    Failure,
>
    recommends
        !(r matches Err(RunError::Store(_))),
{
    match r {
        Ok(Some(batch)) => Ok(Some(batch@)),
        Ok(None) => Ok(None),
        Err(RunError::Operation(e)) => Err(e@),
        Err(RunError::Store(e)) => arbitrary(),
    }
}

/// Run an operation to its end over a store that does not change meanwhile. `read` reads the value
/// under a key. The writes that the operation ends with are left to be performed. A failure of the
/// store ends the run.
pub fn run<M: Operation, E, F: Fn(&Vec<u8>) -> Result<Option<Vec<u8>>, E>>(
    first: Step<M>,
    read: F,
) -> (r: Result<Option<WriteBatch>, RunError<E>>)
    requires
        first.valid(),
        forall|key: Vec<u8>| #[trigger] read.requires((&key,)),
        exists|db: Db| #[trigger] reads_from(read, db),
    ensures
        r matches Err(RunError::Store(e)) ==> exists|key: Vec<u8>|
            (#[trigger] fails_to_read(read, key, e)) && (forall|db: Db| #[trigger]
                reads_from(read, db) ==> first.plan(db).queries.contains(Query::Value(key@))),
        !(r matches Err(RunError::Store(_))) ==> forall|db: Db| #[trigger]
            reads_from(read, db) ==> first.plan(db).result == run_view(r),
        match r {
            Ok(None) => forall|db: Db| #[trigger]
                reads_from(read, db) ==> first.plan(db).result == Ok::<Option<Batch>, Failure>(
                    None,
                ),
            Ok(Some(batch)) => forall|db: Db| #[trigger]
                reads_from(read, db) ==> first.plan(db).result == Ok::<Option<Batch>, Failure>(
                    Some(batch@),
                ),
            Err(RunError::Operation(e)) => forall|db: Db| #[trigger]
                reads_from(read, db) ==> first.plan(db).result == Err::<Option<Batch>, Failure>(
                    e@,
                ),
            Err(RunError::Store(_)) => true,
        },
{
    let ghost some_db = choose|db: Db| #[trigger] reads_from(read, db);
    let ghost mut past = Seq::<Query>::empty();
    let mut step = first;
    proof {
        assert forall|db: Db| #[trigger] reads_from(read, db) implies first.plan(db).queries == past
            + step.plan(db).queries by {
            assert(first.plan(db).queries =~= past + step.plan(db).queries);
        }
    }
    loop
        invariant
            step.valid(),
            forall|key: Vec<u8>| #[trigger] read.requires((&key,)),
            reads_from(read, some_db),
            forall|db: Db| #[trigger]
                reads_from(read, db) ==> first.plan(db).result == step.plan(db).result,
            forall|db: Db| #[trigger]
                reads_from(read, db) ==> first.plan(db).queries == past + step.plan(db).queries,
        decreases step.plan(some_db).queries.len(),
    {
        match step {
            Step::Finish(Ok(outcome)) => {
                return Ok(outcome);
            },
            Step::Finish(Err(e)) => {
                return Err(RunError::Operation(e));
            },
            Step::Get { key, next } => match read(&key) {
                Err(e) => {
                    let ghost failure = e;
                    proof {
                        assert forall|db: Db| #[trigger] reads_from(read, db) implies first.plan(
                            db,
                        ).queries.contains(Query::Value(key@)) by {
                            next.awaits_first(db);
                            assert(first.plan(db).queries[past.len() as int] == Query::Value(
                                key@,
                            ));
                        }
                    }
                    assert(fails_to_read(read, key, failure));
                    let r: Result<Option<WriteBatch>, RunError<E>> = Err(RunError::Store(e));
                    assert(r->Err_0->Store_0 == failure);
                    return r;
                },
                Ok(reply) => {
                    let ghost before = next;
                    step = next.resume(reply);
                    proof {
                        let longer = past.push(Query::Value(key@));
                        assert forall|db: Db| #[trigger]
                            reads_from(read, db) implies before.plan(db) == ask(
                            key@,
                            step.plan(db),
                        ) && first.plan(db).queries == longer + step.plan(db).queries by {
                            assert(reply_view(reply) == lookup(db, key@));
                            assert(past + before.plan(db).queries =~= longer + step.plan(
                                db,
                            ).queries);
                        }
                        past = longer;
                    }
                },
            },
        }
    }
}

} // verus!
