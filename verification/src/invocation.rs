//! One unit of dispatched work: its sequence number, the references it
//! defines, its outcome, and the invocations that depend on it. An outcome
//! moves from absent to success or failure, and from success to failure; a
//! failure is never displaced.

use vstd::prelude::*;

verus! {

/// Opaque handle naming a piece of data produced by exactly one current
/// invocation at any moment.
#[derive(Clone, Copy, PartialEq, Eq, Structural, Debug, Hash)]
pub struct Ref {
    pub id: u64,
}

/// Opaque payload of a successful result. The engine never interprets it.
#[derive(Debug)]
pub struct Value {
    pub payload: String,
}

impl Clone for Value {
    fn clone(&self) -> (r: Self)
        ensures
            r == *self,
    {
        Value { payload: self.payload.clone() }
    }
}

/// Opaque payload of a worker failure: a backtrace and the reporting worker.
#[derive(Debug)]
pub struct WorkerError {
    pub backtrace: String,
    pub worker_actor_id: String,
}

impl Clone for WorkerError {
    fn clone(&self) -> (r: Self)
        ensures
            r == *self,
    {
        WorkerError { backtrace: self.backtrace.clone(), worker_actor_id: self.worker_actor_id.clone() }
    }
}

/// A failure cause: the invocation it is recorded on, the invocation that
/// caused it, and the worker error payload.
#[derive(Debug)]
pub struct Exception {
    pub origin_seq: u64,
    pub cause_seq: u64,
    pub error: WorkerError,
}

impl Clone for Exception {
    fn clone(&self) -> (r: Self)
        ensures
            r == *self,
    {
        Exception { origin_seq: self.origin_seq, cause_seq: self.cause_seq, error: self.error.clone() }
    }
}

/// The recorded outcome of an invocation: absent, successful, or failed.
pub type Outcome = Option<Result<Value, Exception>>;

pub open spec fn is_failed(o: Outcome) -> bool {
    o matches Some(Err(_))
}

/// How an outcome changes when a successful value arrives: only an absent
/// outcome is filled in.
pub open spec fn outcome_after_value(o: Outcome, v: Value) -> Outcome {
    if o is None {
        Some(Ok(v))
    } else {
        o
    }
}

/// How an outcome changes when a failure arrives: a failure overwrites an
/// absent or successful outcome and rewrites the cause to carry the owning
/// invocation's own sequence number; an earlier failure stands.
pub open spec fn outcome_after_exception(o: Outcome, own_seq: u64, e: Exception) -> Outcome {
    match o {
        Some(Err(prev)) => Some(Err(prev)),
        _ => Some(
            Err(Exception { origin_seq: own_seq, cause_seq: e.cause_seq, error: e.error }),
        ),
    }
}

/// Failure dominates: whatever order a success value and an exception arrive
/// in for the same invocation, the outcome that stands is the failure, and it
/// is the same failure either way.
pub proof fn lemma_failure_wins(o: Outcome, own_seq: u64, v: Value, e: Exception)
    ensures
        outcome_after_exception(outcome_after_value(o, v), own_seq, e) == outcome_after_exception(
            o,
            own_seq,
            e,
        ),
        outcome_after_value(outcome_after_exception(o, own_seq, e), v) == outcome_after_exception(
            o,
            own_seq,
            e,
        ),
        is_failed(outcome_after_exception(o, own_seq, e)),
{
}

/// An owned copy of an outcome, equal to the original.
pub fn clone_outcome(o: &Outcome) -> (r: Outcome)
    ensures
        r == *o,
{
    match o {
        None => None,
        Some(Ok(v)) => Some(Ok(v.clone())),
        Some(Err(e)) => Some(Err(e.clone())),
    }
}

/// One node in the graph of operations executed by the workers: tracks the
/// dependencies of an operation and carries failures forward.
#[derive(Debug)]
pub struct Invocation {
    /// The sequence number of the invocation, unique and increasing across
    /// all invocations.
    pub seq: u64,
    /// The references this invocation defines or redefines: its output.
    pub defs: Vec<Ref>,
    /// The outcome, set on completion or when a failure is inferred. A
    /// failure always supersedes a success.
    pub result: Outcome,
    /// The sequence numbers of invocations that depend on this one, used to
    /// propagate failures. Holds no duplicates.
    pub users: Vec<u64>,
}

impl Invocation {
    pub fn new(seq: u64, defs: Vec<Ref>) -> (r: Self)
        ensures
            r.seq == seq,
            r.defs == defs,
            r.result is None,
            r.users@ == Seq::<u64>::empty(),
    {
        Invocation { seq, defs, result: None, users: Vec::new() }
    }

    /// Record that invocation `user` depends on this one.
    pub fn add_user(&mut self, user: u64)
        ensures
            final(self).seq == old(self).seq,
            final(self).defs == old(self).defs,
            final(self).result == old(self).result,
            final(self).users@ == (if old(self).users@.contains(user) {
                old(self).users@
            } else {
                old(self).users@.push(user)
            }),
    {
        let mut i: usize = 0;
        while i < self.users.len()
            invariant
                i <= self.users@.len(),
                forall|j: int| 0 <= j < i ==> self.users@[j] != user,
                *self == *old(self),
            decreases self.users@.len() - i,
        {
            if self.users[i] == user {
                return ;
            }
            i = i + 1;
        }
        assert(!self.users@.contains(user));
        self.users.push(user);
    }

    /// A value only fills an absent outcome.
    pub fn set_result(&mut self, result: Value)
        ensures
            final(self).seq == old(self).seq,
            final(self).defs == old(self).defs,
            final(self).users == old(self).users,
            final(self).result == outcome_after_value(old(self).result, result),
    {
        if self.result.is_none() {
            self.result = Some(Ok(result));
        }
    }

    /// A failure overwrites an absent or successful outcome, rewritten so the
    /// recorded cause names this invocation's own sequence number; an earlier
    /// failure stands.
    pub fn set_exception(&mut self, exception: &Exception)
        ensures
            final(self).seq == old(self).seq,
            final(self).defs == old(self).defs,
            final(self).users == old(self).users,
            final(self).result == outcome_after_exception(
                old(self).result,
                old(self).seq,
                *exception,
            ),
    {
        match &self.result {
            Some(Err(_)) => {},
            _ => {
                self.result = Some(
                    Err(
                        Exception {
                            origin_seq: self.seq,
                            cause_seq: exception.cause_seq,
                            error: exception.error.clone(),
                        },
                    ),
                );
            },
        }
    }

    /// The failure recorded for this invocation, if any.
    pub fn exception(&self) -> (r: Option<&Exception>)
        ensures
            r is Some <==> is_failed(self.result),
            r matches Some(e) ==> self.result == Some(Err::<Value, Exception>(*e)),
    {
        match &self.result {
            Some(Err(e)) => Some(e),
            _ => None,
        }
    }

    /// The successful value recorded for this invocation, if any.
    pub fn value(&self) -> (r: Option<&Value>)
        ensures
            r is Some <==> self.result matches Some(Ok(_)),
            r matches Some(v) ==> self.result == Some(Ok::<Value, Exception>(*v)),
    {
        match &self.result {
            Some(Ok(v)) => Some(v),
            _ => None,
        }
    }
}

} // verus!
