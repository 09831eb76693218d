//! The synchronous condition predicate.
//!
//! A condition leaf continuously evaluates a predicate over an observed
//! value. The process that subscribes to the value and emits status flips is
//! asynchronous and lives outside this crate; what it evaluates can be a
//! plain closure wrapped here, carrying a diagnostic name.

use vstd::prelude::*;

use crate::status::Status;

verus! {

/// The status a watching condition must newly report after observing a
/// change, if any: a condition that stood at `Failure` and now evaluates
/// true flips to `Success`, one that stood at `Success` and now evaluates
/// false flips to `Failure`. A repeated truth value, an idle condition and
/// the impossible `Running` state report nothing.
pub open spec fn spec_flip(
    status: Status,
    prev_evaluation: bool,
    evaluation: bool,
) -> Option<Status> {
    match status {
        Status::Failure => if !prev_evaluation && evaluation {
            Some(Status::Success)
        } else {
            None
        },
        Status::Success => if prev_evaluation && !evaluation {
            Some(Status::Failure)
        } else {
            None
        },
        Status::Running => None,
        Status::Idle => None,
    }
}

/// The flip a newly observed evaluation causes, if any.
pub fn flip_decision(
    status: Status,
    prev_evaluation: bool,
    evaluation: bool,
) -> (r: Option<Status>)
    ensures
        r == spec_flip(status, prev_evaluation, evaluation),
{
    match status {
        Status::Failure => if !prev_evaluation && evaluation {
            Some(Status::Success)
        } else {
            None
        },
        Status::Success => if prev_evaluation && !evaluation {
            Some(Status::Failure)
        } else {
            None
        },
        Status::Running => None,
        Status::Idle => None,
    }
}

/// A named predicate over an observed value, built from a closure.
pub struct ClosureEvaluator<V, F> where F: Fn(V) -> bool {
    pub name: String,
    pub function: F,
    pub phantom: core::marker::PhantomData<V>,
}

impl<V, F> Clone for ClosureEvaluator<V, F> where F: Fn(V) -> bool + Clone {
    /// A copy under the same name, around a clone of the closure.
    fn clone(&self) -> (res: Self)
        ensures
            res.name@ == self.name@,
    {
        ClosureEvaluator {
            name: self.name.clone(),
            function: self.function.clone(),
            phantom: core::marker::PhantomData,
        }
    }
}

impl<V, F> ClosureEvaluator<V, F> where F: Fn(V) -> bool {
    /// Wraps the closure under the given name.
    pub fn new(name: String, function: F) -> (r: ClosureEvaluator<V, F>)
        ensures
            r.name == name,
            r.function == function,
    {
        ClosureEvaluator { name, function, phantom: core::marker::PhantomData }
    }

    /// The diagnostic name of the predicate.
    pub fn get_name(&self) -> (r: String)
        ensures
            r@ == self.name@,
    {
        self.name.clone()
    }
}

} // verus!
