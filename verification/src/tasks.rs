//! Joining concurrently spawned execution work.
//!
//! A driver that spawns leaf executions on a task runtime must fold each
//! join result back into the engine's error model: a task that failed for
//! any reason other than a modeled function failure is a fatal fault that
//! aborts the whole run, never a per-leaf failure value.

use vstd::prelude::*;

use crate::workflow::WorkflowError;

verus! {

#[verifier::external_type_specification]
#[verifier::external_body]
pub struct ExJoinError(tokio::task::JoinError);

/// Folds one task join result into the engine's error model: a completed
/// task hands its value through unchanged, and a task fault — the task
/// panicking or being cancelled — becomes the fatal [`WorkflowError::TaskFault`].
pub fn join_task<T>(res: Result<T, tokio::task::JoinError>) -> (r: Result<T, WorkflowError>)
    ensures
        r is Ok <==> res is Ok,
        res matches Ok(t) ==> r matches Ok(t2) && t2 == t,
        res is Err ==> r matches Err(WorkflowError::TaskFault),
{
    match res {
        Ok(t) => Ok(t),
        Err(_) => Err(WorkflowError::TaskFault),
    }
}

} // verus!
