//! The guarded entry every mutating operation goes through: take all its
//! resources or none, register the task, and after the body record the
//! outcome before giving the resources back. A refused start registers
//! nothing and holds nothing.

use vstd::prelude::*;
use crate::resources::{
    all_free, conflicts, first_busy, key_set, keys_of, lemma_release_undoes_acquire, Conflict, Held,
    Resource, ResourceLocks,
};
use crate::tasks::{
    at_id, duplicate_message, is_running, outcome_err, outcome_ok, trim_spec, upsert, with_outcome,
    TaskInfo, TaskView, Tasks,
};

verus! {

/// Why a guarded operation did not start.
#[derive(Debug)]
pub enum GuardRefusal {
    /// A requested resource is held by another operation.
    Busy(Conflict),
    /// An operation with the same id is still running.
    Duplicate(String),
}

/// Starts a guarded operation: its resources are taken atomically, then its
/// task row is registered. When either step refuses, the locks and the
/// registry are left exactly as they were (resources taken for a task that
/// could not register are given back).
pub fn guarded_begin(
    locks: &mut ResourceLocks,
    tasks: &mut Tasks,
    info: TaskInfo,
    resources: &[Resource],
    flag_cancelled: bool,
) -> (r: Result<Held, GuardRefusal>)
    requires
        old(tasks).wf(),
    ensures
        final(tasks).wf(),
        match r {
            Ok(h) => {
                &&& all_free(old(locks)@, keys_of(resources@))
                &&& !is_running(old(tasks)@, info.id@)
                &&& h@ == keys_of(resources@)
                &&& final(locks)@ == old(locks)@.union(key_set(keys_of(resources@)))
                &&& final(tasks)@ == trim_spec(upsert(old(tasks)@, (TaskView { cancel_requested: flag_cancelled, ..info@ })))
            },
            Err(GuardRefusal::Busy(c)) => {
                &&& !all_free(old(locks)@, keys_of(resources@))
                &&& first_busy(old(locks)@, keys_of(resources@), 0) is Some
                &&& keys_of(resources@)[first_busy(old(locks)@, keys_of(resources@), 0)->0] == c.resource@
                &&& old(locks)@.contains(c.held_by@)
                &&& conflicts(c.resource@, c.held_by@)
                &&& final(locks)@ == old(locks)@
                &&& final(tasks)@ == old(tasks)@
            },
            Err(GuardRefusal::Duplicate(e)) => {
                &&& all_free(old(locks)@, keys_of(resources@))
                &&& is_running(old(tasks)@, info.id@)
                &&& e@ == duplicate_message(info.id@)
                &&& final(locks)@ == old(locks)@
                &&& final(tasks)@ == old(tasks)@
            },
        },
{
    let ghost before = locks@;
    let ghost ks = keys_of(resources@);
    let held = match locks.acquire(resources) {
        Ok(h) => h,
        Err(c) => return Err(GuardRefusal::Busy(c)),
    };
    match tasks.begin(info, flag_cancelled) {
        Ok(()) => Ok(held),
        Err(e) => {
            locks.release(held);
            proof {
                lemma_release_undoes_acquire(before, ks);
            }
            Err(GuardRefusal::Duplicate(e))
        },
    }
}

/// Ends a guarded operation: the task's outcome is recorded first, then its
/// resources are given back, so a waiter that sees the task finish never
/// finds them still taken.
pub fn guarded_end(
    locks: &mut ResourceLocks,
    tasks: &mut Tasks,
    held: Held,
    id: &str,
    outcome: Result<(), String>,
    flag_cancelled: bool,
    now: i64,
)
    requires
        old(tasks).wf(),
    ensures
        final(tasks).wf(),
        final(tasks)@ == at_id(
            old(tasks)@,
            id@,
            |t: TaskView| with_outcome(t, outcome_ok(outcome), outcome_err(outcome), flag_cancelled, now as int),
        ),
        final(locks)@ == old(locks)@.difference(key_set(held@)),
{
    tasks.finish(id, outcome, flag_cancelled, now);
    locks.release(held);
}

} // verus!
