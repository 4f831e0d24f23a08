//! Condition-variable syscalls.
//!
//! `sys_condvar_wait` atomically (under the caller's process-state guard)
//! releases the given mutex — waking the mutex queue's head — and queues the
//! calling thread on the condition variable; the caller then suspends it.
//! `sys_condvar_signal` wakes one queued thread (a no-op when the queue is
//! empty).  A woken waiter must re-acquire the mutex through
//! `condvar_wait_relock` before it proceeds.  None of this touches the
//! resource matrices: the waiter keeps its recorded allocation while parked,
//! as the weak condition-variable contract prescribes — woken only implies a
//! signal occurred, and a later locker may steal the mutex in between.

use vstd::prelude::*;
use crate::banker::{mat, col_sum};
use crate::state::{ProcessState, CondvarObj, LockOutcome};
use crate::locks::{mutex_is_locked, mutex_is_blocking, mutex_set_locked, mutex_queue_push, mutex_queue_pop};

verus! {

/// Appends `tid` to the wait queue of a live condition-variable slot.
fn condvar_queue_push(slots: &mut Vec<Option<CondvarObj>>, id: usize, tid: usize)
    requires
        id < old(slots)@.len(),
        old(slots)@[id as int] is Some,
    ensures
        final(slots)@.len() == old(slots)@.len(),
        forall|k: int| 0 <= k < old(slots)@.len() && k != id ==> final(slots)@[k] == old(slots)@[k],
        final(slots)@[id as int] is Some,
        final(slots)@[id as int]->Some_0.queue@ == old(slots)@[id as int]->Some_0.queue@.push(tid),
{
    let slot = &mut slots[id];
    match slot {
        Some(c) => {
            c.queue.push(tid);
        },
        None => {},
    }
}

/// Removes and returns the head of the wait queue of a live condition-variable
/// slot.
fn condvar_queue_pop(slots: &mut Vec<Option<CondvarObj>>, id: usize) -> (w: Option<usize>)
    requires
        id < old(slots)@.len(),
        old(slots)@[id as int] is Some,
    ensures
        final(slots)@.len() == old(slots)@.len(),
        forall|k: int| 0 <= k < old(slots)@.len() && k != id ==> final(slots)@[k] == old(slots)@[k],
        final(slots)@[id as int] is Some,
        old(slots)@[id as int]->Some_0.queue@.len() == 0 ==> ((w is None)
            && final(slots)@[id as int]->Some_0.queue == old(slots)@[id as int]->Some_0.queue),
        old(slots)@[id as int]->Some_0.queue@.len() > 0 ==> w == Some(
            old(slots)@[id as int]->Some_0.queue@[0],
        ) && final(slots)@[id as int]->Some_0.queue@ == old(
            slots,
        )@[id as int]->Some_0.queue@.subrange(1, old(slots)@[id as int]->Some_0.queue@.len() as int),
{
    let slot = &mut slots[id];
    match slot {
        Some(c) => {
            if c.queue.len() > 0 {
                let h = c.queue.remove(0);
                proof {
                    assert(final(slots)@[id as int]->Some_0.queue@ =~= old(
                        slots,
                    )@[id as int]->Some_0.queue@.subrange(
                        1,
                        old(slots)@[id as int]->Some_0.queue@.len() as int,
                    ));
                }
                Some(h)
            } else {
                None
            }
        },
        None => None,
    }
}

/// Wakes one thread queued on condition variable `condvar_id` (FIFO), or does
/// nothing when the queue is empty.  Returns the thread to wake.
pub fn sys_condvar_signal(p: &mut ProcessState, condvar_id: usize) -> (wake: Option<usize>)
    requires
        old(p).wf(),
        condvar_id < old(p).condvars@.len(),
        old(p).condvars@[condvar_id as int] is Some,
    ensures
        final(p).wf(),
        final(p).condvars@.len() == old(p).condvars@.len(),
        forall|k: int|
            0 <= k < old(p).condvars@.len() && k != condvar_id ==> final(p).condvars@[k] == old(
                p,
            ).condvars@[k],
        final(p).condvars@[condvar_id as int] is Some,
        old(p).condvars@[condvar_id as int]->Some_0.queue@.len() == 0 ==> ((wake is None)
            && final(p).condvars@[condvar_id as int]->Some_0.queue == old(
            p,
        ).condvars@[condvar_id as int]->Some_0.queue),
        old(p).condvars@[condvar_id as int]->Some_0.queue@.len() > 0 ==> wake == Some(
            old(p).condvars@[condvar_id as int]->Some_0.queue@[0],
        ) && final(p).condvars@[condvar_id as int]->Some_0.queue@ == old(
            p,
        ).condvars@[condvar_id as int]->Some_0.queue@.subrange(
            1,
            old(p).condvars@[condvar_id as int]->Some_0.queue@.len() as int,
        ),
        final(p).mutexes@ == old(p).mutexes@,
        final(p).available_mutex@ == old(p).available_mutex@,
        final(p).allocation_mutex@ == old(p).allocation_mutex@,
        final(p).need_mutex@ == old(p).need_mutex@,
        final(p).semaphores@ == old(p).semaphores@,
        final(p).available_sem@ == old(p).available_sem@,
        final(p).allocation_sem@ == old(p).allocation_sem@,
        final(p).need_sem@ == old(p).need_sem@,
        final(p).deadlock_detect == old(p).deadlock_detect,
{
    condvar_queue_pop(&mut p.condvars, condvar_id)
}

/// Starts a wait on condition variable `condvar_id` for thread `tid`, which
/// holds mutex `mutex_id`: releases the mutex at the primitive level — waking
/// the mutex queue's head, returned for the caller to wake — and queues `tid`
/// on the condition variable.  The caller then suspends `tid`; once signalled,
/// it must re-acquire the mutex through [`condvar_wait_relock`].  The resource
/// matrices are untouched: the waiter's allocation stays recorded.
pub fn sys_condvar_wait(p: &mut ProcessState, tid: usize, condvar_id: usize, mutex_id: usize) -> (wake:
    Option<usize>)
    requires
        old(p).wf(),
        condvar_id < old(p).condvars@.len(),
        old(p).condvars@[condvar_id as int] is Some,
        mutex_id < old(p).mutexes@.len(),
        old(p).mutexes@[mutex_id as int] is Some,
        old(p).mutexes@[mutex_id as int]->Some_0.locked,
    ensures
        final(p).wf(),
        // the mutex is released and its queue's head handed out
        final(p).mutexes@.len() == old(p).mutexes@.len(),
        forall|k: int|
            0 <= k < old(p).mutexes@.len() && k != mutex_id ==> final(p).mutexes@[k] == old(
                p,
            ).mutexes@[k],
        final(p).mutexes@[mutex_id as int] is Some,
        !final(p).mutexes@[mutex_id as int]->Some_0.locked,
        final(p).mutexes@[mutex_id as int]->Some_0.blocking == old(
            p,
        ).mutexes@[mutex_id as int]->Some_0.blocking,
        old(p).mutexes@[mutex_id as int]->Some_0.queue@.len() == 0 ==> ((wake is None)
            && final(p).mutexes@[mutex_id as int]->Some_0.queue == old(
            p,
        ).mutexes@[mutex_id as int]->Some_0.queue),
        old(p).mutexes@[mutex_id as int]->Some_0.queue@.len() > 0 ==> wake == Some(
            old(p).mutexes@[mutex_id as int]->Some_0.queue@[0],
        ) && final(p).mutexes@[mutex_id as int]->Some_0.queue@ == old(
            p,
        ).mutexes@[mutex_id as int]->Some_0.queue@.subrange(
            1,
            old(p).mutexes@[mutex_id as int]->Some_0.queue@.len() as int,
        ),
        // the caller joins the condition variable's queue
        final(p).condvars@.len() == old(p).condvars@.len(),
        forall|k: int|
            0 <= k < old(p).condvars@.len() && k != condvar_id ==> final(p).condvars@[k] == old(
                p,
            ).condvars@[k],
        final(p).condvars@[condvar_id as int] is Some,
        final(p).condvars@[condvar_id as int]->Some_0.queue@ == old(
            p,
        ).condvars@[condvar_id as int]->Some_0.queue@.push(tid),
        // no bookkeeping changes
        final(p).available_mutex@ == old(p).available_mutex@,
        final(p).allocation_mutex@ == old(p).allocation_mutex@,
        final(p).need_mutex@ == old(p).need_mutex@,
        final(p).semaphores@ == old(p).semaphores@,
        final(p).available_sem@ == old(p).available_sem@,
        final(p).allocation_sem@ == old(p).allocation_sem@,
        final(p).need_sem@ == old(p).need_sem@,
        final(p).deadlock_detect == old(p).deadlock_detect,
{
    let ghost p0 = *old(p);
    mutex_set_locked(&mut p.mutexes, mutex_id, false);
    let wake = mutex_queue_pop(&mut p.mutexes, mutex_id);
    condvar_queue_push(&mut p.condvars, condvar_id, tid);
    proof {
        assert forall|r: int|
            0 <= r < p.mutexes@.len() && (#[trigger] p.mutexes@[r]) is Some
                implies p.available_mutex@[r] + col_sum(mat(p.allocation_mutex@), r) == 1 by {
            assert(p0.mutexes@[r] is Some);
        }
        assert forall|r: int|
            0 <= r < p.semaphores@.len() && (#[trigger] p.semaphores@[r]) is Some
                implies p.available_sem@[r] == p.semaphores@[r]->Some_0.count by {
            assert(p0.semaphores@[r] is Some);
        }
    }
    wake
}

/// Re-acquires mutex `mutex_id` for a thread woken from a condition-variable
/// wait.  Purely a primitive transition — the waiter's allocation never left
/// the matrices, so no bookkeeping moves: the mutex is taken when free, else
/// the thread queues (blocking variant) or spins again.
pub fn condvar_wait_relock(p: &mut ProcessState, tid: usize, mutex_id: usize) -> (outcome:
    LockOutcome)
    requires
        old(p).wf(),
        mutex_id < old(p).mutexes@.len(),
        old(p).mutexes@[mutex_id as int] is Some,
    ensures
        final(p).wf(),
        !(outcome is Refused),
        outcome is Granted <==> !old(p).mutexes@[mutex_id as int]->Some_0.locked,
        final(p).mutexes@.len() == old(p).mutexes@.len(),
        forall|k: int|
            0 <= k < old(p).mutexes@.len() && k != mutex_id ==> final(p).mutexes@[k] == old(
                p,
            ).mutexes@[k],
        final(p).mutexes@[mutex_id as int] is Some,
        final(p).mutexes@[mutex_id as int]->Some_0.locked,
        final(p).mutexes@[mutex_id as int]->Some_0.blocking == old(
            p,
        ).mutexes@[mutex_id as int]->Some_0.blocking,
        outcome is Granted ==> final(p).mutexes@[mutex_id as int]->Some_0.queue == old(
            p,
        ).mutexes@[mutex_id as int]->Some_0.queue,
        outcome is Blocked ==> {
            &&& (old(p).mutexes@[mutex_id as int]->Some_0.blocking ==> final(p).mutexes@[mutex_id as int]->Some_0.queue@ == old(
                p,
            ).mutexes@[mutex_id as int]->Some_0.queue@.push(tid))
            &&& (!old(p).mutexes@[mutex_id as int]->Some_0.blocking ==> final(p).mutexes@[mutex_id as int]->Some_0.queue == old(
                p,
            ).mutexes@[mutex_id as int]->Some_0.queue)
        },
        final(p).available_mutex@ == old(p).available_mutex@,
        final(p).allocation_mutex@ == old(p).allocation_mutex@,
        final(p).need_mutex@ == old(p).need_mutex@,
        final(p).semaphores@ == old(p).semaphores@,
        final(p).available_sem@ == old(p).available_sem@,
        final(p).allocation_sem@ == old(p).allocation_sem@,
        final(p).need_sem@ == old(p).need_sem@,
        final(p).condvars@ == old(p).condvars@,
        final(p).deadlock_detect == old(p).deadlock_detect,
{
    let ghost p0 = *old(p);
    let outcome: LockOutcome;
    if !mutex_is_locked(&p.mutexes, mutex_id) {
        mutex_set_locked(&mut p.mutexes, mutex_id, true);
        outcome = LockOutcome::Granted;
    } else {
        if mutex_is_blocking(&p.mutexes, mutex_id) {
            mutex_queue_push(&mut p.mutexes, mutex_id, tid);
        }
        outcome = LockOutcome::Blocked;
    }
    proof {
        assert forall|r: int|
            0 <= r < p.mutexes@.len() && (#[trigger] p.mutexes@[r]) is Some
                implies p.available_mutex@[r] + col_sum(mat(p.allocation_mutex@), r) == 1 by {
            assert(p0.mutexes@[r] is Some);
        }
        assert forall|r: int|
            0 <= r < p.semaphores@.len() && (#[trigger] p.semaphores@[r]) is Some
                implies p.available_sem@[r] == p.semaphores@[r]->Some_0.count by {
            assert(p0.semaphores@[r] is Some);
        }
    }
    outcome
}

} // verus!
