//! Semaphore syscalls.
//!
//! `sys_semaphore_down` records the request in `need`, runs the Banker's
//! safety check when detection is on (rejecting with the state rolled back),
//! and then either takes a unit — the object's count and `available` move in
//! step, one unit moves to the thread's allocation — or queues the thread,
//! which the caller suspends and, once woken by an up, retries through
//! `semaphore_down_retry`.  `sys_semaphore_up` returns a unit and wakes the
//! queue's head; like the original bookkeeping it leaves `need` untouched.

use vstd::prelude::*;
use vstd::pervasive::VecAdditionalExecFns;
use crate::banker::{mat, col_sum, banker_safe, safe_state};
use crate::banker::{lemma_col_sum_upto_entry};
use crate::state::{
    ProcessState, SemObj, LockOutcome, mat_set, bump_entry, drop_entry, sync_eq,
    lemma_need_bump_wf, lemma_transfer_wf, lemma_avail_headroom,
};

verus! {

/// A down request by `tid` on `sem_id` must be refused: detection is on and
/// the state with the request recorded fails the Banker's safety check.
pub open spec fn down_request_unsafe(p: ProcessState, tid: int, sem_id: int) -> bool {
    p.deadlock_detect && !safe_state(
        p.available_sem@,
        mat(p.allocation_sem@),
        bump_entry(mat(p.need_sem@), tid, sem_id),
    )
}

/// Reads the count of a live semaphore slot.
fn sem_get_count(slots: &Vec<Option<SemObj>>, id: usize) -> (r: usize)
    requires
        id < slots@.len(),
        slots@[id as int] is Some,
    ensures
        r == slots@[id as int]->Some_0.count,
{
    match &slots[id] {
        Some(s) => s.count,
        None => 0,
    }
}

/// Sets the count of a live semaphore slot.
fn sem_set_count(slots: &mut Vec<Option<SemObj>>, id: usize, val: usize)
    requires
        id < old(slots)@.len(),
        old(slots)@[id as int] is Some,
    ensures
        final(slots)@.len() == old(slots)@.len(),
        forall|k: int| 0 <= k < old(slots)@.len() && k != id ==> final(slots)@[k] == old(slots)@[k],
        final(slots)@[id as int] is Some,
        final(slots)@[id as int]->Some_0.count == val,
        final(slots)@[id as int]->Some_0.queue == old(slots)@[id as int]->Some_0.queue,
{
    let slot = &mut slots[id];
    match slot {
        Some(s) => {
            s.count = val;
        },
        None => {},
    }
}

/// Appends `tid` to the wait queue of a live semaphore slot.
fn sem_queue_push(slots: &mut Vec<Option<SemObj>>, id: usize, tid: usize)
    requires
        id < old(slots)@.len(),
        old(slots)@[id as int] is Some,
    ensures
        final(slots)@.len() == old(slots)@.len(),
        forall|k: int| 0 <= k < old(slots)@.len() && k != id ==> final(slots)@[k] == old(slots)@[k],
        final(slots)@[id as int] is Some,
        final(slots)@[id as int]->Some_0.count == old(slots)@[id as int]->Some_0.count,
        final(slots)@[id as int]->Some_0.queue@ == old(slots)@[id as int]->Some_0.queue@.push(tid),
{
    let slot = &mut slots[id];
    match slot {
        Some(s) => {
            s.queue.push(tid);
        },
        None => {},
    }
}

/// Removes and returns the head of the wait queue of a live semaphore slot.
fn sem_queue_pop(slots: &mut Vec<Option<SemObj>>, id: usize) -> (w: Option<usize>)
    requires
        id < old(slots)@.len(),
        old(slots)@[id as int] is Some,
    ensures
        final(slots)@.len() == old(slots)@.len(),
        forall|k: int| 0 <= k < old(slots)@.len() && k != id ==> final(slots)@[k] == old(slots)@[k],
        final(slots)@[id as int] is Some,
        final(slots)@[id as int]->Some_0.count == old(slots)@[id as int]->Some_0.count,
        old(slots)@[id as int]->Some_0.queue@.len() == 0 ==> ((w is None)
            && final(slots)@[id as int]->Some_0.queue == old(slots)@[id as int]->Some_0.queue),
        old(slots)@[id as int]->Some_0.queue@.len() > 0 ==> w == Some(
            old(slots)@[id as int]->Some_0.queue@[0],
        ) && final(slots)@[id as int]->Some_0.queue@ == old(
            slots,
        )@[id as int]->Some_0.queue@.subrange(1, old(slots)@[id as int]->Some_0.queue@.len() as int),
{
    let slot = &mut slots[id];
    match slot {
        Some(s) => {
            if s.queue.len() > 0 {
                let h = s.queue.remove(0);
                proof {
                    assert(final(slots)@[id as int]->Some_0.queue@ =~= old(
                        slots,
                    )@[id as int]->Some_0.queue@.subrange(
                        1,
                        old(slots)@[id as int]->Some_0.queue@.len() as int,
                    ));
                }
                Some(h)
            } else {
                None
            }
        },
        None => None,
    }
}

/// Takes one unit of semaphore `sem_id` for thread `tid`.
///
/// Records the request (`need + 1`); with detection on, runs the Banker's
/// safety check and refuses — the state exactly as before the call — when the
/// resulting state is unsafe.  Otherwise, with a positive count the unit is
/// taken at once; on count zero the thread is queued and the caller must
/// suspend it and retry with [`semaphore_down_retry`] once a matching up wakes
/// it.
pub fn sys_semaphore_down(p: &mut ProcessState, tid: usize, sem_id: usize) -> (outcome: LockOutcome)
    requires
        old(p).wf(),
        tid < old(p).thread_count(),
        sem_id < old(p).semaphores@.len(),
        old(p).semaphores@[sem_id as int] is Some,
        old(p).need_sem@[tid as int]@[sem_id as int] < usize::MAX,
    ensures
        final(p).wf(),
        outcome is Refused <==> down_request_unsafe(*old(p), tid as int, sem_id as int),
        outcome is Refused ==> sync_eq(*old(p), *final(p)),
        outcome is Granted <==> !down_request_unsafe(*old(p), tid as int, sem_id as int) && old(
            p,
        ).semaphores@[sem_id as int]->Some_0.count >= 1,
        !(outcome is Refused) ==> {
            &&& mat(final(p).need_sem@) == bump_entry(
                mat(old(p).need_sem@),
                tid as int,
                sem_id as int,
            )
            &&& final(p).semaphores@.len() == old(p).semaphores@.len()
            &&& (forall|k: int|
                0 <= k < old(p).semaphores@.len() && k != sem_id ==> final(p).semaphores@[k] == old(
                    p,
                ).semaphores@[k])
            &&& final(p).semaphores@[sem_id as int] is Some
            &&& final(p).mutexes@ == old(p).mutexes@
            &&& final(p).available_mutex@ == old(p).available_mutex@
            &&& final(p).allocation_mutex@ == old(p).allocation_mutex@
            &&& final(p).need_mutex@ == old(p).need_mutex@
            &&& final(p).condvars@ == old(p).condvars@
            &&& final(p).deadlock_detect == old(p).deadlock_detect
        },
        outcome is Granted ==> {
            &&& final(p).semaphores@[sem_id as int]->Some_0.count == old(
                p,
            ).semaphores@[sem_id as int]->Some_0.count - 1
            &&& final(p).semaphores@[sem_id as int]->Some_0.queue == old(
                p,
            ).semaphores@[sem_id as int]->Some_0.queue
            &&& final(p).available_sem@ == old(p).available_sem@.update(
                sem_id as int,
                ((old(p).available_sem@[sem_id as int] - 1) as usize),
            )
            &&& mat(final(p).allocation_sem@) == bump_entry(
                mat(old(p).allocation_sem@),
                tid as int,
                sem_id as int,
            )
        },
        outcome is Blocked ==> {
            &&& final(p).semaphores@[sem_id as int]->Some_0.count == old(
                p,
            ).semaphores@[sem_id as int]->Some_0.count
            &&& final(p).semaphores@[sem_id as int]->Some_0.queue@ == old(
                p,
            ).semaphores@[sem_id as int]->Some_0.queue@.push(tid)
            &&& final(p).available_sem@ == old(p).available_sem@
            &&& mat(final(p).allocation_sem@) == mat(old(p).allocation_sem@)
        },
{
    let ghost p0 = *old(p);
    proof {
        assert(mat(p0.need_sem@)[tid as int].len() == p0.available_sem@.len());
        assert(mat(p0.allocation_sem@)[tid as int].len() == p0.available_sem@.len());
    }
    let n0 = p.need_sem[tid][sem_id];
    mat_set(&mut p.need_sem, tid, sem_id, n0 + 1);
    proof {
        lemma_need_bump_wf(
            p0.available_sem@,
            p0.allocation_sem@,
            p0.need_sem@,
            p.need_sem@,
            tid as int,
            sem_id as int,
        );
        assert(mat(p.need_sem@) =~~= bump_entry(mat(p0.need_sem@), tid as int, sem_id as int));
    }
    if p.deadlock_detect {
        let safe = banker_safe(&p.available_sem, &p.allocation_sem, &p.need_sem);
        if !safe {
            mat_set(&mut p.need_sem, tid, sem_id, n0);
            proof {
                assert(mat(p.need_sem@) =~~= mat(p0.need_sem@));
            }
            return LockOutcome::Refused;
        }
    }
    let ghost p1 = *p;
    let count = sem_get_count(&p.semaphores, sem_id);
    if count >= 1 {
        sem_set_count(&mut p.semaphores, sem_id, count - 1);
        proof {
            lemma_col_sum_upto_entry(
                mat(p.allocation_sem@),
                tid as int,
                sem_id as int,
                p.allocation_sem@.len() as int,
            );
            assert(p0.available_sem@[sem_id as int] + col_sum(
                mat(p0.allocation_sem@),
                sem_id as int,
            ) <= usize::MAX);
        }
        let av = p.available_sem[sem_id];
        let al = p.allocation_sem[tid][sem_id];
        p.available_sem.set(sem_id, av - 1);
        mat_set(&mut p.allocation_sem, tid, sem_id, al + 1);
        proof {
            lemma_transfer_wf(
                p0.available_sem@,
                p0.allocation_sem@,
                p1.need_sem@,
                p.available_sem@,
                p.allocation_sem@,
                tid as int,
                sem_id as int,
                (av - 1) as usize,
                (al + 1) as usize,
            );
            assert(mat(p.allocation_sem@) =~~= bump_entry(
                mat(p0.allocation_sem@),
                tid as int,
                sem_id as int,
            ));
            assert forall|r: int|
                0 <= r < p.semaphores@.len() && (#[trigger] p.semaphores@[r]) is Some
                    implies p.available_sem@[r] == p.semaphores@[r]->Some_0.count by {
                assert(p0.semaphores@[r] is Some);
            }
            assert forall|r: int|
                0 <= r < p.mutexes@.len() && (#[trigger] p.mutexes@[r]) is Some
                    implies p.available_mutex@[r] + col_sum(mat(p.allocation_mutex@), r) == 1 by {
                assert(p0.mutexes@[r] is Some);
            }
        }
        LockOutcome::Granted
    } else {
        sem_queue_push(&mut p.semaphores, sem_id, tid);
        proof {
            assert forall|r: int|
                0 <= r < p.semaphores@.len() && (#[trigger] p.semaphores@[r]) is Some
                    implies p.available_sem@[r] == p.semaphores@[r]->Some_0.count by {
                assert(p0.semaphores@[r] is Some);
            }
            assert forall|r: int|
                0 <= r < p.mutexes@.len() && (#[trigger] p.mutexes@[r]) is Some
                    implies p.available_mutex@[r] + col_sum(mat(p.allocation_mutex@), r) == 1 by {
                assert(p0.mutexes@[r] is Some);
            }
        }
        LockOutcome::Blocked
    }
}

/// Re-attempts a down for a woken thread whose request already stands in
/// `need`: takes a unit when the count is positive, else queues again.  No
/// `need` bump and no safety check — both happened when the request was first
/// made.
pub fn semaphore_down_retry(p: &mut ProcessState, tid: usize, sem_id: usize) -> (outcome:
    LockOutcome)
    requires
        old(p).wf(),
        tid < old(p).thread_count(),
        sem_id < old(p).semaphores@.len(),
        old(p).semaphores@[sem_id as int] is Some,
        old(p).need_sem@[tid as int]@[sem_id as int] >= old(
            p,
        ).allocation_sem@[tid as int]@[sem_id as int] + 1,
    ensures
        final(p).wf(),
        !(outcome is Refused),
        outcome is Granted <==> old(p).semaphores@[sem_id as int]->Some_0.count >= 1,
        mat(final(p).need_sem@) == mat(old(p).need_sem@),
        final(p).semaphores@.len() == old(p).semaphores@.len(),
        forall|k: int|
            0 <= k < old(p).semaphores@.len() && k != sem_id ==> final(p).semaphores@[k] == old(
                p,
            ).semaphores@[k],
        final(p).semaphores@[sem_id as int] is Some,
        final(p).mutexes@ == old(p).mutexes@,
        final(p).available_mutex@ == old(p).available_mutex@,
        final(p).allocation_mutex@ == old(p).allocation_mutex@,
        final(p).need_mutex@ == old(p).need_mutex@,
        final(p).condvars@ == old(p).condvars@,
        final(p).deadlock_detect == old(p).deadlock_detect,
        outcome is Granted ==> {
            &&& final(p).semaphores@[sem_id as int]->Some_0.count == old(
                p,
            ).semaphores@[sem_id as int]->Some_0.count - 1
            &&& final(p).semaphores@[sem_id as int]->Some_0.queue == old(
                p,
            ).semaphores@[sem_id as int]->Some_0.queue
            &&& final(p).available_sem@ == old(p).available_sem@.update(
                sem_id as int,
                ((old(p).available_sem@[sem_id as int] - 1) as usize),
            )
            &&& mat(final(p).allocation_sem@) == bump_entry(
                mat(old(p).allocation_sem@),
                tid as int,
                sem_id as int,
            )
        },
        outcome is Blocked ==> {
            &&& final(p).semaphores@[sem_id as int]->Some_0.count == old(
                p,
            ).semaphores@[sem_id as int]->Some_0.count
            &&& final(p).semaphores@[sem_id as int]->Some_0.queue@ == old(
                p,
            ).semaphores@[sem_id as int]->Some_0.queue@.push(tid)
            &&& final(p).available_sem@ == old(p).available_sem@
            &&& mat(final(p).allocation_sem@) == mat(old(p).allocation_sem@)
        },
{
    let ghost p0 = *old(p);
    proof {
        assert(mat(p0.need_sem@)[tid as int].len() == p0.available_sem@.len());
        assert(mat(p0.allocation_sem@)[tid as int].len() == p0.available_sem@.len());
    }
    let count = sem_get_count(&p.semaphores, sem_id);
    if count >= 1 {
        sem_set_count(&mut p.semaphores, sem_id, count - 1);
        proof {
            lemma_col_sum_upto_entry(
                mat(p.allocation_sem@),
                tid as int,
                sem_id as int,
                p.allocation_sem@.len() as int,
            );
            assert(p0.available_sem@[sem_id as int] + col_sum(
                mat(p0.allocation_sem@),
                sem_id as int,
            ) <= usize::MAX);
        }
        let av = p.available_sem[sem_id];
        let al = p.allocation_sem[tid][sem_id];
        p.available_sem.set(sem_id, av - 1);
        mat_set(&mut p.allocation_sem, tid, sem_id, al + 1);
        proof {
            lemma_transfer_wf(
                p0.available_sem@,
                p0.allocation_sem@,
                p0.need_sem@,
                p.available_sem@,
                p.allocation_sem@,
                tid as int,
                sem_id as int,
                (av - 1) as usize,
                (al + 1) as usize,
            );
            assert(mat(p.allocation_sem@) =~~= bump_entry(
                mat(p0.allocation_sem@),
                tid as int,
                sem_id as int,
            ));
            assert forall|r: int|
                0 <= r < p.semaphores@.len() && (#[trigger] p.semaphores@[r]) is Some
                    implies p.available_sem@[r] == p.semaphores@[r]->Some_0.count by {
                assert(p0.semaphores@[r] is Some);
            }
            assert forall|r: int|
                0 <= r < p.mutexes@.len() && (#[trigger] p.mutexes@[r]) is Some
                    implies p.available_mutex@[r] + col_sum(mat(p.allocation_mutex@), r) == 1 by {
                assert(p0.mutexes@[r] is Some);
            }
        }
        LockOutcome::Granted
    } else {
        sem_queue_push(&mut p.semaphores, sem_id, tid);
        proof {
            assert forall|r: int|
                0 <= r < p.semaphores@.len() && (#[trigger] p.semaphores@[r]) is Some
                    implies p.available_sem@[r] == p.semaphores@[r]->Some_0.count by {
                assert(p0.semaphores@[r] is Some);
            }
            assert forall|r: int|
                0 <= r < p.mutexes@.len() && (#[trigger] p.mutexes@[r]) is Some
                    implies p.available_mutex@[r] + col_sum(mat(p.allocation_mutex@), r) == 1 by {
                assert(p0.mutexes@[r] is Some);
            }
        }
        LockOutcome::Blocked
    }
}

/// Returns one unit of semaphore `sem_id` held by thread `tid`: the thread's
/// allocation is lowered, `available` and the object's count restored, and the
/// head of the wait queue (FIFO) is returned for the caller to wake — the
/// woken thread retries its down itself.  As in the lock path's inverse, no
/// safety check runs; `need` is left untouched.
pub fn sys_semaphore_up(p: &mut ProcessState, tid: usize, sem_id: usize) -> (wake: Option<usize>)
    requires
        old(p).wf(),
        tid < old(p).thread_count(),
        sem_id < old(p).semaphores@.len(),
        old(p).semaphores@[sem_id as int] is Some,
        old(p).allocation_sem@[tid as int]@[sem_id as int] >= 1,
    ensures
        final(p).wf(),
        final(p).available_sem@ == old(p).available_sem@.update(
            sem_id as int,
            ((old(p).available_sem@[sem_id as int] + 1) as usize),
        ),
        mat(final(p).allocation_sem@) == drop_entry(
            mat(old(p).allocation_sem@),
            tid as int,
            sem_id as int,
        ),
        mat(final(p).need_sem@) == mat(old(p).need_sem@),
        final(p).semaphores@.len() == old(p).semaphores@.len(),
        forall|k: int|
            0 <= k < old(p).semaphores@.len() && k != sem_id ==> final(p).semaphores@[k] == old(
                p,
            ).semaphores@[k],
        final(p).semaphores@[sem_id as int] is Some,
        final(p).semaphores@[sem_id as int]->Some_0.count == old(
            p,
        ).semaphores@[sem_id as int]->Some_0.count + 1,
        old(p).semaphores@[sem_id as int]->Some_0.queue@.len() == 0 ==> ((wake is None)
            && final(p).semaphores@[sem_id as int]->Some_0.queue == old(
            p,
        ).semaphores@[sem_id as int]->Some_0.queue),
        old(p).semaphores@[sem_id as int]->Some_0.queue@.len() > 0 ==> wake == Some(
            old(p).semaphores@[sem_id as int]->Some_0.queue@[0],
        ) && final(p).semaphores@[sem_id as int]->Some_0.queue@ == old(
            p,
        ).semaphores@[sem_id as int]->Some_0.queue@.subrange(
            1,
            old(p).semaphores@[sem_id as int]->Some_0.queue@.len() as int,
        ),
        final(p).mutexes@ == old(p).mutexes@,
        final(p).available_mutex@ == old(p).available_mutex@,
        final(p).allocation_mutex@ == old(p).allocation_mutex@,
        final(p).need_mutex@ == old(p).need_mutex@,
        final(p).condvars@ == old(p).condvars@,
        final(p).deadlock_detect == old(p).deadlock_detect,
{
    let ghost p0 = *old(p);
    proof {
        assert(mat(p0.need_sem@)[tid as int].len() == p0.available_sem@.len());
        assert(mat(p0.allocation_sem@)[tid as int].len() == p0.available_sem@.len());
        assert(mat(p0.allocation_sem@)[tid as int][sem_id as int] <= mat(
            p0.need_sem@,
        )[tid as int][sem_id as int]);
        lemma_avail_headroom(
            p0.available_sem@,
            p0.allocation_sem@,
            p0.need_sem@,
            tid as int,
            sem_id as int,
        );
    }
    let av = p.available_sem[sem_id];
    let al = p.allocation_sem[tid][sem_id];
    let count = sem_get_count(&p.semaphores, sem_id);
    p.available_sem.set(sem_id, av + 1);
    mat_set(&mut p.allocation_sem, tid, sem_id, al - 1);
    sem_set_count(&mut p.semaphores, sem_id, count + 1);
    let wake = sem_queue_pop(&mut p.semaphores, sem_id);
    proof {
        lemma_transfer_wf(
            p0.available_sem@,
            p0.allocation_sem@,
            p0.need_sem@,
            p.available_sem@,
            p.allocation_sem@,
            tid as int,
            sem_id as int,
            ((av + 1) as usize),
            ((al - 1) as usize),
        );
        assert(mat(p.allocation_sem@) =~~= drop_entry(
            mat(p0.allocation_sem@),
            tid as int,
            sem_id as int,
        ));
        assert forall|r: int|
            0 <= r < p.semaphores@.len() && (#[trigger] p.semaphores@[r]) is Some
                implies p.available_sem@[r] == p.semaphores@[r]->Some_0.count by {
            assert(p0.semaphores@[r] is Some);
        }
        assert forall|r: int|
            0 <= r < p.mutexes@.len() && (#[trigger] p.mutexes@[r]) is Some
                implies p.available_mutex@[r] + col_sum(mat(p.allocation_mutex@), r) == 1 by {
            assert(p0.mutexes@[r] is Some);
        }
    }
    wake
}

} // verus!
