//! Mutex syscalls.
//!
//! `sys_mutex_lock` records the request in `need`, runs the Banker's safety
//! check when detection is on (rejecting with the state rolled back), and then
//! either acquires the mutex — moving one unit from `available` to the
//! thread's allocation — or reports that the caller must block.  A blocked
//! thread, once woken, retries through `mutex_lock_retry`, which skips the
//! `need` bump and the check (its request already stands in `need`).
//! `sys_mutex_unlock` is the inverse bookkeeping and wakes the queue's head.

use vstd::prelude::*;
use vstd::pervasive::VecAdditionalExecFns;
use crate::banker::{mat, col_sum, banker_safe, safe_state};
use crate::banker::{lemma_col_sum_upto_entry, lemma_col_sum_upto_nonneg};
use crate::state::{
    ProcessState, MutexObj, LockOutcome, mat_set, bump_entry, drop_entry, sync_eq,
    lemma_need_bump_wf, lemma_need_drop_wf, lemma_transfer_wf, lemma_avail_headroom,
};

verus! {

/// A lock request by `tid` on `mutex_id` must be refused: detection is on and
/// the state with the request recorded fails the Banker's safety check.
pub open spec fn lock_request_unsafe(p: ProcessState, tid: int, mutex_id: int) -> bool {
    p.deadlock_detect && !safe_state(
        p.available_mutex@,
        mat(p.allocation_mutex@),
        bump_entry(mat(p.need_mutex@), tid, mutex_id),
    )
}

/// Reads the locked flag of a live mutex slot.
pub(crate) fn mutex_is_locked(slots: &Vec<Option<MutexObj>>, id: usize) -> (r: bool)
    requires
        id < slots@.len(),
        slots@[id as int] is Some,
    ensures
        r == slots@[id as int]->Some_0.locked,
{
    match &slots[id] {
        Some(m) => m.locked,
        None => false,
    }
}

/// Reads the variant selector of a live mutex slot.
pub(crate) fn mutex_is_blocking(slots: &Vec<Option<MutexObj>>, id: usize) -> (r: bool)
    requires
        id < slots@.len(),
        slots@[id as int] is Some,
    ensures
        r == slots@[id as int]->Some_0.blocking,
{
    match &slots[id] {
        Some(m) => m.blocking,
        None => false,
    }
}

/// Sets the locked flag of a live mutex slot.
pub(crate) fn mutex_set_locked(slots: &mut Vec<Option<MutexObj>>, id: usize, val: bool)
    requires
        id < old(slots)@.len(),
        old(slots)@[id as int] is Some,
    ensures
        final(slots)@.len() == old(slots)@.len(),
        forall|k: int| 0 <= k < old(slots)@.len() && k != id ==> final(slots)@[k] == old(slots)@[k],
        final(slots)@[id as int] is Some,
        final(slots)@[id as int]->Some_0.locked == val,
        final(slots)@[id as int]->Some_0.blocking == old(slots)@[id as int]->Some_0.blocking,
        final(slots)@[id as int]->Some_0.queue == old(slots)@[id as int]->Some_0.queue,
{
    let slot = &mut slots[id];
    match slot {
        Some(m) => {
            m.locked = val;
        },
        None => {},
    }
}

/// Appends `tid` to the wait queue of a live mutex slot.
pub(crate) fn mutex_queue_push(slots: &mut Vec<Option<MutexObj>>, id: usize, tid: usize)
    requires
        id < old(slots)@.len(),
        old(slots)@[id as int] is Some,
    ensures
        final(slots)@.len() == old(slots)@.len(),
        forall|k: int| 0 <= k < old(slots)@.len() && k != id ==> final(slots)@[k] == old(slots)@[k],
        final(slots)@[id as int] is Some,
        final(slots)@[id as int]->Some_0.locked == old(slots)@[id as int]->Some_0.locked,
        final(slots)@[id as int]->Some_0.blocking == old(slots)@[id as int]->Some_0.blocking,
        final(slots)@[id as int]->Some_0.queue@ == old(slots)@[id as int]->Some_0.queue@.push(tid),
{
    let slot = &mut slots[id];
    match slot {
        Some(m) => {
            m.queue.push(tid);
        },
        None => {},
    }
}

/// Removes and returns the head of the wait queue of a live mutex slot.
pub(crate) fn mutex_queue_pop(slots: &mut Vec<Option<MutexObj>>, id: usize) -> (w: Option<usize>)
    requires
        id < old(slots)@.len(),
        old(slots)@[id as int] is Some,
    ensures
        final(slots)@.len() == old(slots)@.len(),
        forall|k: int| 0 <= k < old(slots)@.len() && k != id ==> final(slots)@[k] == old(slots)@[k],
        final(slots)@[id as int] is Some,
        final(slots)@[id as int]->Some_0.locked == old(slots)@[id as int]->Some_0.locked,
        final(slots)@[id as int]->Some_0.blocking == old(slots)@[id as int]->Some_0.blocking,
        old(slots)@[id as int]->Some_0.queue@.len() == 0 ==> ((w is None)
            && final(slots)@[id as int]->Some_0.queue == old(slots)@[id as int]->Some_0.queue),
        old(slots)@[id as int]->Some_0.queue@.len() > 0 ==> w == Some(
            old(slots)@[id as int]->Some_0.queue@[0],
        ) && final(slots)@[id as int]->Some_0.queue@ == old(
            slots,
        )@[id as int]->Some_0.queue@.subrange(1, old(slots)@[id as int]->Some_0.queue@.len() as int),
{
    let slot = &mut slots[id];
    match slot {
        Some(m) => {
            if m.queue.len() > 0 {
                let h = m.queue.remove(0);
                proof {
                    assert(final(slots)@[id as int]->Some_0.queue@ =~= old(
                        slots,
                    )@[id as int]->Some_0.queue@.subrange(
                        1,
                        old(slots)@[id as int]->Some_0.queue@.len() as int,
                    ));
                }
                Some(h)
            } else {
                None
            }
        },
        None => None,
    }
}

/// Locks mutex `mutex_id` for thread `tid`.
///
/// Records the request (`need + 1`); with detection on, runs the Banker's
/// safety check and refuses — the state exactly as before the call — when the
/// resulting state is unsafe.  Otherwise, if the mutex is free it is acquired
/// at once: one unit moves from `available` to the thread's allocation.  If it
/// is held, the thread is queued (blocking variant) and the caller must
/// suspend it and retry with [`mutex_lock_retry`] once woken; the spin variant
/// just retries.
pub fn sys_mutex_lock(p: &mut ProcessState, tid: usize, mutex_id: usize) -> (outcome: LockOutcome)
    requires
        old(p).wf(),
        tid < old(p).thread_count(),
        mutex_id < old(p).mutexes@.len(),
        old(p).mutexes@[mutex_id as int] is Some,
        old(p).need_mutex@[tid as int]@[mutex_id as int] < usize::MAX,
        !old(p).mutexes@[mutex_id as int]->Some_0.locked ==> old(
            p,
        ).available_mutex@[mutex_id as int] >= 1,
    ensures
        final(p).wf(),
        outcome is Refused <==> lock_request_unsafe(*old(p), tid as int, mutex_id as int),
        outcome is Refused ==> sync_eq(*old(p), *final(p)),
        outcome is Granted <==> !lock_request_unsafe(*old(p), tid as int, mutex_id as int) && !old(
            p,
        ).mutexes@[mutex_id as int]->Some_0.locked,
        !(outcome is Refused) ==> {
            &&& mat(final(p).need_mutex@) == bump_entry(
                mat(old(p).need_mutex@),
                tid as int,
                mutex_id as int,
            )
            &&& final(p).mutexes@.len() == old(p).mutexes@.len()
            &&& (forall|k: int|
                0 <= k < old(p).mutexes@.len() && k != mutex_id ==> final(p).mutexes@[k] == old(
                    p,
                ).mutexes@[k])
            &&& final(p).mutexes@[mutex_id as int] is Some
            &&& final(p).mutexes@[mutex_id as int]->Some_0.blocking == old(
                p,
            ).mutexes@[mutex_id as int]->Some_0.blocking
            &&& final(p).semaphores@ == old(p).semaphores@
            &&& final(p).available_sem@ == old(p).available_sem@
            &&& final(p).allocation_sem@ == old(p).allocation_sem@
            &&& final(p).need_sem@ == old(p).need_sem@
            &&& final(p).condvars@ == old(p).condvars@
            &&& final(p).deadlock_detect == old(p).deadlock_detect
        },
        outcome is Granted ==> {
            &&& final(p).mutexes@[mutex_id as int]->Some_0.locked
            &&& final(p).mutexes@[mutex_id as int]->Some_0.queue == old(
                p,
            ).mutexes@[mutex_id as int]->Some_0.queue
            &&& final(p).available_mutex@ == old(p).available_mutex@.update(
                mutex_id as int,
                ((old(p).available_mutex@[mutex_id as int] - 1) as usize),
            )
            &&& mat(final(p).allocation_mutex@) == bump_entry(
                mat(old(p).allocation_mutex@),
                tid as int,
                mutex_id as int,
            )
        },
        outcome is Blocked ==> {
            &&& final(p).available_mutex@ == old(p).available_mutex@
            &&& mat(final(p).allocation_mutex@) == mat(old(p).allocation_mutex@)
            &&& final(p).mutexes@[mutex_id as int]->Some_0.locked
            &&& (old(p).mutexes@[mutex_id as int]->Some_0.blocking ==> final(p).mutexes@[mutex_id as int]->Some_0.queue@ == old(
                p,
            ).mutexes@[mutex_id as int]->Some_0.queue@.push(tid))
            &&& (!old(p).mutexes@[mutex_id as int]->Some_0.blocking ==> final(p).mutexes@[mutex_id as int]->Some_0.queue == old(
                p,
            ).mutexes@[mutex_id as int]->Some_0.queue)
        },
{
    let ghost p0 = *old(p);
    proof {
        assert(mat(p0.need_mutex@)[tid as int].len() == p0.available_mutex@.len());
        assert(mat(p0.allocation_mutex@)[tid as int].len() == p0.available_mutex@.len());
    }
    let n0 = p.need_mutex[tid][mutex_id];
    mat_set(&mut p.need_mutex, tid, mutex_id, n0 + 1);
    proof {
        lemma_need_bump_wf(
            p0.available_mutex@,
            p0.allocation_mutex@,
            p0.need_mutex@,
            p.need_mutex@,
            tid as int,
            mutex_id as int,
        );
        assert(mat(p.need_mutex@) =~~= bump_entry(
            mat(p0.need_mutex@),
            tid as int,
            mutex_id as int,
        ));
    }
    if p.deadlock_detect {
        let safe = banker_safe(&p.available_mutex, &p.allocation_mutex, &p.need_mutex);
        if !safe {
            mat_set(&mut p.need_mutex, tid, mutex_id, n0);
            proof {
                assert(mat(p.need_mutex@) =~~= mat(p0.need_mutex@));
            }
            return LockOutcome::Refused;
        }
    }
    let ghost p1 = *p;
    if !mutex_is_locked(&p.mutexes, mutex_id) {
        mutex_set_locked(&mut p.mutexes, mutex_id, true);
        proof {
            lemma_col_sum_upto_entry(
                mat(p.allocation_mutex@),
                tid as int,
                mutex_id as int,
                p.allocation_mutex@.len() as int,
            );
            lemma_col_sum_upto_nonneg(
                mat(p.allocation_mutex@),
                mutex_id as int,
                p.allocation_mutex@.len() as int,
            );
            assert(p0.available_mutex@[mutex_id as int] + col_sum(
                mat(p0.allocation_mutex@),
                mutex_id as int,
            ) == 1);
        }
        let av = p.available_mutex[mutex_id];
        let al = p.allocation_mutex[tid][mutex_id];
        p.available_mutex.set(mutex_id, av - 1);
        mat_set(&mut p.allocation_mutex, tid, mutex_id, al + 1);
        proof {
            lemma_transfer_wf(
                p0.available_mutex@,
                p0.allocation_mutex@,
                p1.need_mutex@,
                p.available_mutex@,
                p.allocation_mutex@,
                tid as int,
                mutex_id as int,
                (av - 1) as usize,
                (al + 1) as usize,
            );
            assert(mat(p.allocation_mutex@) =~~= bump_entry(
                mat(p0.allocation_mutex@),
                tid as int,
                mutex_id as int,
            ));
            assert forall|r: int|
                0 <= r < p.mutexes@.len() && (#[trigger] p.mutexes@[r]) is Some
                    implies p.available_mutex@[r] + col_sum(mat(p.allocation_mutex@), r) == 1 by {
                assert(p0.mutexes@[r] is Some);
                assert(p0.available_mutex@[r] + col_sum(mat(p0.allocation_mutex@), r) == 1);
            }
            assert forall|r: int|
                0 <= r < p.semaphores@.len() && (#[trigger] p.semaphores@[r]) is Some
                    implies p.available_sem@[r] == p.semaphores@[r]->Some_0.count by {
                assert(p0.semaphores@[r] is Some);
            }
        }
        LockOutcome::Granted
    } else {
        if mutex_is_blocking(&p.mutexes, mutex_id) {
            mutex_queue_push(&mut p.mutexes, mutex_id, tid);
        }
        proof {
            assert forall|r: int|
                0 <= r < p.mutexes@.len() && (#[trigger] p.mutexes@[r]) is Some
                    implies p.available_mutex@[r] + col_sum(mat(p.allocation_mutex@), r) == 1 by {
                assert(p0.mutexes@[r] is Some);
                assert(p0.available_mutex@[r] + col_sum(mat(p0.allocation_mutex@), r) == 1);
            }
            assert forall|r: int|
                0 <= r < p.semaphores@.len() && (#[trigger] p.semaphores@[r]) is Some
                    implies p.available_sem@[r] == p.semaphores@[r]->Some_0.count by {
                assert(p0.semaphores@[r] is Some);
            }
        }
        LockOutcome::Blocked
    }
}

/// Re-attempts acquisition for a thread whose request already stands in
/// `need`: a woken waiter of the blocking variant, or a busy-retrying spinner.
/// No `need` bump and no safety check — both happened when the request was
/// first made.
pub fn mutex_lock_retry(p: &mut ProcessState, tid: usize, mutex_id: usize) -> (outcome: LockOutcome)
    requires
        old(p).wf(),
        tid < old(p).thread_count(),
        mutex_id < old(p).mutexes@.len(),
        old(p).mutexes@[mutex_id as int] is Some,
        old(p).need_mutex@[tid as int]@[mutex_id as int] >= old(
            p,
        ).allocation_mutex@[tid as int]@[mutex_id as int] + 1,
        !old(p).mutexes@[mutex_id as int]->Some_0.locked ==> old(
            p,
        ).available_mutex@[mutex_id as int] >= 1,
    ensures
        final(p).wf(),
        !(outcome is Refused),
        outcome is Granted <==> !old(p).mutexes@[mutex_id as int]->Some_0.locked,
        mat(final(p).need_mutex@) == mat(old(p).need_mutex@),
        final(p).mutexes@.len() == old(p).mutexes@.len(),
        forall|k: int|
            0 <= k < old(p).mutexes@.len() && k != mutex_id ==> final(p).mutexes@[k] == old(
                p,
            ).mutexes@[k],
        final(p).mutexes@[mutex_id as int] is Some,
        final(p).mutexes@[mutex_id as int]->Some_0.locked,
        final(p).mutexes@[mutex_id as int]->Some_0.blocking == old(
            p,
        ).mutexes@[mutex_id as int]->Some_0.blocking,
        final(p).semaphores@ == old(p).semaphores@,
        final(p).available_sem@ == old(p).available_sem@,
        final(p).allocation_sem@ == old(p).allocation_sem@,
        final(p).need_sem@ == old(p).need_sem@,
        final(p).condvars@ == old(p).condvars@,
        final(p).deadlock_detect == old(p).deadlock_detect,
        outcome is Granted ==> {
            &&& final(p).mutexes@[mutex_id as int]->Some_0.queue == old(
                p,
            ).mutexes@[mutex_id as int]->Some_0.queue
            &&& final(p).available_mutex@ == old(p).available_mutex@.update(
                mutex_id as int,
                ((old(p).available_mutex@[mutex_id as int] - 1) as usize),
            )
            &&& mat(final(p).allocation_mutex@) == bump_entry(
                mat(old(p).allocation_mutex@),
                tid as int,
                mutex_id as int,
            )
        },
        outcome is Blocked ==> {
            &&& final(p).available_mutex@ == old(p).available_mutex@
            &&& mat(final(p).allocation_mutex@) == mat(old(p).allocation_mutex@)
            &&& (old(p).mutexes@[mutex_id as int]->Some_0.blocking ==> final(p).mutexes@[mutex_id as int]->Some_0.queue@ == old(
                p,
            ).mutexes@[mutex_id as int]->Some_0.queue@.push(tid))
            &&& (!old(p).mutexes@[mutex_id as int]->Some_0.blocking ==> final(p).mutexes@[mutex_id as int]->Some_0.queue == old(
                p,
            ).mutexes@[mutex_id as int]->Some_0.queue)
        },
{
    let ghost p0 = *old(p);
    proof {
        assert(mat(p0.need_mutex@)[tid as int].len() == p0.available_mutex@.len());
        assert(mat(p0.allocation_mutex@)[tid as int].len() == p0.available_mutex@.len());
    }
    if !mutex_is_locked(&p.mutexes, mutex_id) {
        mutex_set_locked(&mut p.mutexes, mutex_id, true);
        proof {
            lemma_col_sum_upto_entry(
                mat(p.allocation_mutex@),
                tid as int,
                mutex_id as int,
                p.allocation_mutex@.len() as int,
            );
            lemma_col_sum_upto_nonneg(
                mat(p.allocation_mutex@),
                mutex_id as int,
                p.allocation_mutex@.len() as int,
            );
            assert(p0.available_mutex@[mutex_id as int] + col_sum(
                mat(p0.allocation_mutex@),
                mutex_id as int,
            ) == 1);
        }
        let av = p.available_mutex[mutex_id];
        let al = p.allocation_mutex[tid][mutex_id];
        p.available_mutex.set(mutex_id, av - 1);
        mat_set(&mut p.allocation_mutex, tid, mutex_id, al + 1);
        proof {
            lemma_transfer_wf(
                p0.available_mutex@,
                p0.allocation_mutex@,
                p0.need_mutex@,
                p.available_mutex@,
                p.allocation_mutex@,
                tid as int,
                mutex_id as int,
                (av - 1) as usize,
                (al + 1) as usize,
            );
            assert(mat(p.allocation_mutex@) =~~= bump_entry(
                mat(p0.allocation_mutex@),
                tid as int,
                mutex_id as int,
            ));
            assert forall|r: int|
                0 <= r < p.mutexes@.len() && (#[trigger] p.mutexes@[r]) is Some
                    implies p.available_mutex@[r] + col_sum(mat(p.allocation_mutex@), r) == 1 by {
                assert(p0.mutexes@[r] is Some);
                assert(p0.available_mutex@[r] + col_sum(mat(p0.allocation_mutex@), r) == 1);
            }
            assert forall|r: int|
                0 <= r < p.semaphores@.len() && (#[trigger] p.semaphores@[r]) is Some
                    implies p.available_sem@[r] == p.semaphores@[r]->Some_0.count by {
                assert(p0.semaphores@[r] is Some);
            }
        }
        LockOutcome::Granted
    } else {
        if mutex_is_blocking(&p.mutexes, mutex_id) {
            mutex_queue_push(&mut p.mutexes, mutex_id, tid);
        }
        proof {
            assert forall|r: int|
                0 <= r < p.mutexes@.len() && (#[trigger] p.mutexes@[r]) is Some
                    implies p.available_mutex@[r] + col_sum(mat(p.allocation_mutex@), r) == 1 by {
                assert(p0.mutexes@[r] is Some);
                assert(p0.available_mutex@[r] + col_sum(mat(p0.allocation_mutex@), r) == 1);
            }
            assert forall|r: int|
                0 <= r < p.semaphores@.len() && (#[trigger] p.semaphores@[r]) is Some
                    implies p.available_sem@[r] == p.semaphores@[r]->Some_0.count by {
                assert(p0.semaphores@[r] is Some);
            }
        }
        LockOutcome::Blocked
    }
}

/// Unlocks mutex `mutex_id`, held by thread `tid`: lowers the thread's `need`
/// and `allocation`, restores `available`, clears the locked flag, and returns
/// the head of the wait queue (FIFO) for the caller to wake — the woken thread
/// re-attempts acquisition itself.  No safety check runs: releasing resources
/// cannot create an unsafe state.
pub fn sys_mutex_unlock(p: &mut ProcessState, tid: usize, mutex_id: usize) -> (wake: Option<usize>)
    requires
        old(p).wf(),
        tid < old(p).thread_count(),
        mutex_id < old(p).mutexes@.len(),
        old(p).mutexes@[mutex_id as int] is Some,
        old(p).allocation_mutex@[tid as int]@[mutex_id as int] >= 1,
    ensures
        final(p).wf(),
        final(p).available_mutex@ == old(p).available_mutex@.update(
            mutex_id as int,
            ((old(p).available_mutex@[mutex_id as int] + 1) as usize),
        ),
        mat(final(p).allocation_mutex@) == drop_entry(
            mat(old(p).allocation_mutex@),
            tid as int,
            mutex_id as int,
        ),
        mat(final(p).need_mutex@) == drop_entry(
            mat(old(p).need_mutex@),
            tid as int,
            mutex_id as int,
        ),
        final(p).mutexes@.len() == old(p).mutexes@.len(),
        forall|k: int|
            0 <= k < old(p).mutexes@.len() && k != mutex_id ==> final(p).mutexes@[k] == old(
                p,
            ).mutexes@[k],
        final(p).mutexes@[mutex_id as int] is Some,
        !final(p).mutexes@[mutex_id as int]->Some_0.locked,
        final(p).mutexes@[mutex_id as int]->Some_0.blocking == old(
            p,
        ).mutexes@[mutex_id as int]->Some_0.blocking,
        old(p).mutexes@[mutex_id as int]->Some_0.queue@.len() == 0 ==> wake is None && final(p).mutexes@[mutex_id as int]->Some_0.queue == old(p).mutexes@[mutex_id as int]->Some_0.queue,
        old(p).mutexes@[mutex_id as int]->Some_0.queue@.len() > 0 ==> wake == Some(
            old(p).mutexes@[mutex_id as int]->Some_0.queue@[0],
        ) && final(p).mutexes@[mutex_id as int]->Some_0.queue@ == old(
            p,
        ).mutexes@[mutex_id as int]->Some_0.queue@.subrange(
            1,
            old(p).mutexes@[mutex_id as int]->Some_0.queue@.len() as int,
        ),
        final(p).semaphores@ == old(p).semaphores@,
        final(p).available_sem@ == old(p).available_sem@,
        final(p).allocation_sem@ == old(p).allocation_sem@,
        final(p).need_sem@ == old(p).need_sem@,
        final(p).condvars@ == old(p).condvars@,
        final(p).deadlock_detect == old(p).deadlock_detect,
{
    let ghost p0 = *old(p);
    proof {
        assert(mat(p0.need_mutex@)[tid as int].len() == p0.available_mutex@.len());
        assert(mat(p0.allocation_mutex@)[tid as int].len() == p0.available_mutex@.len());
        assert(mat(p0.allocation_mutex@)[tid as int][mutex_id as int] <= mat(
            p0.need_mutex@,
        )[tid as int][mutex_id as int]);
        lemma_avail_headroom(
            p0.available_mutex@,
            p0.allocation_mutex@,
            p0.need_mutex@,
            tid as int,
            mutex_id as int,
        );
    }
    let av = p.available_mutex[mutex_id];
    let al = p.allocation_mutex[tid][mutex_id];
    let nd = p.need_mutex[tid][mutex_id];
    p.available_mutex.set(mutex_id, av + 1);
    mat_set(&mut p.allocation_mutex, tid, mutex_id, al - 1);
    proof {
        lemma_transfer_wf(
            p0.available_mutex@,
            p0.allocation_mutex@,
            p0.need_mutex@,
            p.available_mutex@,
            p.allocation_mutex@,
            tid as int,
            mutex_id as int,
            ((av + 1) as usize),
            ((al - 1) as usize),
        );
        assert(mat(p.allocation_mutex@) =~~= drop_entry(
            mat(p0.allocation_mutex@),
            tid as int,
            mutex_id as int,
        ));
    }
    let ghost p1 = *p;
    mat_set(&mut p.need_mutex, tid, mutex_id, nd - 1);
    proof {
        lemma_need_drop_wf(
            p1.available_mutex@,
            p1.allocation_mutex@,
            p1.need_mutex@,
            p.need_mutex@,
            tid as int,
            mutex_id as int,
        );
        assert(mat(p.need_mutex@) =~~= drop_entry(
            mat(p0.need_mutex@),
            tid as int,
            mutex_id as int,
        ));
    }
    mutex_set_locked(&mut p.mutexes, mutex_id, false);
    let wake = mutex_queue_pop(&mut p.mutexes, mutex_id);
    proof {
        assert forall|r: int|
            0 <= r < p.mutexes@.len() && (#[trigger] p.mutexes@[r]) is Some
                implies p.available_mutex@[r] + col_sum(mat(p.allocation_mutex@), r) == 1 by {
            assert(p0.mutexes@[r] is Some);
            assert(p0.available_mutex@[r] + col_sum(mat(p0.allocation_mutex@), r) == 1);
        }
        assert forall|r: int|
            0 <= r < p.semaphores@.len() && (#[trigger] p.semaphores@[r]) is Some
                implies p.available_sem@[r] == p.semaphores@[r]->Some_0.count by {
            assert(p0.semaphores@[r] is Some);
        }
    }
    wake
}

} // verus!
