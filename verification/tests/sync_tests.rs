use ksync::{
    add_thread, condvar_wait_relock, mutex_lock_retry, semaphore_down_retry, sys_condvar_create,
    sys_condvar_signal, sys_condvar_wait, sys_enable_deadlock_detect, sys_mutex_create,
    sys_mutex_lock, sys_mutex_unlock, sys_semaphore_create, sys_semaphore_down, sys_semaphore_up,
    sys_sleep, LockOutcome, ProcessState,
};

fn process_with_threads(n: usize) -> ProcessState {
    let mut p = ProcessState::new();
    let mut i: usize = 0;
    while i < n {
        add_thread(&mut p);
        i += 1;
    }
    p
}

fn mutex_column_sum(p: &ProcessState, r: usize) -> usize {
    let mut total: usize = 0;
    for row in &p.allocation_mutex {
        total += row[r];
    }
    total
}

#[test]
fn mutex_units_conserved_through_create_lock_unlock() {
    let mut p = process_with_threads(2);
    let id = sys_mutex_create(&mut p, true) as usize;
    assert_eq!(p.available_mutex[id] + mutex_column_sum(&p, id), 1);
    assert_eq!(sys_mutex_lock(&mut p, 0, id), LockOutcome::Granted);
    assert_eq!(p.available_mutex[id] + mutex_column_sum(&p, id), 1);
    assert_eq!(sys_mutex_lock(&mut p, 1, id), LockOutcome::Blocked);
    assert_eq!(p.available_mutex[id] + mutex_column_sum(&p, id), 1);
    let wake = sys_mutex_unlock(&mut p, 0, id);
    assert_eq!(wake, Some(1));
    assert_eq!(p.available_mutex[id] + mutex_column_sum(&p, id), 1);
    assert_eq!(mutex_lock_retry(&mut p, 1, id), LockOutcome::Granted);
    assert_eq!(p.available_mutex[id] + mutex_column_sum(&p, id), 1);
}

#[test]
fn self_deadlock_rejected_on_second_lock() {
    // One thread, one mutex: lock held, detection enabled, second lock must
    // be flagged unsafe and return the deadlock sentinel.
    let mut p = process_with_threads(1);
    let id = sys_mutex_create(&mut p, true) as usize;
    assert_eq!(sys_mutex_lock(&mut p, 0, id), LockOutcome::Granted);
    assert_eq!(sys_enable_deadlock_detect(&mut p, 1), 0);
    let outcome = sys_mutex_lock(&mut p, 0, id);
    assert_eq!(outcome, LockOutcome::Refused);
    assert_eq!(outcome.code(), -0xDEAD);
}

#[test]
fn rejected_request_leaves_need_unchanged() {
    let mut p = process_with_threads(1);
    let id = sys_mutex_create(&mut p, true) as usize;
    assert_eq!(sys_mutex_lock(&mut p, 0, id), LockOutcome::Granted);
    sys_enable_deadlock_detect(&mut p, 1);
    let need_before = p.need_mutex[0][id];
    let alloc_before = p.allocation_mutex[0][id];
    let avail_before = p.available_mutex[id];
    assert_eq!(sys_mutex_lock(&mut p, 0, id), LockOutcome::Refused);
    assert_eq!(p.need_mutex[0][id], need_before);
    assert_eq!(p.allocation_mutex[0][id], alloc_before);
    assert_eq!(p.available_mutex[id], avail_before);
}

#[test]
fn enabling_detection_is_not_retroactive() {
    // Grant with detection off, then enable: nothing already granted moves,
    // and a safe follow-up request is still granted.
    let mut p = process_with_threads(2);
    let a = sys_mutex_create(&mut p, true) as usize;
    let b = sys_mutex_create(&mut p, true) as usize;
    assert_eq!(sys_mutex_lock(&mut p, 0, a), LockOutcome::Granted);
    let alloc_before = p.allocation_mutex[0][a];
    let avail_before = p.available_mutex[a];
    assert_eq!(sys_enable_deadlock_detect(&mut p, 1), 0);
    assert!(p.deadlock_detect);
    assert_eq!(p.allocation_mutex[0][a], alloc_before);
    assert_eq!(p.available_mutex[a], avail_before);
    assert_eq!(sys_mutex_lock(&mut p, 1, b), LockOutcome::Granted);
    assert_eq!(sys_enable_deadlock_detect(&mut p, 0), 0);
    assert!(!p.deadlock_detect);
}

#[test]
fn cross_lock_deadlock_avoided() {
    // Two threads, two mutexes, detection on.  Each takes one mutex; the
    // first's request for the other is safe (the second can still finish) and
    // queues, but the second's counter-request would close the cycle and is
    // refused.
    let mut p = process_with_threads(2);
    let a = sys_mutex_create(&mut p, true) as usize;
    let b = sys_mutex_create(&mut p, true) as usize;
    sys_enable_deadlock_detect(&mut p, 1);
    assert_eq!(sys_mutex_lock(&mut p, 0, a), LockOutcome::Granted);
    assert_eq!(sys_mutex_lock(&mut p, 1, b), LockOutcome::Granted);
    assert_eq!(sys_mutex_lock(&mut p, 0, b), LockOutcome::Blocked);
    let outcome = sys_mutex_lock(&mut p, 1, a);
    assert_eq!(outcome, LockOutcome::Refused);
    assert_eq!(outcome.code(), -0xDEAD);
}

#[test]
fn semaphore_down_blocks_on_zero_until_up() {
    let mut p = process_with_threads(2);
    let id = sys_semaphore_create(&mut p, 1) as usize;
    assert_eq!(sys_semaphore_down(&mut p, 0, id), LockOutcome::Granted);
    assert_eq!(p.available_sem[id], 0);
    // count is zero: the second down queues and the caller suspends
    assert_eq!(sys_semaphore_down(&mut p, 1, id), LockOutcome::Blocked);
    assert_eq!(p.available_sem[id], 0);
    // a matching up wakes the queued thread, which then takes the unit
    let wake = sys_semaphore_up(&mut p, 0, id);
    assert_eq!(wake, Some(1));
    assert_eq!(p.available_sem[id], 1);
    assert_eq!(semaphore_down_retry(&mut p, 1, id), LockOutcome::Granted);
    assert_eq!(p.available_sem[id], 0);
}

#[test]
fn semaphore_counts_multiple_units() {
    let mut p = process_with_threads(3);
    let id = sys_semaphore_create(&mut p, 2) as usize;
    assert_eq!(sys_semaphore_down(&mut p, 0, id), LockOutcome::Granted);
    assert_eq!(sys_semaphore_down(&mut p, 1, id), LockOutcome::Granted);
    assert_eq!(p.available_sem[id], 0);
    assert_eq!(sys_semaphore_down(&mut p, 2, id), LockOutcome::Blocked);
    assert_eq!(sys_semaphore_up(&mut p, 0, id), Some(2));
    assert_eq!(semaphore_down_retry(&mut p, 2, id), LockOutcome::Granted);
    assert_eq!(sys_semaphore_up(&mut p, 1, id), None);
    assert_eq!(p.available_sem[id], 1);
}

#[test]
fn slot_reuse_resets_matrix_columns() {
    // Create, take a unit, free the slot by hand, create again: the reused
    // column must come back as (initial units, 0, 0) for every thread.
    let mut p = process_with_threads(2);
    let id = sys_semaphore_create(&mut p, 5) as usize;
    assert_eq!(id, 0);
    assert_eq!(sys_semaphore_down(&mut p, 1, id), LockOutcome::Granted);
    assert_eq!(p.allocation_sem[1][id], 1);
    assert_eq!(p.need_sem[1][id], 1);
    p.semaphores[0] = None;
    let id2 = sys_semaphore_create(&mut p, 2) as usize;
    assert_eq!(id2, 0);
    assert_eq!(p.available_sem[0], 2);
    let mut t: usize = 0;
    while t < 2 {
        assert_eq!(p.allocation_sem[t][0], 0);
        assert_eq!(p.need_sem[t][0], 0);
        t += 1;
    }
}

#[test]
fn mutex_slot_reuse_and_append() {
    let mut p = process_with_threads(1);
    let a = sys_mutex_create(&mut p, true);
    let b = sys_mutex_create(&mut p, false);
    assert_eq!(a, 0);
    assert_eq!(b, 1);
    p.mutexes[0] = None;
    let c = sys_mutex_create(&mut p, false);
    assert_eq!(c, 0);
    assert_eq!(p.mutexes.len(), 2);
    assert_eq!(p.available_mutex[0], 1);
}

#[test]
fn blocking_mutex_queue_is_fifo() {
    let mut p = process_with_threads(3);
    let id = sys_mutex_create(&mut p, true) as usize;
    assert_eq!(sys_mutex_lock(&mut p, 0, id), LockOutcome::Granted);
    assert_eq!(sys_mutex_lock(&mut p, 1, id), LockOutcome::Blocked);
    assert_eq!(sys_mutex_lock(&mut p, 2, id), LockOutcome::Blocked);
    assert_eq!(sys_mutex_unlock(&mut p, 0, id), Some(1));
    assert_eq!(mutex_lock_retry(&mut p, 1, id), LockOutcome::Granted);
    assert_eq!(sys_mutex_unlock(&mut p, 1, id), Some(2));
    assert_eq!(mutex_lock_retry(&mut p, 2, id), LockOutcome::Granted);
    assert_eq!(sys_mutex_unlock(&mut p, 2, id), None);
}

#[test]
fn spin_mutex_never_queues() {
    let mut p = process_with_threads(2);
    let id = sys_mutex_create(&mut p, false) as usize;
    assert_eq!(sys_mutex_lock(&mut p, 0, id), LockOutcome::Granted);
    assert_eq!(sys_mutex_lock(&mut p, 1, id), LockOutcome::Blocked);
    match &p.mutexes[id] {
        Some(m) => assert_eq!(m.queue.len(), 0),
        None => panic!("slot must be live"),
    }
    // the spinner busy-retries; after the unlock a retry succeeds
    assert_eq!(sys_mutex_unlock(&mut p, 0, id), None);
    assert_eq!(mutex_lock_retry(&mut p, 1, id), LockOutcome::Granted);
}

#[test]
fn condvar_wait_releases_mutex_and_signal_wakes() {
    let mut p = process_with_threads(2);
    let m = sys_mutex_create(&mut p, true) as usize;
    let cv = sys_condvar_create(&mut p) as usize;
    assert_eq!(sys_mutex_lock(&mut p, 0, m), LockOutcome::Granted);
    // the waiter releases the mutex and parks on the condition variable
    let wake = sys_condvar_wait(&mut p, 0, cv, m);
    assert_eq!(wake, None);
    match &p.mutexes[m] {
        Some(mo) => assert!(!mo.locked),
        None => panic!("slot must be live"),
    }
    match &p.condvars[cv] {
        Some(c) => assert_eq!(c.queue, vec![0usize]),
        None => panic!("slot must be live"),
    }
    // its allocation stays recorded while parked
    assert_eq!(p.allocation_mutex[0][m], 1);
    // a signal hands the waiter back, which re-locks and proceeds
    assert_eq!(sys_condvar_signal(&mut p, cv), Some(0));
    assert_eq!(condvar_wait_relock(&mut p, 0, m), LockOutcome::Granted);
    match &p.mutexes[m] {
        Some(mo) => assert!(mo.locked),
        None => panic!("slot must be live"),
    }
    assert_eq!(sys_mutex_unlock(&mut p, 0, m), None);
}

#[test]
fn condvar_signal_on_empty_queue_is_noop() {
    let mut p = process_with_threads(1);
    let cv = sys_condvar_create(&mut p) as usize;
    assert_eq!(sys_condvar_signal(&mut p, cv), None);
}

#[test]
fn condvar_relock_queues_when_mutex_stolen() {
    // Weak contract: a second locker may take the mutex between signal and
    // resume; the woken waiter then queues on the mutex like any other.
    let mut p = process_with_threads(2);
    let m = sys_mutex_create(&mut p, true) as usize;
    let cv = sys_condvar_create(&mut p) as usize;
    assert_eq!(sys_mutex_lock(&mut p, 0, m), LockOutcome::Granted);
    sys_condvar_wait(&mut p, 0, cv, m);
    assert_eq!(sys_condvar_signal(&mut p, cv), Some(0));
    // thread 1 steals the mutex before thread 0 resumes
    assert_eq!(condvar_wait_relock(&mut p, 1, m), LockOutcome::Granted);
    assert_eq!(condvar_wait_relock(&mut p, 0, m), LockOutcome::Blocked);
    match &p.mutexes[m] {
        Some(mo) => assert_eq!(mo.queue, vec![0usize]),
        None => panic!("slot must be live"),
    }
}

#[test]
fn sleep_computes_wake_deadline() {
    assert_eq!(sys_sleep(0, 0), 0);
    assert_eq!(sys_sleep(100, 50), 150);
    assert_eq!(sys_sleep(1000, 234), 1234);
}

#[test]
fn enable_detect_accepts_only_one_as_on() {
    let mut p = ProcessState::new();
    assert!(!p.deadlock_detect);
    assert_eq!(sys_enable_deadlock_detect(&mut p, 1), 0);
    assert!(p.deadlock_detect);
    assert_eq!(sys_enable_deadlock_detect(&mut p, 2), 0);
    assert!(!p.deadlock_detect);
    assert_eq!(sys_enable_deadlock_detect(&mut p, 0), 0);
    assert!(!p.deadlock_detect);
}

#[test]
fn lock_outcome_codes_match_sentinels() {
    assert_eq!(LockOutcome::Granted.code(), 0);
    assert_eq!(LockOutcome::Blocked.code(), 0);
    assert_eq!(LockOutcome::Refused.code(), -0xDEAD);
    assert_eq!(LockOutcome::Refused.code(), -57005);
}

#[test]
fn new_thread_gets_zero_columns() {
    // Growth rule: a new thread's rows appear zero-initialized for every
    // existing slot, and existing rows keep their counts.
    let mut p = process_with_threads(1);
    let m = sys_mutex_create(&mut p, true) as usize;
    let s = sys_semaphore_create(&mut p, 3) as usize;
    assert_eq!(sys_mutex_lock(&mut p, 0, m), LockOutcome::Granted);
    let tid = add_thread(&mut p);
    assert_eq!(tid, 1);
    assert_eq!(p.allocation_mutex[1][m], 0);
    assert_eq!(p.need_mutex[1][m], 0);
    assert_eq!(p.allocation_sem[1][s], 0);
    assert_eq!(p.need_sem[1][s], 0);
    assert_eq!(p.allocation_mutex[0][m], 1);
    assert_eq!(sys_mutex_lock(&mut p, 1, m), LockOutcome::Blocked);
}

#[test]
fn condvar_wait_wakes_queued_locker() {
    // A wait releases the mutex and hands out the mutex queue's head for the
    // caller to wake.
    let mut p = process_with_threads(2);
    let m = sys_mutex_create(&mut p, true) as usize;
    let cv = sys_condvar_create(&mut p) as usize;
    assert_eq!(sys_mutex_lock(&mut p, 0, m), LockOutcome::Granted);
    assert_eq!(sys_mutex_lock(&mut p, 1, m), LockOutcome::Blocked);
    let wake = sys_condvar_wait(&mut p, 0, cv, m);
    assert_eq!(wake, Some(1));
    match &p.mutexes[m] {
        Some(mo) => {
            assert!(!mo.locked);
            assert_eq!(mo.queue.len(), 0);
        }
        None => panic!("slot must be live"),
    }
}
