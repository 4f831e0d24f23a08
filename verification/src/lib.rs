//! Synchronization and resource-safety layer of a small teaching kernel:
//! process-local mutexes, counting semaphores and condition variables, a
//! per-process resource matrix of available/allocated/needed units, and a
//! Banker's-algorithm safety check that runs before any blocking request is
//! granted.
//!
//! All state lives in [`state::ProcessState`], one per process.  The syscall
//! entry points are pure state transitions: whatever may suspend the calling
//! thread (the scheduler, the timer) stays with the caller, which receives the
//! decision — granted, refused, or blocked — together with any thread to wake.

pub mod banker;
pub mod state;
pub mod registry;
pub mod locks;
pub mod sems;
pub mod condvars;
pub mod laws;

pub use banker::banker_safe;
pub use state::{ProcessState, MutexObj, SemObj, CondvarObj, LockOutcome};
pub use state::{sys_enable_deadlock_detect, sys_sleep, add_thread};
pub use registry::{sys_mutex_create, sys_semaphore_create, sys_condvar_create, first_free};
pub use locks::{sys_mutex_lock, sys_mutex_unlock, mutex_lock_retry, lock_request_unsafe};
pub use sems::{sys_semaphore_up, sys_semaphore_down, semaphore_down_retry, down_request_unsafe};
pub use condvars::{sys_condvar_signal, sys_condvar_wait, condvar_wait_relock};
