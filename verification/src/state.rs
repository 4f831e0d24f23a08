//! Per-process synchronization state: the primitive objects, the resource
//! matrices for the mutex and semaphore classes, and the deadlock-detection
//! flag.
//!
//! Bookkeeping convention: `need[t][r]` counts the units thread `t` has asked
//! for and not yet returned (held plus pending), so `need[t][r] -
//! allocation[t][r]` is the demand still outstanding.  A lock or down call
//! raises `need` before anything else; a rejected request restores it; a mutex
//! unlock lowers both `need` and `allocation`.

use vstd::prelude::*;
use vstd::pervasive::VecAdditionalExecFns;
use crate::banker::{matrix_wf, mat, col_sum};

verus! {

/// Mutex object: a locked flag, the variant selector, and the FIFO wait queue
/// of suspended thread ids (always empty for the busy-spin variant).
pub struct MutexObj {
    pub blocking: bool,
    pub locked: bool,
    pub queue: Vec<usize>,
}

/// Counting semaphore object: units at hand and the FIFO wait queue.
pub struct SemObj {
    pub count: usize,
    pub queue: Vec<usize>,
}

/// Condition variable object: only a FIFO wait queue.
pub struct CondvarObj {
    pub queue: Vec<usize>,
}

/// Decision of a blocking acquisition request.
///
/// `Granted` ends the syscall with result 0.  `Refused` ends it with the
/// deadlock sentinel, the state left as if the request had never been made.
/// `Blocked` means the caller must suspend the thread and retry once woken.
#[derive(Clone, Copy, PartialEq, Eq, Structural, Debug)]
pub enum LockOutcome {
    Granted,
    Refused,
    Blocked,
}

impl LockOutcome {
    /// Syscall result value: 0 on success, the deadlock sentinel on refusal.
    pub fn code(&self) -> (r: isize)
        ensures
            *self is Refused ==> r == -0xDEAD,
            !(*self is Refused) ==> r == 0,
    {
        match self {
            LockOutcome::Refused => -0xDEAD,
            _ => 0,
        }
    }
}

/// All synchronization state of one process.
pub struct ProcessState {
    pub mutexes: Vec<Option<MutexObj>>,
    pub available_mutex: Vec<usize>,
    pub allocation_mutex: Vec<Vec<usize>>,
    pub need_mutex: Vec<Vec<usize>>,
    pub semaphores: Vec<Option<SemObj>>,
    pub available_sem: Vec<usize>,
    pub allocation_sem: Vec<Vec<usize>>,
    pub need_sem: Vec<Vec<usize>>,
    pub condvars: Vec<Option<CondvarObj>>,
    pub deadlock_detect: bool,
}

impl ProcessState {
    /// Number of live threads: every matrix has one row per thread.
    pub open spec fn thread_count(&self) -> nat {
        self.allocation_mutex@.len()
    }

    /// Well-formedness: both resource classes have well-shaped matrices, all
    /// row counts agree, every live mutex slot accounts for exactly one unit
    /// between `available` and the allocation column, and every live semaphore
    /// slot's `available` entry mirrors the object's count.
    pub open spec fn wf(&self) -> bool {
        &&& matrix_wf(self.available_mutex@, mat(self.allocation_mutex@), mat(self.need_mutex@))
        &&& matrix_wf(self.available_sem@, mat(self.allocation_sem@), mat(self.need_sem@))
        &&& self.need_mutex@.len() == self.thread_count()
        &&& self.allocation_sem@.len() == self.thread_count()
        &&& self.need_sem@.len() == self.thread_count()
        &&& self.available_mutex@.len() == self.mutexes@.len()
        &&& self.available_sem@.len() == self.semaphores@.len()
        &&& (forall|r: int|
            0 <= r < self.mutexes@.len() && (#[trigger] self.mutexes@[r]) is Some
                ==> self.available_mutex@[r] + col_sum(mat(self.allocation_mutex@), r) == 1)
        &&& (forall|r: int|
            0 <= r < self.semaphores@.len() && (#[trigger] self.semaphores@[r]) is Some
                ==> self.available_sem@[r] == self.semaphores@[r]->Some_0.count)
    }

    /// Fresh process: no threads, no resource slots, detection off.
    pub fn new() -> (p: ProcessState)
        ensures
            p.wf(),
            p.thread_count() == 0,
            p.mutexes@.len() == 0,
            p.semaphores@.len() == 0,
            p.condvars@.len() == 0,
            !p.deadlock_detect,
    {
        ProcessState {
            mutexes: Vec::new(),
            available_mutex: Vec::new(),
            allocation_mutex: Vec::new(),
            need_mutex: Vec::new(),
            semaphores: Vec::new(),
            available_sem: Vec::new(),
            allocation_sem: Vec::new(),
            need_sem: Vec::new(),
            condvars: Vec::new(),
            deadlock_detect: false,
        }
    }
}

/// Switches the per-process deadlock-detection flag: 1 turns detection on,
/// anything else turns it off.  No other effect: already granted allocations
/// are untouched, only later requests are checked.
pub fn sys_enable_deadlock_detect(p: &mut ProcessState, enabled: usize) -> (r: isize)
    requires
        old(p).wf(),
    ensures
        final(p).wf(),
        r == 0,
        final(p).deadlock_detect == (enabled == 1),
        final(p).mutexes@ == old(p).mutexes@,
        final(p).available_mutex@ == old(p).available_mutex@,
        final(p).allocation_mutex@ == old(p).allocation_mutex@,
        final(p).need_mutex@ == old(p).need_mutex@,
        final(p).semaphores@ == old(p).semaphores@,
        final(p).available_sem@ == old(p).available_sem@,
        final(p).allocation_sem@ == old(p).allocation_sem@,
        final(p).need_sem@ == old(p).need_sem@,
        final(p).condvars@ == old(p).condvars@,
{
    if enabled == 1 {
        p.deadlock_detect = true;
    } else {
        p.deadlock_detect = false;
    }
    0
}

/// Computes the wall-clock deadline of a sleep request.  The caller registers
/// the deadline with the timer and suspends the thread; the syscall's result
/// is 0 once the thread is woken.
pub fn sys_sleep(now_ms: usize, ms: usize) -> (wake_at: usize)
    requires
        now_ms + ms <= usize::MAX,
    ensures
        wake_at == now_ms + ms,
{
    now_ms + ms
}

/// Grows every matrix by one zero row: called at the thread-creation boundary
/// so that the shape invariant `row count == live thread count` keeps holding.
pub fn add_thread(p: &mut ProcessState) -> (tid: usize)
    requires
        old(p).wf(),
        old(p).thread_count() < usize::MAX,
    ensures
        final(p).wf(),
        tid == old(p).thread_count(),
        final(p).thread_count() == old(p).thread_count() + 1,
        final(p).need_mutex@.len() == old(p).need_mutex@.len() + 1,
        final(p).allocation_sem@.len() == old(p).allocation_sem@.len() + 1,
        final(p).need_sem@.len() == old(p).need_sem@.len() + 1,
        forall|t: int| 0 <= t < old(p).thread_count() ==> {
            &&& final(p).allocation_mutex@[t] == old(p).allocation_mutex@[t]
            &&& final(p).need_mutex@[t] == old(p).need_mutex@[t]
            &&& final(p).allocation_sem@[t] == old(p).allocation_sem@[t]
            &&& final(p).need_sem@[t] == old(p).need_sem@[t]
        },
        forall|j: int| 0 <= j < old(p).mutexes@.len() ==> {
            &&& final(p).allocation_mutex@[old(p).thread_count() as int]@[j] == 0
            &&& final(p).need_mutex@[old(p).thread_count() as int]@[j] == 0
        },
        forall|j: int| 0 <= j < old(p).semaphores@.len() ==> {
            &&& final(p).allocation_sem@[old(p).thread_count() as int]@[j] == 0
            &&& final(p).need_sem@[old(p).thread_count() as int]@[j] == 0
        },
        final(p).mutexes@ == old(p).mutexes@,
        final(p).available_mutex@ == old(p).available_mutex@,
        final(p).semaphores@ == old(p).semaphores@,
        final(p).available_sem@ == old(p).available_sem@,
        final(p).condvars@ == old(p).condvars@,
        final(p).deadlock_detect == old(p).deadlock_detect,
{
    let tid = p.allocation_mutex.len();
    let row_m = zero_row(p.available_mutex.len());
    let row_n = zero_row(p.available_mutex.len());
    let row_s = zero_row(p.available_sem.len());
    let row_t = zero_row(p.available_sem.len());
    p.allocation_mutex.push(row_m);
    p.need_mutex.push(row_n);
    p.allocation_sem.push(row_s);
    p.need_sem.push(row_t);
    proof {
        lemma_push_zero_row_wf(
            old(p).available_mutex@,
            old(p).allocation_mutex@,
            old(p).need_mutex@,
            p.allocation_mutex@,
            p.need_mutex@,
        );
        lemma_push_zero_row_wf(
            old(p).available_sem@,
            old(p).allocation_sem@,
            old(p).need_sem@,
            p.allocation_sem@,
            p.need_sem@,
        );
    }
    tid
}

/// A fresh all-zero matrix row of the given width.
fn zero_row(width: usize) -> (row: Vec<usize>)
    ensures
        row@.len() == width,
        forall|j: int| 0 <= j < width ==> row@[j] == 0,
{
    let mut row: Vec<usize> = Vec::new();
    let mut j: usize = 0;
    while j < width
        invariant
            j <= width,
            row@.len() == j,
            forall|i: int| 0 <= i < j ==> row@[i] == 0,
        decreases width - j,
    {
        row.push(0);
        j = j + 1;
    }
    row
}

/// Appending one all-zero row to `alloc` and `need` preserves the matrix
/// invariants and every column sum.
proof fn lemma_push_zero_row_wf(
    avail: Seq<usize>,
    alloc_old: Seq<Vec<usize>>,
    need_old: Seq<Vec<usize>>,
    alloc_new: Seq<Vec<usize>>,
    need_new: Seq<Vec<usize>>,
)
    requires
        matrix_wf(avail, mat(alloc_old), mat(need_old)),
        alloc_new.len() == alloc_old.len() + 1,
        need_new.len() == need_old.len() + 1,
        forall|t: int| 0 <= t < alloc_old.len() ==> alloc_new[t] == alloc_old[t],
        forall|t: int| 0 <= t < need_old.len() ==> need_new[t] == need_old[t],
        alloc_new[alloc_old.len() as int]@.len() == avail.len(),
        need_new[need_old.len() as int]@.len() == avail.len(),
        forall|j: int| 0 <= j < avail.len() ==> alloc_new[alloc_old.len() as int]@[j] == 0,
        forall|j: int| 0 <= j < avail.len() ==> need_new[need_old.len() as int]@[j] == 0,
    ensures
        matrix_wf(avail, mat(alloc_new), mat(need_new)),
        forall|j: int|
            0 <= j < avail.len() ==> #[trigger] col_sum(mat(alloc_new), j) == col_sum(
                mat(alloc_old),
                j,
            ),
{
    let ma_old = mat(alloc_old);
    let ma_new = mat(alloc_new);
    let mn_old = mat(need_old);
    let mn_new = mat(need_new);
    let n = alloc_old.len() as int;
    assert forall|i: int| 0 <= i < ma_new.len() implies (#[trigger] ma_new[i]).len()
        == avail.len() by {
        if i < n {
            assert(ma_old[i].len() == avail.len());
            assert(ma_new[i] == ma_old[i]);
        }
    }
    assert forall|i: int| 0 <= i < mn_new.len() implies (#[trigger] mn_new[i]).len()
        == avail.len() by {
        if i < n {
            assert(mn_old[i].len() == avail.len());
            assert(mn_new[i] == mn_old[i]);
        }
    }
    assert forall|i: int, j: int|
        0 <= i < mn_new.len() && 0 <= j < avail.len() implies ma_new[i][j] <= #[trigger] mn_new[i][j] by {
        if i < n {
            assert(ma_new[i] == ma_old[i]);
            assert(mn_new[i] == mn_old[i]);
            assert(ma_old[i][j] <= mn_old[i][j]);
        }
    }
    assert forall|j: int|
        0 <= j < avail.len() implies #[trigger] col_sum(ma_new, j) == col_sum(ma_old, j) by {
        crate::banker::lemma_col_sum_upto_pointwise(ma_new, ma_old, j, n);
        assert(crate::banker::col_sum_upto(ma_new, j, n + 1) == crate::banker::col_sum_upto(
            ma_new,
            j,
            n,
        ) + ma_new[n][j]);
    }
}

/// Writes one entry of a matrix held as a vector of rows.
pub(crate) fn mat_set(m: &mut Vec<Vec<usize>>, i: usize, j: usize, v: usize)
    requires
        i < old(m)@.len(),
        j < old(m)@[i as int]@.len(),
    ensures
        final(m)@.len() == old(m)@.len(),
        forall|t: int| 0 <= t < old(m)@.len() && t != i ==> final(m)@[t] == old(m)@[t],
        final(m)@[i as int]@ == old(m)@[i as int]@.update(j as int, v),
{
    let row = &mut m[i];
    row.set(j, v);
}

/// Appends one entry to every row of a matrix: a fresh zero column.
pub(crate) fn mat_push_col(m: &mut Vec<Vec<usize>>, v: usize)
    ensures
        final(m)@.len() == old(m)@.len(),
        forall|t: int| 0 <= t < old(m)@.len() ==> final(m)@[t]@ == old(m)@[t]@.push(v),
{
    let n = m.len();
    let mut t: usize = 0;
    while t < n
        invariant
            t <= n,
            n == m@.len(),
            m@.len() == old(m)@.len(),
            forall|t2: int| 0 <= t2 < t ==> m@[t2]@ == old(m)@[t2]@.push(v),
            forall|t2: int| t <= t2 < n ==> m@[t2] == old(m)@[t2],
        decreases n - t,
    {
        let row = &mut m[t];
        row.push(v);
        t = t + 1;
    }
}

/// Raising one `need` entry by one preserves the matrix invariants.
pub(crate) proof fn lemma_need_bump_wf(
    avail: Seq<usize>,
    alloc: Seq<Vec<usize>>,
    need_old: Seq<Vec<usize>>,
    need_new: Seq<Vec<usize>>,
    t0: int,
    j0: int,
)
    requires
        matrix_wf(avail, mat(alloc), mat(need_old)),
        0 <= t0 < need_old.len(),
        0 <= j0 < avail.len(),
        need_new.len() == need_old.len(),
        forall|t: int| 0 <= t < need_old.len() && t != t0 ==> need_new[t] == need_old[t],
        need_new[t0]@ == need_old[t0]@.update(j0, ((need_old[t0]@[j0] + 1) as usize)),
        need_old[t0]@[j0] < usize::MAX,
    ensures
        matrix_wf(avail, mat(alloc), mat(need_new)),
{
    let mn_o = mat(need_old);
    let mn_n = mat(need_new);
    let ma = mat(alloc);
    assert(mn_o[t0].len() == avail.len());
    assert forall|i: int| 0 <= i < mn_n.len() implies (#[trigger] mn_n[i]).len()
        == avail.len() by {
        assert(mn_o[i].len() == avail.len());
    }
    assert forall|i: int, j: int|
        0 <= i < mn_n.len() && 0 <= j < avail.len() implies ma[i][j] <= #[trigger] mn_n[i][j] by {
        assert(ma[i][j] <= mn_o[i][j]);
    }
}

/// Lowering one `need` entry by one keeps the matrix invariants, provided the
/// entry stays at or above the thread's allocation.
pub(crate) proof fn lemma_need_drop_wf(
    avail: Seq<usize>,
    alloc: Seq<Vec<usize>>,
    need_old: Seq<Vec<usize>>,
    need_new: Seq<Vec<usize>>,
    t0: int,
    j0: int,
)
    requires
        matrix_wf(avail, mat(alloc), mat(need_old)),
        0 <= t0 < need_old.len(),
        0 <= j0 < avail.len(),
        need_old[t0]@[j0] >= 1,
        need_old[t0]@[j0] - 1 >= mat(alloc)[t0][j0],
        need_new.len() == need_old.len(),
        forall|t: int| 0 <= t < need_old.len() && t != t0 ==> need_new[t] == need_old[t],
        need_new[t0]@ == need_old[t0]@.update(j0, ((need_old[t0]@[j0] - 1) as usize)),
    ensures
        matrix_wf(avail, mat(alloc), mat(need_new)),
{
    let mn_o = mat(need_old);
    let mn_n = mat(need_new);
    let ma = mat(alloc);
    assert(mn_o[t0].len() == avail.len());
    assert forall|i: int| 0 <= i < mn_n.len() implies (#[trigger] mn_n[i]).len()
        == avail.len() by {
        assert(mn_o[i].len() == avail.len());
    }
    assert forall|i: int, j: int|
        0 <= i < mn_n.len() && 0 <= j < avail.len() implies ma[i][j] <= #[trigger] mn_n[i][j] by {
        assert(ma[i][j] <= mn_o[i][j]);
    }
}

/// Moving units between `avail[j0]` and `alloc[t0][j0]` — the total of the two
/// kept — preserves the matrix invariants and every other column's sum.
pub(crate) proof fn lemma_transfer_wf(
    avail_old: Seq<usize>,
    alloc_old: Seq<Vec<usize>>,
    need: Seq<Vec<usize>>,
    avail_new: Seq<usize>,
    alloc_new: Seq<Vec<usize>>,
    t0: int,
    j0: int,
    a2: usize,
    l2: usize,
)
    requires
        matrix_wf(avail_old, mat(alloc_old), mat(need)),
        0 <= t0 < alloc_old.len(),
        0 <= j0 < avail_old.len(),
        avail_new == avail_old.update(j0, a2),
        alloc_new.len() == alloc_old.len(),
        forall|t: int| 0 <= t < alloc_old.len() && t != t0 ==> alloc_new[t] == alloc_old[t],
        alloc_new[t0]@ == alloc_old[t0]@.update(j0, l2),
        a2 + l2 == avail_old[j0] + alloc_old[t0]@[j0],
        l2 <= mat(need)[t0][j0],
    ensures
        matrix_wf(avail_new, mat(alloc_new), mat(need)),
        col_sum(mat(alloc_new), j0) == col_sum(mat(alloc_old), j0) + l2 - alloc_old[t0]@[j0],
        forall|j: int|
            0 <= j < avail_old.len() && j != j0 ==> #[trigger] col_sum(mat(alloc_new), j)
                == col_sum(mat(alloc_old), j),
        avail_new[j0] + col_sum(mat(alloc_new), j0) == avail_old[j0] + col_sum(
            mat(alloc_old),
            j0,
        ),
{
    let ma_o = mat(alloc_old);
    let ma_n = mat(alloc_new);
    let mn = mat(need);
    let n = alloc_old.len() as int;
    assert(ma_o[t0].len() == avail_old.len());
    assert forall|i: int| 0 <= i < ma_n.len() implies (#[trigger] ma_n[i]).len()
        == avail_new.len() by {
        assert(ma_o[i].len() == avail_old.len());
    }
    assert forall|i: int, j: int|
        0 <= i < mn.len() && 0 <= j < avail_new.len() implies ma_n[i][j] <= #[trigger] mn[i][j] by {
        assert(ma_o[i][j] <= mn[i][j]);
    }
    crate::banker::lemma_col_sum_upto_update_row(ma_o, ma_n, t0, j0, n);
    assert forall|j: int|
        0 <= j < avail_old.len() && j != j0 implies #[trigger] col_sum(ma_n, j) == col_sum(
        ma_o,
        j,
    ) by {
        assert forall|t: int| 0 <= t < n implies ma_n[t][j] == ma_o[t][j] by {
            assert(ma_o[t].len() == avail_old.len());
        }
        crate::banker::lemma_col_sum_upto_pointwise(ma_n, ma_o, j, n);
    }
    assert forall|j: int|
        0 <= j < avail_new.len() implies avail_new[j] + #[trigger] col_sum(ma_n, j)
            <= usize::MAX by {
        assert(avail_old[j] + col_sum(ma_o, j) <= usize::MAX);
    }
}

/// When thread `t0` holds a unit of `j0`, `avail[j0]` has headroom for the
/// unit's return.
pub(crate) proof fn lemma_avail_headroom(
    avail: Seq<usize>,
    alloc: Seq<Vec<usize>>,
    need: Seq<Vec<usize>>,
    t0: int,
    j0: int,
)
    requires
        matrix_wf(avail, mat(alloc), mat(need)),
        0 <= t0 < alloc.len(),
        0 <= j0 < avail.len(),
        mat(alloc)[t0][j0] >= 1,
    ensures
        avail[j0] + 1 <= usize::MAX,
{
    crate::banker::lemma_col_sum_upto_entry(mat(alloc), t0, j0, alloc.len() as int);
    assert(avail[j0] + col_sum(mat(alloc), j0) <= usize::MAX);
}

/// The matrix with entry `(t, j)` raised by one.
pub open spec fn bump_entry(m: Seq<Seq<usize>>, t: int, j: int) -> Seq<Seq<usize>> {
    m.update(t, m[t].update(j, ((m[t][j] + 1) as usize)))
}

/// The matrix with entry `(t, j)` lowered by one.
pub open spec fn drop_entry(m: Seq<Seq<usize>>, t: int, j: int) -> Seq<Seq<usize>> {
    m.update(t, m[t].update(j, ((m[t][j] - 1) as usize)))
}

/// The two states carry the same synchronization state, compared by views.
pub open spec fn sync_eq(a: ProcessState, b: ProcessState) -> bool {
    &&& b.mutexes@ == a.mutexes@
    &&& b.available_mutex@ == a.available_mutex@
    &&& mat(b.allocation_mutex@) == mat(a.allocation_mutex@)
    &&& mat(b.need_mutex@) == mat(a.need_mutex@)
    &&& b.semaphores@ == a.semaphores@
    &&& b.available_sem@ == a.available_sem@
    &&& mat(b.allocation_sem@) == mat(a.allocation_sem@)
    &&& mat(b.need_sem@) == mat(a.need_sem@)
    &&& b.condvars@ == a.condvars@
    &&& b.deadlock_detect == a.deadlock_detect
}

} // verus!
