//! Laws of the synchronization state, stated over the well-formedness
//! invariant that every syscall establishes and preserves.

use vstd::prelude::*;
use crate::banker::{
    mat, col_sum, lemma_col_sum_upto_two_entries, lemma_done_col_sum_update_row, safe_state,
    safe_partial, work_at, row_fits, all_done, none_done,
};
use crate::state::ProcessState;

verus! {

/// Unit conservation for the mutex class: at every observation point — every
/// state a syscall returns — a live mutex slot's `available` entry plus the
/// allocations of all threads account for exactly the one unit its creation
/// brought.  Every mutating call ensures `wf`, so this holds along any
/// sequence of create/lock/unlock calls.
pub proof fn lemma_mutex_units_conserved(p: ProcessState, r: int)
    requires
        p.wf(),
        0 <= r < p.mutexes@.len(),
        p.mutexes@[r] is Some,
    ensures
        p.available_mutex@[r] + col_sum(mat(p.allocation_mutex@), r) == 1,
{
}

/// Mutual exclusion: in any well-formed state, no two distinct threads both
/// hold a unit of the same live mutex — the instrumented counters can never
/// cross below zero, since the single unit is either available or allocated to
/// exactly one thread.
pub proof fn lemma_mutex_exclusion(p: ProcessState, r: int, t1: int, t2: int)
    requires
        p.wf(),
        0 <= r < p.mutexes@.len(),
        p.mutexes@[r] is Some,
        0 <= t1 < p.thread_count(),
        0 <= t2 < p.thread_count(),
        t1 != t2,
    ensures
        !(mat(p.allocation_mutex@)[t1][r] >= 1 && mat(p.allocation_mutex@)[t2][r] >= 1),
{
    lemma_col_sum_upto_two_entries(
        mat(p.allocation_mutex@),
        t1,
        t2,
        r,
        p.thread_count() as int,
    );
}

/// The semaphore count never goes negative, and `available` mirrors it: both
/// are machine naturals, and in any well-formed state a live semaphore slot's
/// `available` entry equals its object's count — a down on count zero blocks
/// instead of taking a unit, so neither quantity can be driven below zero.
pub proof fn lemma_sem_available_matches_count(p: ProcessState, r: int)
    requires
        p.wf(),
        0 <= r < p.semaphores@.len(),
        p.semaphores@[r] is Some,
    ensures
        p.available_sem@[r] == p.semaphores@[r]->Some_0.count,
        p.available_sem@[r] >= 0,
{
}

/// A row whose outstanding demand fits keeps fitting when the work at hand
/// grows and its own demand is unchanged row-wise.
proof fn lemma_row_fits_transport(
    avail1: Seq<usize>,
    alloc1: Seq<Seq<usize>>,
    need1: Seq<Seq<usize>>,
    avail2: Seq<usize>,
    alloc2: Seq<Seq<usize>>,
    need2: Seq<Seq<usize>>,
    done: Seq<bool>,
    i: int,
)
    requires
        avail2.len() == avail1.len(),
        forall|j: int|
            0 <= j < avail1.len() ==> #[trigger] work_at(avail2, alloc2, done, j) >= work_at(
                avail1,
                alloc1,
                done,
                j,
            ),
        forall|j: int|
            0 <= j < avail1.len() ==> need2[i][j] - alloc2[i][j] == need1[i][j] - #[trigger] alloc1[i][j],
        row_fits(avail1, alloc1, need1, done, i),
    ensures
        row_fits(avail2, alloc2, need2, done, i),
{
    assert forall|j: int|
        0 <= j < avail2.len() implies need2[i][j] - alloc2[i][j] <= #[trigger] work_at(
        avail2,
        alloc2,
        done,
        j,
    ) by {
        assert(need1[i][j] - alloc1[i][j] <= work_at(avail1, alloc1, done, j));
    }
}

/// Returning one unit — `avail[j0]` up by one, thread `t0`'s allocation and
/// demand down by one — keeps every completion order available: the pending
/// demand of every row is unchanged and the work at hand never shrinks.
proof fn lemma_release_safe_partial(
    avail: Seq<usize>,
    alloc: Seq<Seq<usize>>,
    need: Seq<Seq<usize>>,
    avail2: Seq<usize>,
    alloc2: Seq<Seq<usize>>,
    need2: Seq<Seq<usize>>,
    done: Seq<bool>,
    t0: int,
    j0: int,
    fuel: nat,
)
    requires
        alloc.len() == need.len(),
        done.len() == alloc.len(),
        0 <= t0 < alloc.len(),
        0 <= j0 < avail.len(),
        forall|i: int| 0 <= i < alloc.len() ==> (#[trigger] alloc[i]).len() == avail.len(),
        forall|i: int| 0 <= i < need.len() ==> (#[trigger] need[i]).len() == avail.len(),
        alloc[t0][j0] >= 1,
        need[t0][j0] >= 1,
        avail[j0] < usize::MAX,
        avail2 == avail.update(j0, ((avail[j0] + 1) as usize)),
        alloc2 == alloc.update(t0, alloc[t0].update(j0, ((alloc[t0][j0] - 1) as usize))),
        need2 == need.update(t0, need[t0].update(j0, ((need[t0][j0] - 1) as usize))),
        safe_partial(avail, alloc, need, done, fuel),
    ensures
        safe_partial(avail2, alloc2, need2, done, fuel),
    decreases fuel,
{
    if all_done(done) {
    } else {
        let n = alloc.len() as int;
        let i = choose|i: int|
            0 <= i < done.len() && !done[i] && #[trigger] row_fits(avail, alloc, need, done, i)
                && safe_partial(avail, alloc, need, done.update(i, true), (fuel - 1) as nat);
        assert forall|j: int|
            0 <= j < avail.len() implies #[trigger] work_at(avail2, alloc2, done, j) >= work_at(
            avail,
            alloc,
            done,
            j,
        ) by {
            lemma_done_col_sum_update_row(alloc, alloc2, done, t0, j, n);
        }
        assert forall|j: int|
            0 <= j < avail.len() implies need2[i][j] - alloc2[i][j] == need[i][j]
                - #[trigger] alloc[i][j] by {}
        lemma_row_fits_transport(avail, alloc, need, avail2, alloc2, need2, done, i);
        lemma_release_safe_partial(
            avail,
            alloc,
            need,
            avail2,
            alloc2,
            need2,
            done.update(i, true),
            t0,
            j0,
            (fuel - 1) as nat,
        );
        assert(0 <= i < done.len() && !done[i] && row_fits(avail2, alloc2, need2, done, i)
            && safe_partial(avail2, alloc2, need2, done.update(i, true), (fuel - 1) as nat));
        assert(safe_partial(avail2, alloc2, need2, done, fuel));
    }
}

/// Releasing resources cannot create an unsafe state: the mutex-unlock
/// bookkeeping — one unit back to `available`, the holder's `allocation` and
/// `need` both lowered — turns no safe state unsafe.  This is why the release
/// path runs no safety check.
pub proof fn lemma_release_preserves_safety(
    avail: Seq<usize>,
    alloc: Seq<Seq<usize>>,
    need: Seq<Seq<usize>>,
    t0: int,
    j0: int,
)
    requires
        alloc.len() == need.len(),
        0 <= t0 < alloc.len(),
        0 <= j0 < avail.len(),
        forall|i: int| 0 <= i < alloc.len() ==> (#[trigger] alloc[i]).len() == avail.len(),
        forall|i: int| 0 <= i < need.len() ==> (#[trigger] need[i]).len() == avail.len(),
        alloc[t0][j0] >= 1,
        need[t0][j0] >= 1,
        avail[j0] < usize::MAX,
        safe_state(avail, alloc, need),
    ensures
        safe_state(
            avail.update(j0, ((avail[j0] + 1) as usize)),
            alloc.update(t0, alloc[t0].update(j0, ((alloc[t0][j0] - 1) as usize))),
            need.update(t0, need[t0].update(j0, ((need[t0][j0] - 1) as usize))),
        ),
{
    lemma_release_safe_partial(
        avail,
        alloc,
        need,
        avail.update(j0, ((avail[j0] + 1) as usize)),
        alloc.update(t0, alloc[t0].update(j0, ((alloc[t0][j0] - 1) as usize))),
        need.update(t0, need[t0].update(j0, ((need[t0][j0] - 1) as usize))),
        none_done(alloc.len()),
        t0,
        j0,
        alloc.len(),
    );
}

/// Returning one unit while the thread's recorded demand stays — the
/// semaphore-up bookkeeping — also keeps every completion order available:
/// the releasing thread's outstanding demand grows by the very unit the work
/// at hand gains, and every other row only sees the work grow.
proof fn lemma_up_safe_partial(
    avail: Seq<usize>,
    alloc: Seq<Seq<usize>>,
    need: Seq<Seq<usize>>,
    avail2: Seq<usize>,
    alloc2: Seq<Seq<usize>>,
    done: Seq<bool>,
    t0: int,
    j0: int,
    fuel: nat,
)
    requires
        alloc.len() == need.len(),
        done.len() == alloc.len(),
        0 <= t0 < alloc.len(),
        0 <= j0 < avail.len(),
        forall|i: int| 0 <= i < alloc.len() ==> (#[trigger] alloc[i]).len() == avail.len(),
        forall|i: int| 0 <= i < need.len() ==> (#[trigger] need[i]).len() == avail.len(),
        alloc[t0][j0] >= 1,
        avail[j0] < usize::MAX,
        avail2 == avail.update(j0, ((avail[j0] + 1) as usize)),
        alloc2 == alloc.update(t0, alloc[t0].update(j0, ((alloc[t0][j0] - 1) as usize))),
        safe_partial(avail, alloc, need, done, fuel),
    ensures
        safe_partial(avail2, alloc2, need, done, fuel),
    decreases fuel,
{
    if all_done(done) {
    } else {
        let n = alloc.len() as int;
        let i = choose|i: int|
            0 <= i < done.len() && !done[i] && #[trigger] row_fits(avail, alloc, need, done, i)
                && safe_partial(avail, alloc, need, done.update(i, true), (fuel - 1) as nat);
        assert forall|j: int|
            0 <= j < avail.len() implies #[trigger] work_at(avail2, alloc2, done, j) >= work_at(
            avail,
            alloc,
            done,
            j,
        ) by {
            lemma_done_col_sum_update_row(alloc, alloc2, done, t0, j, n);
        }
        if i == t0 {
            // the releasing thread: its demand at j0 grows by one, but so does
            // the work — it is not yet done, so its lowered allocation is not
            // in the done-sum and the fresh available unit counts in full
            assert forall|j: int|
                0 <= j < avail2.len() implies need[i][j] - alloc2[i][j] <= #[trigger] work_at(
                avail2,
                alloc2,
                done,
                j,
            ) by {
                lemma_done_col_sum_update_row(alloc, alloc2, done, t0, j, n);
                assert(need[i][j] - alloc[i][j] <= work_at(avail, alloc, done, j));
            }
            assert(row_fits(avail2, alloc2, need, done, i));
        } else {
            lemma_row_fits_transport(avail, alloc, need, avail2, alloc2, need, done, i);
        }
        lemma_up_safe_partial(
            avail,
            alloc,
            need,
            avail2,
            alloc2,
            done.update(i, true),
            t0,
            j0,
            (fuel - 1) as nat,
        );
        assert(0 <= i < done.len() && !done[i] && row_fits(avail2, alloc2, need, done, i)
            && safe_partial(avail2, alloc2, need, done.update(i, true), (fuel - 1) as nat));
        assert(safe_partial(avail2, alloc2, need, done, fuel));
    }
}

/// The semaphore-up bookkeeping — one unit back to `available`, the holder's
/// `allocation` lowered, `need` untouched — turns no safe state unsafe either:
/// the up path, too, is right to run no safety check.
pub proof fn lemma_up_preserves_safety(
    avail: Seq<usize>,
    alloc: Seq<Seq<usize>>,
    need: Seq<Seq<usize>>,
    t0: int,
    j0: int,
)
    requires
        alloc.len() == need.len(),
        0 <= t0 < alloc.len(),
        0 <= j0 < avail.len(),
        forall|i: int| 0 <= i < alloc.len() ==> (#[trigger] alloc[i]).len() == avail.len(),
        forall|i: int| 0 <= i < need.len() ==> (#[trigger] need[i]).len() == avail.len(),
        alloc[t0][j0] >= 1,
        avail[j0] < usize::MAX,
        safe_state(avail, alloc, need),
    ensures
        safe_state(
            avail.update(j0, ((avail[j0] + 1) as usize)),
            alloc.update(t0, alloc[t0].update(j0, ((alloc[t0][j0] - 1) as usize))),
            need,
        ),
{
    lemma_up_safe_partial(
        avail,
        alloc,
        need,
        avail.update(j0, ((avail[j0] + 1) as usize)),
        alloc.update(t0, alloc[t0].update(j0, ((alloc[t0][j0] - 1) as usize))),
        none_done(alloc.len()),
        t0,
        j0,
        alloc.len(),
    );
}

} // verus!
