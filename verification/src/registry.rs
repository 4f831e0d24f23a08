//! Resource registry: slot allocation for mutexes, semaphores and condition
//! variables.  A create call reuses the lowest free (`None`) slot, resetting
//! that resource's column of the matrices for every thread, or appends a new
//! slot and a new zero column.  Creation never fails; the slot index is the
//! resource id.

use vstd::prelude::*;
use vstd::pervasive::VecAdditionalExecFns;
use crate::banker::{matrix_wf, mat, col_sum};
use crate::banker::{lemma_col_sum_upto_pointwise, lemma_col_sum_upto_zero_col};
use crate::state::{ProcessState, MutexObj, SemObj, CondvarObj, mat_set, mat_push_col};

verus! {

/// Index of the first free slot at or after `k`, or the table length when none
/// is free.
pub open spec fn first_free_from<T>(s: Seq<Option<T>>, k: int) -> int
    decreases s.len() - k,
{
    if k < 0 || k >= s.len() {
        s.len() as int
    } else if s[k] is None {
        k
    } else {
        first_free_from(s, k + 1)
    }
}

/// Index of the lowest free slot, or the table length when none is free.
pub open spec fn first_free<T>(s: Seq<Option<T>>) -> int {
    first_free_from(s, 0)
}

/// Scans a slot table for its lowest free entry.
fn find_free<T>(slots: &Vec<Option<T>>) -> (r: usize)
    ensures
        r == first_free(slots@),
        r <= slots@.len(),
        r < slots@.len() ==> slots@[r as int] is None,
{
    let n = slots.len();
    let mut i: usize = 0;
    while i < n
        invariant
            i <= n,
            n == slots@.len(),
            first_free(slots@) == first_free_from(slots@, i as int),
        decreases n - i,
    {
        if slots[i].is_none() {
            return i;
        }
        i = i + 1;
    }
    i
}

/// Replacing column `id` of both matrices by zeroes (and `avail[id]` by the
/// new slot's units) preserves the matrix invariants; the reset column sums to
/// zero and every other column sum is unchanged.
proof fn lemma_reset_col(
    avail_old: Seq<usize>,
    alloc_old: Seq<Vec<usize>>,
    need_old: Seq<Vec<usize>>,
    avail_new: Seq<usize>,
    alloc_new: Seq<Vec<usize>>,
    need_new: Seq<Vec<usize>>,
    id: int,
    units: usize,
)
    requires
        matrix_wf(avail_old, mat(alloc_old), mat(need_old)),
        0 <= id < avail_old.len(),
        avail_new == avail_old.update(id, units),
        alloc_new.len() == alloc_old.len(),
        need_new.len() == need_old.len(),
        forall|t: int|
            0 <= t < alloc_old.len() ==> (#[trigger] alloc_new[t])@ == alloc_old[t]@.update(
                id,
                0usize,
            ),
        forall|t: int|
            0 <= t < need_old.len() ==> (#[trigger] need_new[t])@ == need_old[t]@.update(
                id,
                0usize,
            ),
    ensures
        matrix_wf(avail_new, mat(alloc_new), mat(need_new)),
        col_sum(mat(alloc_new), id) == 0,
        forall|j: int|
            0 <= j < avail_old.len() && j != id ==> #[trigger] col_sum(mat(alloc_new), j)
                == col_sum(mat(alloc_old), j),
{
    let ma_o = mat(alloc_old);
    let ma_n = mat(alloc_new);
    let mn_o = mat(need_old);
    let mn_n = mat(need_new);
    let n = alloc_old.len() as int;
    assert forall|i: int| 0 <= i < ma_n.len() implies (#[trigger] ma_n[i]).len()
        == avail_new.len() by {
        assert(ma_o[i].len() == avail_old.len());
    }
    assert forall|i: int| 0 <= i < mn_n.len() implies (#[trigger] mn_n[i]).len()
        == avail_new.len() by {
        assert(mn_o[i].len() == avail_old.len());
    }
    assert forall|i: int, j: int|
        0 <= i < mn_n.len() && 0 <= j < avail_new.len() implies ma_n[i][j] <= #[trigger] mn_n[i][j] by {
        if j != id {
            assert(ma_o[i][j] <= mn_o[i][j]);
        }
    }
    assert forall|t: int| 0 <= t < n implies #[trigger] ma_n[t][id] == 0 by {
        assert(ma_o[t].len() == avail_old.len());
        assert(ma_n[t] == ma_o[t].update(id, 0usize));
    }
    lemma_col_sum_upto_zero_col(ma_n, id, n);
    assert forall|j: int|
        0 <= j < avail_old.len() && j != id implies #[trigger] col_sum(ma_n, j) == col_sum(
        ma_o,
        j,
    ) by {
        assert forall|t: int| 0 <= t < n implies ma_n[t][j] == ma_o[t][j] by {
            assert(ma_o[t].len() == avail_old.len());
            assert(ma_n[t] == ma_o[t].update(id, 0usize));
        }
        lemma_col_sum_upto_pointwise(ma_n, ma_o, j, n);
    }
    assert forall|j: int|
        0 <= j < avail_new.len() implies avail_new[j] + #[trigger] col_sum(ma_n, j)
            <= usize::MAX by {
        if j != id {
            assert(avail_old[j] + col_sum(ma_o, j) <= usize::MAX);
        }
    }
}

/// Appending a fresh slot — one more `avail` entry and a zero entry at the end
/// of every row — preserves the matrix invariants; the new column sums to zero
/// and every old column sum is unchanged.
proof fn lemma_append_col(
    avail_old: Seq<usize>,
    alloc_old: Seq<Vec<usize>>,
    need_old: Seq<Vec<usize>>,
    avail_new: Seq<usize>,
    alloc_new: Seq<Vec<usize>>,
    need_new: Seq<Vec<usize>>,
    units: usize,
)
    requires
        matrix_wf(avail_old, mat(alloc_old), mat(need_old)),
        avail_new == avail_old.push(units),
        alloc_new.len() == alloc_old.len(),
        need_new.len() == need_old.len(),
        forall|t: int|
            0 <= t < alloc_old.len() ==> (#[trigger] alloc_new[t])@ == alloc_old[t]@.push(0usize),
        forall|t: int|
            0 <= t < need_old.len() ==> (#[trigger] need_new[t])@ == need_old[t]@.push(0usize),
    ensures
        matrix_wf(avail_new, mat(alloc_new), mat(need_new)),
        col_sum(mat(alloc_new), avail_old.len() as int) == 0,
        forall|j: int|
            0 <= j < avail_old.len() ==> #[trigger] col_sum(mat(alloc_new), j) == col_sum(
                mat(alloc_old),
                j,
            ),
{
    let ma_o = mat(alloc_old);
    let ma_n = mat(alloc_new);
    let mn_o = mat(need_old);
    let mn_n = mat(need_new);
    let n = alloc_old.len() as int;
    let id = avail_old.len() as int;
    assert forall|i: int| 0 <= i < ma_n.len() implies (#[trigger] ma_n[i]).len()
        == avail_new.len() by {
        assert(ma_o[i].len() == avail_old.len());
    }
    assert forall|i: int| 0 <= i < mn_n.len() implies (#[trigger] mn_n[i]).len()
        == avail_new.len() by {
        assert(mn_o[i].len() == avail_old.len());
    }
    assert forall|i: int, j: int|
        0 <= i < mn_n.len() && 0 <= j < avail_new.len() implies ma_n[i][j] <= #[trigger] mn_n[i][j] by {
        if j != id {
            assert(ma_o[i][j] <= mn_o[i][j]);
        }
    }
    assert forall|t: int| 0 <= t < n implies #[trigger] ma_n[t][id] == 0 by {
        assert(ma_o[t].len() == avail_old.len());
        assert(ma_n[t] == ma_o[t].push(0usize));
    }
    lemma_col_sum_upto_zero_col(ma_n, id, n);
    assert forall|j: int|
        0 <= j < avail_old.len() implies #[trigger] col_sum(ma_n, j) == col_sum(ma_o, j) by {
        assert forall|t: int| 0 <= t < n implies ma_n[t][j] == ma_o[t][j] by {
            assert(ma_o[t].len() == avail_old.len());
            assert(ma_n[t] == ma_o[t].push(0usize));
        }
        lemma_col_sum_upto_pointwise(ma_n, ma_o, j, n);
    }
    assert forall|j: int|
        0 <= j < avail_new.len() implies avail_new[j] + #[trigger] col_sum(ma_n, j)
            <= usize::MAX by {
        if j != id {
            assert(avail_old[j] + col_sum(ma_o, j) <= usize::MAX);
        }
    }
}

/// Creates a mutex of the chosen variant: reuses the lowest free slot —
/// resetting that column of `available`/`allocation`/`need` to `(1, 0, 0)` for
/// every thread — or appends a new slot and column.  Returns the slot index as
/// the resource id; creation never fails.
pub fn sys_mutex_create(p: &mut ProcessState, blocking: bool) -> (id: isize)
    requires
        old(p).wf(),
        old(p).mutexes@.len() < isize::MAX,
    ensures
        final(p).wf(),
        id == first_free(old(p).mutexes@),
        0 <= id <= old(p).mutexes@.len(),
        final(p).mutexes@.len() == if id < old(p).mutexes@.len() {
            old(p).mutexes@.len() as int
        } else {
            old(p).mutexes@.len() + 1int
        },
        final(p).mutexes@[id as int] is Some,
        final(p).mutexes@[id as int]->Some_0.blocking == blocking,
        !final(p).mutexes@[id as int]->Some_0.locked,
        final(p).mutexes@[id as int]->Some_0.queue@.len() == 0,
        forall|k: int|
            0 <= k < old(p).mutexes@.len() && k != id ==> final(p).mutexes@[k] == old(p).mutexes@[k],
        final(p).available_mutex@.len() == final(p).mutexes@.len(),
        final(p).available_mutex@[id as int] == 1,
        forall|j: int|
            0 <= j < old(p).mutexes@.len() && j != id ==> final(p).available_mutex@[j] == old(
                p,
            ).available_mutex@[j],
        final(p).thread_count() == old(p).thread_count(),
        forall|t: int|
            0 <= t < old(p).thread_count() ==> {
                &&& final(p).allocation_mutex@[t]@[id as int] == 0
                &&& final(p).need_mutex@[t]@[id as int] == 0
            },
        forall|t: int, j: int|
            0 <= t < old(p).thread_count() && 0 <= j < old(p).mutexes@.len() && j != id ==> {
                &&& final(p).allocation_mutex@[t]@[j] == old(p).allocation_mutex@[t]@[j]
                &&& final(p).need_mutex@[t]@[j] == old(p).need_mutex@[t]@[j]
            },
        final(p).semaphores@ == old(p).semaphores@,
        final(p).available_sem@ == old(p).available_sem@,
        final(p).allocation_sem@ == old(p).allocation_sem@,
        final(p).need_sem@ == old(p).need_sem@,
        final(p).condvars@ == old(p).condvars@,
        final(p).deadlock_detect == old(p).deadlock_detect,
{
    let id = find_free(&p.mutexes);
    let obj = MutexObj { blocking, locked: false, queue: Vec::new() };
    let rows = p.allocation_mutex.len();
    if id < p.mutexes.len() {
        let mut t: usize = 0;
        while t < rows
            invariant
                t <= rows,
                rows == p.allocation_mutex@.len(),
                p.allocation_mutex@.len() == old(p).allocation_mutex@.len(),
                p.need_mutex@.len() == old(p).need_mutex@.len(),
                old(p).wf(),
                id < old(p).mutexes@.len(),
                old(p).available_mutex@.len() == old(p).mutexes@.len(),
                rows == old(p).thread_count(),
                p.mutexes@ == old(p).mutexes@,
                p.available_mutex@ == old(p).available_mutex@,
                p.semaphores@ == old(p).semaphores@,
                p.available_sem@ == old(p).available_sem@,
                p.allocation_sem@ == old(p).allocation_sem@,
                p.need_sem@ == old(p).need_sem@,
                p.condvars@ == old(p).condvars@,
                p.deadlock_detect == old(p).deadlock_detect,
                forall|t2: int|
                    0 <= t2 < t ==> (#[trigger] p.allocation_mutex@[t2])@ == old(
                        p,
                    ).allocation_mutex@[t2]@.update(id as int, 0usize),
                forall|t2: int|
                    0 <= t2 < t ==> (#[trigger] p.need_mutex@[t2])@ == old(
                        p,
                    ).need_mutex@[t2]@.update(id as int, 0usize),
                forall|t2: int|
                    t <= t2 < rows ==> p.allocation_mutex@[t2] == old(p).allocation_mutex@[t2],
                forall|t2: int| t <= t2 < rows ==> p.need_mutex@[t2] == old(p).need_mutex@[t2],
            decreases rows - t,
        {
            proof {
                assert(mat(old(p).allocation_mutex@)[t as int].len() == old(
                    p,
                ).available_mutex@.len());
                assert(mat(old(p).need_mutex@)[t as int].len() == old(p).available_mutex@.len());
            }
            mat_set(&mut p.allocation_mutex, t, id, 0);
            mat_set(&mut p.need_mutex, t, id, 0);
            t = t + 1;
        }
        p.mutexes.set(id, Some(obj));
        p.available_mutex.set(id, 1);
        proof {
            assert forall|t: int| 0 <= t < old(p).thread_count() implies old(
                p,
            ).allocation_mutex@[t]@.len() == old(p).mutexes@.len() && old(
                p,
            ).need_mutex@[t]@.len() == old(p).mutexes@.len() by {
                assert(mat(old(p).allocation_mutex@)[t].len() == old(p).available_mutex@.len());
                assert(mat(old(p).need_mutex@)[t].len() == old(p).available_mutex@.len());
            }
            lemma_reset_col(
                old(p).available_mutex@,
                old(p).allocation_mutex@,
                old(p).need_mutex@,
                p.available_mutex@,
                p.allocation_mutex@,
                p.need_mutex@,
                id as int,
                1usize,
            );
            assert forall|r: int|
                0 <= r < p.mutexes@.len() && (#[trigger] p.mutexes@[r]) is Some
                    implies p.available_mutex@[r] + col_sum(mat(p.allocation_mutex@), r) == 1 by {
                if r != id {
                    assert(old(p).mutexes@[r] is Some);
                    assert(old(p).available_mutex@[r] + col_sum(mat(old(p).allocation_mutex@), r)
                        == 1);
                }
            }
            assert forall|r: int|
                0 <= r < p.semaphores@.len() && (#[trigger] p.semaphores@[r]) is Some
                    implies p.available_sem@[r] == p.semaphores@[r]->Some_0.count by {
                assert(old(p).semaphores@[r] is Some);
            }
        }
        id as isize
    } else {
        p.mutexes.push(Some(obj));
        p.available_mutex.push(1);
        mat_push_col(&mut p.allocation_mutex, 0);
        mat_push_col(&mut p.need_mutex, 0);
        proof {
            assert forall|t: int| 0 <= t < old(p).thread_count() implies old(
                p,
            ).allocation_mutex@[t]@.len() == old(p).mutexes@.len() && old(
                p,
            ).need_mutex@[t]@.len() == old(p).mutexes@.len() by {
                assert(mat(old(p).allocation_mutex@)[t].len() == old(p).available_mutex@.len());
                assert(mat(old(p).need_mutex@)[t].len() == old(p).available_mutex@.len());
            }
            lemma_append_col(
                old(p).available_mutex@,
                old(p).allocation_mutex@,
                old(p).need_mutex@,
                p.available_mutex@,
                p.allocation_mutex@,
                p.need_mutex@,
                1usize,
            );
            assert forall|r: int|
                0 <= r < p.mutexes@.len() && (#[trigger] p.mutexes@[r]) is Some
                    implies p.available_mutex@[r] + col_sum(mat(p.allocation_mutex@), r) == 1 by {
                if r != id {
                    assert(old(p).mutexes@[r] is Some);
                    assert(old(p).available_mutex@[r] + col_sum(mat(old(p).allocation_mutex@), r)
                        == 1);
                }
            }
            assert forall|r: int|
                0 <= r < p.semaphores@.len() && (#[trigger] p.semaphores@[r]) is Some
                    implies p.available_sem@[r] == p.semaphores@[r]->Some_0.count by {
                assert(old(p).semaphores@[r] is Some);
            }
        }
        id as isize
    }
}

/// Creates a counting semaphore with `res_count` initial units: reuses the
/// lowest free slot — resetting that column of `available`/`allocation`/`need`
/// to `(res_count, 0, 0)` for every thread — or appends a new slot and column.
/// Returns the slot index as the resource id; creation never fails.
pub fn sys_semaphore_create(p: &mut ProcessState, res_count: usize) -> (id: isize)
    requires
        old(p).wf(),
        old(p).semaphores@.len() < isize::MAX,
    ensures
        final(p).wf(),
        id == first_free(old(p).semaphores@),
        0 <= id <= old(p).semaphores@.len(),
        final(p).semaphores@.len() == if id < old(p).semaphores@.len() {
            old(p).semaphores@.len() as int
        } else {
            old(p).semaphores@.len() + 1int
        },
        final(p).semaphores@[id as int] is Some,
        final(p).semaphores@[id as int]->Some_0.count == res_count,
        final(p).semaphores@[id as int]->Some_0.queue@.len() == 0,
        forall|k: int|
            0 <= k < old(p).semaphores@.len() && k != id ==> final(p).semaphores@[k] == old(
                p,
            ).semaphores@[k],
        final(p).available_sem@.len() == final(p).semaphores@.len(),
        final(p).available_sem@[id as int] == res_count,
        forall|j: int|
            0 <= j < old(p).semaphores@.len() && j != id ==> final(p).available_sem@[j] == old(
                p,
            ).available_sem@[j],
        final(p).thread_count() == old(p).thread_count(),
        forall|t: int|
            0 <= t < old(p).thread_count() ==> {
                &&& final(p).allocation_sem@[t]@[id as int] == 0
                &&& final(p).need_sem@[t]@[id as int] == 0
            },
        forall|t: int, j: int|
            0 <= t < old(p).thread_count() && 0 <= j < old(p).semaphores@.len() && j != id ==> {
                &&& final(p).allocation_sem@[t]@[j] == old(p).allocation_sem@[t]@[j]
                &&& final(p).need_sem@[t]@[j] == old(p).need_sem@[t]@[j]
            },
        final(p).mutexes@ == old(p).mutexes@,
        final(p).available_mutex@ == old(p).available_mutex@,
        final(p).allocation_mutex@ == old(p).allocation_mutex@,
        final(p).need_mutex@ == old(p).need_mutex@,
        final(p).condvars@ == old(p).condvars@,
        final(p).deadlock_detect == old(p).deadlock_detect,
{
    let id = find_free(&p.semaphores);
    let obj = SemObj { count: res_count, queue: Vec::new() };
    let rows = p.allocation_sem.len();
    if id < p.semaphores.len() {
        let mut t: usize = 0;
        while t < rows
            invariant
                t <= rows,
                rows == p.allocation_sem@.len(),
                p.allocation_sem@.len() == old(p).allocation_sem@.len(),
                p.need_sem@.len() == old(p).need_sem@.len(),
                old(p).wf(),
                id < old(p).semaphores@.len(),
                old(p).available_sem@.len() == old(p).semaphores@.len(),
                rows == old(p).thread_count(),
                p.mutexes@ == old(p).mutexes@,
                p.available_mutex@ == old(p).available_mutex@,
                p.allocation_mutex@ == old(p).allocation_mutex@,
                p.need_mutex@ == old(p).need_mutex@,
                p.semaphores@ == old(p).semaphores@,
                p.available_sem@ == old(p).available_sem@,
                p.condvars@ == old(p).condvars@,
                p.deadlock_detect == old(p).deadlock_detect,
                forall|t2: int|
                    0 <= t2 < t ==> (#[trigger] p.allocation_sem@[t2])@ == old(
                        p,
                    ).allocation_sem@[t2]@.update(id as int, 0usize),
                forall|t2: int|
                    0 <= t2 < t ==> (#[trigger] p.need_sem@[t2])@ == old(
                        p,
                    ).need_sem@[t2]@.update(id as int, 0usize),
                forall|t2: int|
                    t <= t2 < rows ==> p.allocation_sem@[t2] == old(p).allocation_sem@[t2],
                forall|t2: int| t <= t2 < rows ==> p.need_sem@[t2] == old(p).need_sem@[t2],
            decreases rows - t,
        {
            proof {
                assert(mat(old(p).allocation_sem@)[t as int].len() == old(p).available_sem@.len());
                assert(mat(old(p).need_sem@)[t as int].len() == old(p).available_sem@.len());
            }
            mat_set(&mut p.allocation_sem, t, id, 0);
            mat_set(&mut p.need_sem, t, id, 0);
            t = t + 1;
        }
        p.semaphores.set(id, Some(obj));
        p.available_sem.set(id, res_count);
        proof {
            assert forall|t: int| 0 <= t < old(p).thread_count() implies old(
                p,
            ).allocation_sem@[t]@.len() == old(p).semaphores@.len() && old(
                p,
            ).need_sem@[t]@.len() == old(p).semaphores@.len() by {
                assert(mat(old(p).allocation_sem@)[t].len() == old(p).available_sem@.len());
                assert(mat(old(p).need_sem@)[t].len() == old(p).available_sem@.len());
            }
            lemma_reset_col(
                old(p).available_sem@,
                old(p).allocation_sem@,
                old(p).need_sem@,
                p.available_sem@,
                p.allocation_sem@,
                p.need_sem@,
                id as int,
                res_count,
            );
            assert forall|r: int|
                0 <= r < p.semaphores@.len() && (#[trigger] p.semaphores@[r]) is Some
                    implies p.available_sem@[r] == p.semaphores@[r]->Some_0.count by {
                if r != id {
                    assert(old(p).semaphores@[r] is Some);
                }
            }
            assert forall|r: int|
                0 <= r < p.mutexes@.len() && (#[trigger] p.mutexes@[r]) is Some
                    implies p.available_mutex@[r] + col_sum(mat(p.allocation_mutex@), r) == 1 by {
                assert(old(p).mutexes@[r] is Some);
            }
        }
        id as isize
    } else {
        p.semaphores.push(Some(obj));
        p.available_sem.push(res_count);
        mat_push_col(&mut p.allocation_sem, 0);
        mat_push_col(&mut p.need_sem, 0);
        proof {
            assert forall|t: int| 0 <= t < old(p).thread_count() implies old(
                p,
            ).allocation_sem@[t]@.len() == old(p).semaphores@.len() && old(
                p,
            ).need_sem@[t]@.len() == old(p).semaphores@.len() by {
                assert(mat(old(p).allocation_sem@)[t].len() == old(p).available_sem@.len());
                assert(mat(old(p).need_sem@)[t].len() == old(p).available_sem@.len());
            }
            lemma_append_col(
                old(p).available_sem@,
                old(p).allocation_sem@,
                old(p).need_sem@,
                p.available_sem@,
                p.allocation_sem@,
                p.need_sem@,
                res_count,
            );
            assert forall|r: int|
                0 <= r < p.semaphores@.len() && (#[trigger] p.semaphores@[r]) is Some
                    implies p.available_sem@[r] == p.semaphores@[r]->Some_0.count by {
                if r != id {
                    assert(old(p).semaphores@[r] is Some);
                }
            }
            assert forall|r: int|
                0 <= r < p.mutexes@.len() && (#[trigger] p.mutexes@[r]) is Some
                    implies p.available_mutex@[r] + col_sum(mat(p.allocation_mutex@), r) == 1 by {
                assert(old(p).mutexes@[r] is Some);
            }
        }
        id as isize
    }
}

/// Creates a condition variable: reuses the lowest free slot or appends one.
/// Condition variables have no resource column; only the slot table changes.
/// Returns the slot index as the resource id; creation never fails.
pub fn sys_condvar_create(p: &mut ProcessState) -> (id: isize)
    requires
        old(p).wf(),
        old(p).condvars@.len() < isize::MAX,
    ensures
        final(p).wf(),
        id == first_free(old(p).condvars@),
        0 <= id <= old(p).condvars@.len(),
        final(p).condvars@.len() == if id < old(p).condvars@.len() {
            old(p).condvars@.len() as int
        } else {
            old(p).condvars@.len() + 1int
        },
        final(p).condvars@[id as int] is Some,
        final(p).condvars@[id as int]->Some_0.queue@.len() == 0,
        forall|k: int|
            0 <= k < old(p).condvars@.len() && k != id ==> final(p).condvars@[k] == old(
                p,
            ).condvars@[k],
        final(p).mutexes@ == old(p).mutexes@,
        final(p).available_mutex@ == old(p).available_mutex@,
        final(p).allocation_mutex@ == old(p).allocation_mutex@,
        final(p).need_mutex@ == old(p).need_mutex@,
        final(p).semaphores@ == old(p).semaphores@,
        final(p).available_sem@ == old(p).available_sem@,
        final(p).allocation_sem@ == old(p).allocation_sem@,
        final(p).need_sem@ == old(p).need_sem@,
        final(p).deadlock_detect == old(p).deadlock_detect,
{
    let id = find_free(&p.condvars);
    let obj = CondvarObj { queue: Vec::new() };
    if id < p.condvars.len() {
        p.condvars.set(id, Some(obj));
    } else {
        p.condvars.push(Some(obj));
    }
    id as isize
}

} // verus!
