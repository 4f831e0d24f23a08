//! Banker's-algorithm safety check.
//!
//! A state of one resource class is given by three matrices: `avail[j]` units
//! of resource `j` at hand, `alloc[i][j]` units held by thread `i`, and
//! `need[i][j]` units thread `i` has asked for in total (held plus pending, so
//! `need[i][j] - alloc[i][j]` is the demand still outstanding).  The state is
//! safe when the threads can be finished one after another in some order such
//! that each one's outstanding demand is covered by the units at hand once all
//! earlier threads have returned their allocations.

use vstd::prelude::*;
use vstd::pervasive::VecAdditionalExecFns;

verus! {

/// Sum of column `j` over the first `k` rows of `m`.
pub open spec fn col_sum_upto(m: Seq<Seq<usize>>, j: int, k: int) -> int
    decreases k,
{
    if k <= 0 {
        0
    } else {
        col_sum_upto(m, j, k - 1) + m[k - 1][j]
    }
}

/// Sum of column `j` over all rows of `m`.
pub open spec fn col_sum(m: Seq<Seq<usize>>, j: int) -> int {
    col_sum_upto(m, j, m.len() as int)
}

/// Sum of column `j` over the rows among the first `k` that are marked done.
pub open spec fn done_col_sum(m: Seq<Seq<usize>>, done: Seq<bool>, j: int, k: int) -> int
    decreases k,
{
    if k <= 0 {
        0
    } else {
        done_col_sum(m, done, j, k - 1) + if done[k - 1] {
            m[k - 1][j] as int
        } else {
            0int
        }
    }
}

/// Units of resource `j` at hand once every thread marked done has returned
/// its allocation.
pub open spec fn work_at(avail: Seq<usize>, alloc: Seq<Seq<usize>>, done: Seq<bool>, j: int) -> int {
    avail[j] + done_col_sum(alloc, done, j, alloc.len() as int)
}

/// Shape of one resource class's matrices: equally many rows in `alloc` and
/// `need`, every row as long as `avail`, total demand at least the units held,
/// and per column a total that fits the machine word.
pub open spec fn matrix_wf(avail: Seq<usize>, alloc: Seq<Seq<usize>>, need: Seq<Seq<usize>>) -> bool {
    &&& alloc.len() == need.len()
    &&& (forall|i: int| 0 <= i < alloc.len() ==> (#[trigger] alloc[i]).len() == avail.len())
    &&& (forall|i: int| 0 <= i < need.len() ==> (#[trigger] need[i]).len() == avail.len())
    &&& (forall|i: int, j: int|
        0 <= i < need.len() && 0 <= j < avail.len() ==> alloc[i][j] <= #[trigger] need[i][j])
    &&& (forall|j: int|
        0 <= j < avail.len() ==> avail[j] + #[trigger] col_sum(alloc, j) <= usize::MAX)
}

/// Thread `i`'s outstanding demand is covered, for every resource, by the work
/// at hand in marking state `done`.
pub open spec fn row_fits(
    avail: Seq<usize>,
    alloc: Seq<Seq<usize>>,
    need: Seq<Seq<usize>>,
    done: Seq<bool>,
    i: int,
) -> bool {
    forall|j: int|
        0 <= j < avail.len() ==> need[i][j] - alloc[i][j] <= #[trigger] work_at(
            avail,
            alloc,
            done,
            j,
        )
}

pub open spec fn all_done(done: Seq<bool>) -> bool {
    forall|i: int| 0 <= i < done.len() ==> done[i]
}

/// From marking state `done`, all remaining threads can be finished within
/// `fuel` further steps: either everything is done, or some unfinished thread's
/// outstanding demand fits the work at hand, and after finishing it the rest
/// can follow.
pub open spec fn safe_partial(
    avail: Seq<usize>,
    alloc: Seq<Seq<usize>>,
    need: Seq<Seq<usize>>,
    done: Seq<bool>,
    fuel: nat,
) -> bool
    decreases fuel,
{
    all_done(done) || (fuel > 0 && exists|i: int|
        0 <= i < done.len() && !done[i] && #[trigger] row_fits(avail, alloc, need, done, i)
            && safe_partial(avail, alloc, need, done.update(i, true), (fuel - 1) as nat))
}

/// Marking state in which no thread is finished yet.
pub open spec fn none_done(n: nat) -> Seq<bool> {
    Seq::new(n, |i: int| false)
}

/// Banker's safety: from the given state every thread can finish in some order.
pub open spec fn safe_state(avail: Seq<usize>, alloc: Seq<Seq<usize>>, need: Seq<Seq<usize>>) -> bool {
    safe_partial(avail, alloc, need, none_done(alloc.len()), alloc.len())
}

/// Number of unfinished threads among the first `k`.
pub open spec fn unfinished_upto(done: Seq<bool>, k: int) -> int
    decreases k,
{
    if k <= 0 {
        0
    } else {
        unfinished_upto(done, k - 1) + if done[k - 1] {
            0int
        } else {
            1int
        }
    }
}

pub open spec fn num_unfinished(done: Seq<bool>) -> int {
    unfinished_upto(done, done.len() as int)
}

proof fn lemma_done_col_sum_le(m: Seq<Seq<usize>>, done: Seq<bool>, j: int, k: int)
    ensures
        done_col_sum(m, done, j, k) <= col_sum_upto(m, j, k),
    decreases k,
{
    if k > 0 {
        lemma_done_col_sum_le(m, done, j, k - 1);
    }
}

proof fn lemma_done_col_sum_mono(m: Seq<Seq<usize>>, d1: Seq<bool>, d2: Seq<bool>, j: int, k: int)
    requires
        forall|i: int| 0 <= i < k ==> (d1[i] ==> d2[i]),
    ensures
        done_col_sum(m, d1, j, k) <= done_col_sum(m, d2, j, k),
    decreases k,
{
    if k > 0 {
        lemma_done_col_sum_mono(m, d1, d2, j, k - 1);
    }
}

proof fn lemma_done_col_sum_update(m: Seq<Seq<usize>>, done: Seq<bool>, i: int, j: int, k: int)
    requires
        0 <= i < done.len(),
        k <= done.len(),
    ensures
        done_col_sum(m, done.update(i, true), j, k) == done_col_sum(m, done, j, k) + if i < k
            && !done[i] {
            m[i][j] as int
        } else {
            0int
        },
    decreases k,
{
    if k > 0 {
        lemma_done_col_sum_update(m, done, i, j, k - 1);
    }
}

proof fn lemma_done_col_sum_all_false(m: Seq<Seq<usize>>, done: Seq<bool>, j: int, k: int)
    requires
        forall|i: int| 0 <= i < k ==> !done[i],
    ensures
        done_col_sum(m, done, j, k) == 0,
    decreases k,
{
    if k > 0 {
        lemma_done_col_sum_all_false(m, done, j, k - 1);
    }
}

proof fn lemma_unfinished_upto_nonneg(done: Seq<bool>, k: int)
    ensures
        unfinished_upto(done, k) >= 0,
    decreases k,
{
    if k > 0 {
        lemma_unfinished_upto_nonneg(done, k - 1);
    }
}

proof fn lemma_unfinished_upto_update(done: Seq<bool>, i: int, k: int)
    requires
        0 <= i < done.len(),
        k <= done.len(),
    ensures
        unfinished_upto(done.update(i, true), k) == unfinished_upto(done, k) - if i < k && !done[i] {
            1int
        } else {
            0int
        },
    decreases k,
{
    if k > 0 {
        lemma_unfinished_upto_update(done, i, k - 1);
    }
}

proof fn lemma_unfinished_upto_at_least(done: Seq<bool>, i: int, k: int)
    requires
        0 <= i < k,
        !done[i],
    ensures
        unfinished_upto(done, k) >= 1,
    decreases k,
{
    lemma_unfinished_upto_nonneg(done, k - 1);
    if i < k - 1 {
        lemma_unfinished_upto_at_least(done, i, k - 1);
    }
}

proof fn lemma_unfinished_all_false(done: Seq<bool>, k: int)
    requires
        forall|i: int| 0 <= i < k ==> !done[i],
    ensures
        unfinished_upto(done, k) == k || k < 0,
    decreases k,
{
    if k > 0 {
        lemma_unfinished_all_false(done, k - 1);
    }
}

proof fn lemma_row_fits_mono(
    avail: Seq<usize>,
    alloc: Seq<Seq<usize>>,
    need: Seq<Seq<usize>>,
    d1: Seq<bool>,
    d2: Seq<bool>,
    i: int,
)
    requires
        forall|t: int| 0 <= t < alloc.len() ==> (d1[t] ==> d2[t]),
        row_fits(avail, alloc, need, d1, i),
    ensures
        row_fits(avail, alloc, need, d2, i),
{
    assert forall|j: int|
        0 <= j < avail.len() implies need[i][j] - alloc[i][j] <= #[trigger] work_at(
        avail,
        alloc,
        d2,
        j,
    ) by {
        lemma_done_col_sum_mono(alloc, d1, d2, j, alloc.len() as int);
        assert(need[i][j] - alloc[i][j] <= work_at(avail, alloc, d1, j));
    }
}

/// If every thread left unfinished by `stuck` has outstanding demand that the
/// final work cannot cover, then no completion order exists from any marking
/// state below `stuck`.
proof fn lemma_stuck_unsafe(
    avail: Seq<usize>,
    alloc: Seq<Seq<usize>>,
    need: Seq<Seq<usize>>,
    done: Seq<bool>,
    stuck: Seq<bool>,
    fuel: nat,
)
    requires
        done.len() == alloc.len(),
        stuck.len() == alloc.len(),
        forall|t: int| 0 <= t < alloc.len() ==> (done[t] ==> stuck[t]),
        exists|t: int| 0 <= t < alloc.len() && !stuck[t],
        forall|t: int|
            0 <= t < alloc.len() && !stuck[t] ==> !(#[trigger] row_fits(
                avail,
                alloc,
                need,
                stuck,
                t,
            )),
    ensures
        !safe_partial(avail, alloc, need, done, fuel),
    decreases fuel,
{
    if safe_partial(avail, alloc, need, done, fuel) {
        let w = choose|t: int| 0 <= t < alloc.len() && !stuck[t];
        assert(!done[w]);
        assert(!all_done(done));
        let i = choose|i: int|
            0 <= i < done.len() && !done[i] && #[trigger] row_fits(avail, alloc, need, done, i)
                && safe_partial(avail, alloc, need, done.update(i, true), (fuel - 1) as nat);
        if stuck[i] {
            lemma_stuck_unsafe(avail, alloc, need, done.update(i, true), stuck, (fuel - 1) as nat);
        } else {
            lemma_row_fits_mono(avail, alloc, need, done, stuck, i);
        }
        assert(false);
    }
}


/// A change confined to row `t0` moves a done-column sum by the change of that
/// row's entry, when `t0` is marked done.
pub(crate) proof fn lemma_done_col_sum_update_row(
    m1: Seq<Seq<usize>>,
    m2: Seq<Seq<usize>>,
    done: Seq<bool>,
    t0: int,
    j: int,
    k: int,
)
    requires
        0 <= t0,
        forall|t: int| 0 <= t < k && t != t0 ==> m2[t][j] == m1[t][j],
    ensures
        done_col_sum(m2, done, j, k) == done_col_sum(m1, done, j, k) + if t0 < k && done[t0] {
            m2[t0][j] - m1[t0][j]
        } else {
            0int
        },
    decreases k,
{
    if k > 0 {
        lemma_done_col_sum_update_row(m1, m2, done, t0, j, k - 1);
    }
}

/// Two matrices that agree on column `j` have the same column sum.
pub(crate) proof fn lemma_col_sum_upto_pointwise(m1: Seq<Seq<usize>>, m2: Seq<Seq<usize>>, j: int, k: int)
    requires
        forall|t: int| 0 <= t < k ==> m1[t][j] == m2[t][j],
    ensures
        col_sum_upto(m1, j, k) == col_sum_upto(m2, j, k),
    decreases k,
{
    if k > 0 {
        lemma_col_sum_upto_pointwise(m1, m2, j, k - 1);
    }
}

/// A change confined to row `t0` moves the column sum by the change of that row's entry.
pub(crate) proof fn lemma_col_sum_upto_update_row(
    m1: Seq<Seq<usize>>,
    m2: Seq<Seq<usize>>,
    t0: int,
    j: int,
    k: int,
)
    requires
        0 <= t0,
        forall|t: int| 0 <= t < k && t != t0 ==> m1[t][j] == m2[t][j],
    ensures
        col_sum_upto(m2, j, k) == col_sum_upto(m1, j, k) + if t0 < k {
            m2[t0][j] - m1[t0][j]
        } else {
            0int
        },
    decreases k,
{
    if k > 0 {
        lemma_col_sum_upto_update_row(m1, m2, t0, j, k - 1);
    }
}

/// A column of zeroes sums to zero.
pub(crate) proof fn lemma_col_sum_upto_zero_col(m: Seq<Seq<usize>>, j: int, k: int)
    requires
        forall|t: int| 0 <= t < k ==> m[t][j] == 0,
    ensures
        col_sum_upto(m, j, k) == 0,
    decreases k,
{
    if k > 0 {
        lemma_col_sum_upto_zero_col(m, j, k - 1);
    }
}

pub(crate) proof fn lemma_col_sum_upto_nonneg(m: Seq<Seq<usize>>, j: int, k: int)
    ensures
        col_sum_upto(m, j, k) >= 0,
    decreases k,
{
    if k > 0 {
        lemma_col_sum_upto_nonneg(m, j, k - 1);
    }
}

/// Every single entry is bounded by its column's sum.
pub(crate) proof fn lemma_col_sum_upto_entry(m: Seq<Seq<usize>>, t0: int, j: int, k: int)
    requires
        0 <= t0 < k,
    ensures
        m[t0][j] <= col_sum_upto(m, j, k),
    decreases k,
{
    lemma_col_sum_upto_nonneg(m, j, k - 1);
    if t0 < k - 1 {
        lemma_col_sum_upto_entry(m, t0, j, k - 1);
    }
}

/// Two distinct entries of one column are together bounded by its sum.
pub(crate) proof fn lemma_col_sum_upto_two_entries(
    m: Seq<Seq<usize>>,
    t1: int,
    t2: int,
    j: int,
    k: int,
)
    requires
        0 <= t1 < k,
        0 <= t2 < k,
        t1 != t2,
    ensures
        m[t1][j] + m[t2][j] <= col_sum_upto(m, j, k),
    decreases k,
{
    if t1 < k - 1 && t2 < k - 1 {
        lemma_col_sum_upto_two_entries(m, t1, t2, j, k - 1);
    } else if t1 == k - 1 {
        lemma_col_sum_upto_entry(m, t2, j, k - 1);
    } else {
        lemma_col_sum_upto_entry(m, t1, j, k - 1);
    }
}

/// Runs the Banker's safety algorithm on one resource class: repeatedly marks
/// any unfinished thread whose outstanding demand (`need - alloc`, row-wise)
/// fits in the work vector, returning that thread's allocation to the work,
/// until nothing changes.  Returns whether every thread could be finished.
pub fn banker_safe(available: &Vec<usize>, allocation: &Vec<Vec<usize>>, need: &Vec<Vec<usize>>) -> (safe:
    bool)
    requires
        matrix_wf(available@, mat(allocation@), mat(need@)),
    ensures
        safe == safe_state(available@, mat(allocation@), mat(need@)),
{
    let ghost gav = available@;
    let ghost ga = mat(allocation@);
    let ghost gn = mat(need@);
    let n = allocation.len();
    let m = available.len();

    let mut finished: Vec<bool> = Vec::new();
    let mut t: usize = 0;
    while t < n
        invariant
            t <= n,
            finished@.len() == t,
            forall|i: int| 0 <= i < t ==> !finished@[i],
        decreases n - t,
    {
        finished.push(false);
        t = t + 1;
    }

    let mut work: Vec<usize> = Vec::new();
    let mut j0: usize = 0;
    while j0 < m
        invariant
            j0 <= m,
            m == gav.len(),
            gav == available@,
            work@.len() == j0,
            forall|j: int| 0 <= j < j0 ==> work@[j] == gav[j],
        decreases m - j0,
    {
        work.push(available[j0]);
        j0 = j0 + 1;
    }

    proof {
        assert forall|j: int| 0 <= j < m implies work@[j] == work_at(gav, ga, finished@, j) by {
            lemma_done_col_sum_all_false(ga, finished@, j, n as int);
        }
        assert(finished@ =~= none_done(ga.len()));
        lemma_unfinished_all_false(finished@, n as int);
    }

    let mut progress: bool = true;
    while progress
        invariant
            n == ga.len(),
            n == gn.len(),
            m == gav.len(),
            matrix_wf(gav, ga, gn),
            gav == available@,
            ga == mat(allocation@),
            gn == mat(need@),
            allocation@.len() == n,
            need@.len() == n,
            finished@.len() == n,
            work@.len() == m,
            forall|j: int| 0 <= j < m ==> work@[j] == work_at(gav, ga, finished@, j),
            safe_partial(gav, ga, gn, finished@, num_unfinished(finished@) as nat) ==> safe_state(
                gav,
                ga,
                gn,
            ),
            !progress ==> forall|i: int|
                0 <= i < n && !finished@[i] ==> !(#[trigger] row_fits(gav, ga, gn, finished@, i)),
        decreases num_unfinished(finished@) + if progress {
            1int
        } else {
            0int
        },
    {
        proof {
            lemma_unfinished_upto_nonneg(finished@, n as int);
        }
        let ghost pass_start = finished@;
        let mut marked: bool = false;
        let mut i: usize = 0;
        while i < n
            invariant
                i <= n,
                n == ga.len(),
                n == gn.len(),
                m == gav.len(),
                matrix_wf(gav, ga, gn),
                gav == available@,
                ga == mat(allocation@),
                gn == mat(need@),
                allocation@.len() == n,
                need@.len() == n,
                finished@.len() == n,
                work@.len() == m,
                forall|j: int| 0 <= j < m ==> work@[j] == work_at(gav, ga, finished@, j),
                safe_partial(gav, ga, gn, finished@, num_unfinished(finished@) as nat)
                    ==> safe_state(gav, ga, gn),
                !marked ==> finished@ == pass_start,
                !marked ==> forall|t2: int|
                    0 <= t2 < i && !finished@[t2] ==> !(#[trigger] row_fits(
                        gav,
                        ga,
                        gn,
                        finished@,
                        t2,
                    )),
                marked ==> num_unfinished(finished@) < num_unfinished(pass_start),
                num_unfinished(finished@) <= num_unfinished(pass_start),
            decreases n - i,
        {
            if !finished[i] {
                let mut fits: bool = true;
                let mut j: usize = 0;
                while j < m
                    invariant
                        j <= m,
                        i < n,
                        n == ga.len(),
                        n == gn.len(),
                        m == gav.len(),
                        matrix_wf(gav, ga, gn),
                        gav == available@,
                        ga == mat(allocation@),
                        gn == mat(need@),
                        allocation@.len() == n,
                        need@.len() == n,
                        work@.len() == m,
                        finished@.len() == n,
                        forall|j2: int| 0 <= j2 < m ==> work@[j2] == work_at(gav, ga, finished@, j2),
                        fits == (forall|j2: int|
                            0 <= j2 < j ==> gn[i as int][j2] - ga[i as int][j2]
                                <= #[trigger] work_at(gav, ga, finished@, j2)),
                    decreases m - j,
                {
                    let needv = need[i][j];
                    let allocv = allocation[i][j];
                    assert(needv == gn[i as int][j as int]);
                    assert(allocv == ga[i as int][j as int]);
                    assert(allocv <= needv);
                    if needv - allocv > work[j] {
                        fits = false;
                    }
                    j = j + 1;
                }
                if fits {
                    assert(row_fits(gav, ga, gn, finished@, i as int));
                    let ghost old_finished = finished@;
                    let ghost old_num = num_unfinished(old_finished);
                    finished.set(i, true);
                    proof {
                        lemma_unfinished_upto_update(old_finished, i as int, n as int);
                        lemma_unfinished_upto_at_least(old_finished, i as int, n as int);
                        lemma_unfinished_upto_nonneg(finished@, n as int);
                    }
                    let mut j: usize = 0;
                    while j < m
                        invariant
                            j <= m,
                            i < n,
                            n == ga.len(),
                            m == gav.len(),
                            matrix_wf(gav, ga, gn),
                            gav == available@,
                            ga == mat(allocation@),
                            allocation@.len() == n,
                            finished@ == old_finished.update(i as int, true),
                            !old_finished[i as int],
                            old_finished.len() == n,
                            work@.len() == m,
                            forall|j2: int|
                                0 <= j2 < j ==> work@[j2] == work_at(gav, ga, finished@, j2),
                            forall|j2: int|
                                j <= j2 < m ==> work@[j2] == work_at(gav, ga, old_finished, j2),
                        decreases m - j,
                    {
                        proof {
                            lemma_done_col_sum_update(ga, old_finished, i as int, j as int, n as int);
                            lemma_done_col_sum_le(ga, finished@, j as int, n as int);
                            assert(col_sum(ga, j as int) == col_sum_upto(ga, j as int, n as int));
                            assert(work_at(gav, ga, finished@, j as int) == work_at(
                                gav,
                                ga,
                                old_finished,
                                j as int,
                            ) + ga[i as int][j as int]);
                            assert(work_at(gav, ga, finished@, j as int) <= gav[j as int] + col_sum(
                                ga,
                                j as int,
                            ));
                        }
                        let add = allocation[i][j];
                        assert(add == ga[i as int][j as int]);
                        let sum = work[j] + add;
                        work.set(j, sum);
                        j = j + 1;
                    }
                    proof {
                        if safe_partial(gav, ga, gn, finished@, num_unfinished(finished@) as nat) {
                            assert(0 <= (i as int) < old_finished.len() && !old_finished[i as int]
                                && row_fits(gav, ga, gn, old_finished, i as int) && safe_partial(
                                gav,
                                ga,
                                gn,
                                old_finished.update(i as int, true),
                                (old_num - 1) as nat,
                            ));
                            assert(safe_partial(gav, ga, gn, old_finished, old_num as nat));
                        }
                    }
                    marked = true;
                } else {
                    assert(!row_fits(gav, ga, gn, finished@, i as int));
                }
            }
            i = i + 1;
        }
        proof {
            lemma_unfinished_upto_nonneg(finished@, n as int);
        }
        progress = marked;
    }

    let mut k: usize = 0;
    while k < n
        invariant
            k <= n,
            n == ga.len(),
            n == gn.len(),
            m == gav.len(),
            gav == available@,
            ga == mat(allocation@),
            gn == mat(need@),
            finished@.len() == n,
            safe_partial(gav, ga, gn, finished@, num_unfinished(finished@) as nat) ==> safe_state(
                gav,
                ga,
                gn,
            ),
            forall|i: int|
                0 <= i < n && !finished@[i] ==> !(#[trigger] row_fits(gav, ga, gn, finished@, i)),
            forall|t2: int| 0 <= t2 < k ==> finished@[t2],
        decreases n - k,
    {
        if !finished[k] {
            proof {
                lemma_stuck_unsafe(gav, ga, gn, none_done(ga.len()), finished@, ga.len());
            }
            return false;
        }
        k = k + 1;
    }
    proof {
        assert(all_done(finished@));
        assert(safe_partial(gav, ga, gn, finished@, num_unfinished(finished@) as nat));
    }
    true
}

/// Row-of-`Vec`s matrix seen as a sequence of sequences.
pub open spec fn mat(rows: Seq<Vec<usize>>) -> Seq<Seq<usize>> {
    Seq::new(rows.len(), |i: int| rows[i]@)
}

} // verus!
