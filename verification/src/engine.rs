use vstd::prelude::*;

use crate::error::MatrixError;
use crate::matrix::{
    Matrix, compatible, dot, dot_fits, is_product, matrix_mul, multiply_outcome, product_cell,
    products_fit,
};

verus! {

/// One unit of work: the computation of a single output cell. The
/// dispatcher copies the operand row and column into the task and records
/// the cell's row-major position in the output and the worker chosen for it.
pub struct Task {
    pub row: Vec<i64>,
    pub col: Vec<i64>,
    pub flat_index: usize,
    pub worker: usize,
}

/// One answer: the scalar for the output cell at `flat_index`.
#[derive(Clone, Copy, Debug, PartialEq, Eq, Structural)]
pub struct TaskResult {
    pub value: i64,
    pub flat_index: usize,
}

/// The deterministic distribution rule: cell `(i, j)` goes to worker
/// `(i + j) mod n` — a content-independent spread, so no worker receives a
/// whole row or column contiguously.
pub open spec fn worker_for_cell(i: int, j: int, n_workers: int) -> int {
    (i + j) % n_workers
}

/// Task `t` is the correct `k`-th task of a dispatch of `a * b` over
/// `n_workers` queues.
pub open spec fn task_for_cell(a: Matrix, b: Matrix, n_workers: int, k: int, t: Task) -> bool {
    &&& t.flat_index == k
    &&& 0 <= k / (b.cols as int) < a.rows
    &&& 0 <= k % (b.cols as int) < b.cols
    &&& t.row@ == a.row_seq(k / (b.cols as int))
    &&& t.col@ == b.col_seq(k % (b.cols as int))
    &&& t.worker == worker_for_cell(k / (b.cols as int), k % (b.cols as int), n_workers)
    &&& t.worker < n_workers
}

/// The dispatcher's plan: one task per output cell, in row-major
/// submission order, each assigned to its worker. Shape validation happens
/// here, before any work is handed out.
pub fn build_tasks(a: &Matrix, b: &Matrix, n_workers: usize) -> (r: Result<Vec<Task>, MatrixError>)
    requires
        a.well_formed(),
        b.well_formed(),
        n_workers >= 1,
        compatible(*a, *b) ==> a.rows * b.cols <= usize::MAX,
    ensures
        compatible(*a, *b) ==> (r matches Ok(ts) && ts@.len() == a.rows * b.cols && forall|k: int|
            0 <= k < ts@.len() ==> task_for_cell(*a, *b, n_workers as int, k, #[trigger] ts@[k])),
        !compatible(*a, *b) ==> r == Err::<Vec<Task>, MatrixError>(MatrixError::DimensionMismatch),
{
    if a.rows != b.cols || a.cols != b.rows {
        return Err(MatrixError::DimensionMismatch);
    }
    let mut tasks: Vec<Task> = Vec::new();
    let mut i: usize = 0;
    while i < a.rows
        invariant
            a.well_formed(),
            b.well_formed(),
            compatible(*a, *b),
            n_workers >= 1,
            a.rows * b.cols <= usize::MAX,
            i <= a.rows,
            tasks@.len() == i * b.cols,
            forall|k: int| 0 <= k < tasks@.len() ==> task_for_cell(
                *a,
                *b,
                n_workers as int,
                k,
                #[trigger] tasks@[k],
            ),
        decreases a.rows - i,
    {
        let mut j: usize = 0;
        while j < b.cols
            invariant
                a.well_formed(),
                b.well_formed(),
                compatible(*a, *b),
                n_workers >= 1,
                a.rows * b.cols <= usize::MAX,
                i < a.rows,
                j <= b.cols,
                tasks@.len() == i * b.cols + j,
                forall|k: int| 0 <= k < tasks@.len() ==> task_for_cell(
                    *a,
                    *b,
                    n_workers as int,
                    k,
                    #[trigger] tasks@[k],
                ),
            decreases b.cols - j,
        {
            proof {
                assert(i * b.cols + j < a.rows * b.cols && i + j <= a.rows * b.cols) by (
                nonlinear_arith)
                    requires
                        i < a.rows,
                        j < b.cols,
                ;
            }
            let flat_index = i * b.cols + j;
            let worker = (i + j) % n_workers;
            proof {
                vstd::arithmetic::div_mod::lemma_fundamental_div_mod_converse(
                    flat_index as int,
                    b.cols as int,
                    i as int,
                    j as int,
                );
            }
            let t = Task { row: a.get_row(i), col: b.get_col(j), flat_index, worker };
            tasks.push(t);
            j = j + 1;
        }
        proof {
            assert((i + 1) * b.cols == i * b.cols + b.cols) by (nonlinear_arith);
        }
        i = i + 1;
    }
    Ok(tasks)
}

/// A worker's whole job for one task: one dot product, one answer carrying
/// the task's output position. The length check is defensive; correct
/// extraction can never trip it.
pub fn perform_task(t: &Task) -> (r: Result<TaskResult, MatrixError>)
    requires
        t.row@.len() == t.col@.len() ==> dot_fits(t.row@, t.col@),
    ensures
        t.row@.len() == t.col@.len() ==> (r matches Ok(res) && res.flat_index == t.flat_index
            && res.value == dot(t.row@, t.col@)),
        t.row@.len() != t.col@.len() ==> r == Err::<TaskResult, MatrixError>(
            MatrixError::VectorLengthMismatch,
        ),
{
    match matrix_mul(&t.row, &t.col) {
        Ok(value) => Ok(TaskResult { value, flat_index: t.flat_index }),
        Err(e) => Err(e),
    }
}

/// Effect of the collector's writes, one result at a time from the left:
/// each value lands at its own flat index; a result aimed outside the
/// buffer changes nothing.
pub open spec fn place(results: Seq<TaskResult>, buf: Seq<i64>) -> Seq<i64>
    decreases results.len(),
{
    if results.len() == 0 {
        buf
    } else {
        let first = results[0];
        let buf1 = if first.flat_index < buf.len() {
            buf.update(first.flat_index as int, first.value)
        } else {
            buf
        };
        place(results.drop_first(), buf1)
    }
}

/// Placement never changes the buffer's length.
pub proof fn lemma_place_len(results: Seq<TaskResult>, buf: Seq<i64>)
    ensures
        place(results, buf).len() == buf.len(),
    decreases results.len(),
{
    if results.len() > 0 {
        let first = results[0];
        let buf1 = if first.flat_index < buf.len() {
            buf.update(first.flat_index as int, first.value)
        } else {
            buf
        };
        lemma_place_len(results.drop_first(), buf1);
    }
}

/// Placing one more result is one more write.
pub proof fn lemma_place_push(results: Seq<TaskResult>, x: TaskResult, buf: Seq<i64>)
    ensures
        place(results.push(x), buf) == (if x.flat_index < buf.len() {
            place(results, buf).update(x.flat_index as int, x.value)
        } else {
            place(results, buf)
        }),
    decreases results.len(),
{
    lemma_place_len(results, buf);
    if results.len() == 0 {
        assert(results.push(x).drop_first() =~= Seq::<TaskResult>::empty());
        assert(results.push(x)[0] == x);
        assert(place(results, buf) == buf);
        if x.flat_index < buf.len() {
            assert(place(results.push(x), buf) == place(
                results.push(x).drop_first(),
                buf.update(x.flat_index as int, x.value),
            ));
        } else {
            assert(place(results.push(x), buf) == place(results.push(x).drop_first(), buf));
        }
    } else {
        let first = results[0];
        let buf1 = if first.flat_index < buf.len() {
            buf.update(first.flat_index as int, first.value)
        } else {
            buf
        };
        assert(results.push(x)[0] == first);
        assert(results.push(x).drop_first() =~= results.drop_first().push(x));
        lemma_place_push(results.drop_first(), x, buf1);
        assert(buf1.len() == buf.len());
        assert(place(results, buf) == place(results.drop_first(), buf1));
        assert(place(results.push(x), buf) == place(results.drop_first().push(x), buf1));
    }
}

/// Some result in `results` answers for output cell `idx`.
pub open spec fn covered_at(results: Seq<TaskResult>, idx: int) -> bool {
    exists|m: int| 0 <= m < results.len() && (#[trigger] results[m]).flat_index == idx
}

/// `results` is a correct and complete answer stream for `target`: every
/// element hits a cell in range with that cell's value, and every cell is
/// answered at least once. Nothing is said about order or duplication.
pub open spec fn covers(results: Seq<TaskResult>, target: Seq<int>) -> bool {
    &&& forall|m: int| 0 <= m < results.len() ==> (#[trigger] results[m]).flat_index < target.len()
        && results[m].value == target[results[m].flat_index as int]
    &&& forall|idx: int| 0 <= idx < target.len() ==> #[trigger] covered_at(results, idx)
}

/// What placement leaves in each cell: the target value where some result
/// answered for the cell, the initial value elsewhere — provided every
/// result carries its own cell's target value.
pub proof fn lemma_place_complete(results: Seq<TaskResult>, buf: Seq<i64>, target: Seq<int>)
    requires
        buf.len() == target.len(),
        forall|m: int| 0 <= m < results.len() ==> (#[trigger] results[m]).flat_index < target.len()
            && results[m].value == target[results[m].flat_index as int],
    ensures
        forall|idx: int| 0 <= idx < target.len() && covered_at(results, idx) ==> place(
            results,
            buf,
        )[idx] == target[idx],
        forall|idx: int| 0 <= idx < target.len() && !covered_at(results, idx) ==> place(
            results,
            buf,
        )[idx] == buf[idx],
    decreases results.len(),
{
    lemma_place_len(results, buf);
    if results.len() == 0 {
        assert forall|idx: int| 0 <= idx < target.len() implies !covered_at(results, idx) by {
            assert(forall|m: int| !(0 <= m < results.len() && (#[trigger] results[m]).flat_index
                == idx));
        }
    } else {
        let first = results[0];
        let rest = results.drop_first();
        let buf1 = buf.update(first.flat_index as int, first.value);
        assert(first.flat_index < buf.len());
        assert(forall|m: int| 0 <= m < rest.len() ==> (#[trigger] rest[m]) == results[m + 1]);
        lemma_place_complete(rest, buf1, target);
        assert forall|idx: int| 0 <= idx < target.len() && covered_at(results, idx) implies place(
            results,
            buf,
        )[idx] == target[idx] by {
            if covered_at(rest, idx) {
                assert(place(results, buf) == place(rest, buf1));
            } else {
                let m = choose|m: int|
                    0 <= m < results.len() && (#[trigger] results[m]).flat_index == idx;
                if m > 0 {
                    assert(rest[m - 1] == results[m]);
                    assert(covered_at(rest, idx));
                }
                assert(m == 0);
                assert(idx == first.flat_index);
                assert(place(rest, buf1)[idx] == buf1[idx]);
                assert(buf1[idx] == first.value);
            }
        }
        assert forall|idx: int| 0 <= idx < target.len() && !covered_at(results, idx) implies place(
            results,
            buf,
        )[idx] == buf[idx] by {
            assert(results[0].flat_index != idx);
            if covered_at(rest, idx) {
                let m = choose|m: int| 0 <= m < rest.len() && (#[trigger] rest[m]).flat_index == idx;
                assert(results[m + 1] == rest[m]);
                assert(covered_at(results, idx));
            }
            assert(place(rest, buf1)[idx] == buf1[idx]);
            assert(buf1[idx] == buf[idx]);
        }
    }
}

/// Placement is order-independent: two answer streams that both cover the
/// same target — whatever order the workers finished in, however the
/// streams interleave — assemble to the same buffer.
pub proof fn lemma_place_order_independent(
    s1: Seq<TaskResult>,
    s2: Seq<TaskResult>,
    buf: Seq<i64>,
    target: Seq<int>,
)
    requires
        buf.len() == target.len(),
        covers(s1, target),
        covers(s2, target),
    ensures
        place(s1, buf) == place(s2, buf),
{
    lemma_place_complete(s1, buf, target);
    lemma_place_complete(s2, buf, target);
    lemma_place_len(s1, buf);
    lemma_place_len(s2, buf);
    assert forall|idx: int| 0 <= idx < buf.len() implies place(s1, buf)[idx] == place(s2, buf)[idx]
    by {
        assert(covered_at(s1, idx));
        assert(covered_at(s2, idx));
    }
    assert(place(s1, buf) =~= place(s2, buf));
}

/// The values behind a sequence of delivered replies.
pub open spec fn reply_values(replies: Seq<Option<TaskResult>>) -> Seq<TaskResult> {
    replies.map_values(|o: Option<TaskResult>| o->0)
}

/// The collector: visits the replies in submission order. A missing reply
/// — its handle was dropped before an answer arrived — fails the whole
/// operation; no partial matrix is ever returned. Otherwise every value is
/// written at its result's flat index in a zeroed buffer, so the output is
/// correct whatever order the answers were produced in.
pub fn collect_results(replies: &Vec<Option<TaskResult>>, rows: usize, cols: usize) -> (r: Result<
    Matrix,
    MatrixError,
>)
    requires
        rows * cols <= usize::MAX,
    ensures
        (forall|k: int| 0 <= k < replies@.len() ==> replies@[k] is Some) ==> (r matches Ok(m)
            && m.rows == rows && m.cols == cols && m.well_formed() && m.data@ == place(
            reply_values(replies@),
            Seq::new((rows * cols) as nat, |k: int| 0i64),
        )),
        (exists|k: int| 0 <= k < replies@.len() && replies@[k] is None) ==> r == Err::<
            Matrix,
            MatrixError,
        >(MatrixError::ChannelDisconnected),
{
    let ghost zeros = Seq::new((rows * cols) as nat, |k: int| 0i64);
    let mut buf: Vec<i64> = Vec::new();
    let mut z: usize = 0;
    let total = rows * cols;
    while z < total
        invariant
            total == rows * cols,
            z <= total,
            buf@.len() == z,
            forall|k: int| 0 <= k < z ==> buf@[k] == 0i64,
        decreases total - z,
    {
        buf.push(0);
        z = z + 1;
    }
    proof {
        assert(buf@ =~= zeros);
    }
    let mut idx: usize = 0;
    while idx < replies.len()
        invariant
            total == rows * cols,
            buf@.len() == total,
            idx <= replies@.len(),
            forall|m: int| 0 <= m < idx ==> replies@[m] is Some,
            buf@ == place(reply_values(replies@).take(idx as int), zeros),
            zeros == Seq::new((rows * cols) as nat, |k: int| 0i64),
        decreases replies@.len() - idx,
    {
        match &replies[idx] {
            None => {
                return Err(MatrixError::ChannelDisconnected);
            },
            Some(res) => {
                proof {
                    let vals = reply_values(replies@);
                    assert(vals.take(idx + 1) =~= vals.take(idx as int).push(vals[idx as int]));
                    lemma_place_push(vals.take(idx as int), vals[idx as int], zeros);
                    assert(vals[idx as int] == *res);
                }
                if res.flat_index < total {
                    let fi = res.flat_index;
                    let v = res.value;
                    buf[fi] = v;
                }
            },
        }
        idx = idx + 1;
    }
    proof {
        assert(reply_values(replies@).take(replies@.len() as int) =~= reply_values(replies@));
    }
    Ok(Matrix::new(buf, rows, cols))
}

/// Parallel-engine multiplication as one verified pipeline: validate the
/// shapes, dispatch one task per output cell across `n_workers` queues,
/// let each worker drain its own queue in order, then assemble the answer
/// stream by flat index. The stream is produced worker by worker — not in
/// submission order — so the assembly alone restores the layout.
pub fn parallel_multiply(a: &Matrix, b: &Matrix, n_workers: usize) -> (r: Result<
    Matrix,
    MatrixError,
>)
    requires
        a.well_formed(),
        b.well_formed(),
        n_workers >= 1,
        compatible(*a, *b) ==> a.rows * b.cols <= usize::MAX,
        compatible(*a, *b) ==> products_fit(*a, *b),
    ensures
        multiply_outcome(*a, *b, r),
{
    let tasks = match build_tasks(a, b, n_workers) {
        Ok(ts) => ts,
        Err(e) => {
            return Err(e);
        },
    };
    let ghost target = Seq::new((a.rows * b.cols) as nat, |k: int| product_cell(*a, *b, k));
    let mut replies: Vec<Option<TaskResult>> = Vec::new();
    let mut w: usize = 0;
    while w < n_workers
        invariant
            a.well_formed(),
            b.well_formed(),
            compatible(*a, *b),
            n_workers >= 1,
            a.rows * b.cols <= usize::MAX,
            products_fit(*a, *b),
            tasks@.len() == a.rows * b.cols,
            forall|k: int| 0 <= k < tasks@.len() ==> task_for_cell(
                *a,
                *b,
                n_workers as int,
                k,
                #[trigger] tasks@[k],
            ),
            target == Seq::new((a.rows * b.cols) as nat, |k: int| product_cell(*a, *b, k)),
            w <= n_workers,
            forall|m: int| 0 <= m < replies@.len() ==> replies@[m] is Some,
            forall|m: int| 0 <= m < replies@.len() ==> (#[trigger] reply_values(
                replies@,
            )[m]).flat_index < target.len() && reply_values(replies@)[m].value == target[reply_values(
                replies@,
            )[m].flat_index as int],
            forall|k: int| 0 <= k < tasks@.len() && (#[trigger] tasks@[k]).worker < w
                ==> covered_at(reply_values(replies@), k),
        decreases n_workers - w,
    {
        let mut p: usize = 0;
        while p < tasks.len()
            invariant
                a.well_formed(),
                b.well_formed(),
                compatible(*a, *b),
                n_workers >= 1,
                a.rows * b.cols <= usize::MAX,
                products_fit(*a, *b),
                tasks@.len() == a.rows * b.cols,
                forall|k: int| 0 <= k < tasks@.len() ==> task_for_cell(
                    *a,
                    *b,
                    n_workers as int,
                    k,
                    #[trigger] tasks@[k],
                ),
                target == Seq::new((a.rows * b.cols) as nat, |k: int| product_cell(*a, *b, k)),
                w < n_workers,
                p <= tasks@.len(),
                forall|m: int| 0 <= m < replies@.len() ==> replies@[m] is Some,
                forall|m: int| 0 <= m < replies@.len() ==> (#[trigger] reply_values(
                    replies@,
                )[m]).flat_index < target.len() && reply_values(replies@)[m].value
                    == target[reply_values(replies@)[m].flat_index as int],
                forall|k: int| 0 <= k < tasks@.len() && ((#[trigger] tasks@[k]).worker < w || (
                tasks@[k].worker == w && k < p)) ==> covered_at(reply_values(replies@), k),
            decreases tasks@.len() - p,
        {
            if tasks[p].worker == w {
                proof {
                    let t = tasks@[p as int];
                    assert(task_for_cell(*a, *b, n_workers as int, p as int, t));
                    let ti = (p as int) / (b.cols as int);
                    assert(ti * a.cols + a.cols <= a.rows * a.cols) by (nonlinear_arith)
                        requires
                            0 <= ti < a.rows,
                    ;
                    assert(t.row@.len() == a.cols);
                    assert(t.col@.len() == b.rows);
                    assert(dot_fits(t.row@, t.col@));
                }
                let res = match perform_task(&tasks[p]) {
                    Ok(res) => res,
                    Err(e) => {
                        proof {
                            assert(false);
                        }
                        return Err(e);
                    },
                };
                let ghost old_vals = reply_values(replies@);
                replies.push(Some(res));
                proof {
                    let new_vals = reply_values(replies@);
                    assert(new_vals =~= old_vals.push(res));
                    assert(new_vals[old_vals.len() as int] == res);
                    assert(res.flat_index == p && res.value == target[p as int]);
                    assert forall|k: int|
                        0 <= k < tasks@.len() && ((#[trigger] tasks@[k]).worker < w || (
                        tasks@[k].worker == w && k < p + 1)) implies covered_at(new_vals, k) by {
                        if k == p {
                            assert(covered_at(new_vals, k));
                        } else {
                            assert(covered_at(old_vals, k));
                            let m = choose|m: int|
                                0 <= m < old_vals.len() && (#[trigger] old_vals[m]).flat_index
                                    == k;
                            assert(new_vals[m] == old_vals[m]);
                            assert(covered_at(new_vals, k));
                        }
                    }
                }
            } else {
                proof {
                    assert forall|k: int|
                        0 <= k < tasks@.len() && ((#[trigger] tasks@[k]).worker < w || (
                        tasks@[k].worker == w && k < p + 1)) implies covered_at(
                        reply_values(replies@),
                        k,
                    ) by {
                        assert(tasks@[p as int].worker != w);
                        assert(tasks@[k].worker < w || (tasks@[k].worker == w && k < p));
                    }
                }
            }
            p = p + 1;
        }
        w = w + 1;
    }
    proof {
        let vals = reply_values(replies@);
        assert forall|idx: int| 0 <= idx < target.len() implies #[trigger] covered_at(
            vals,
            idx,
        ) by {
            assert(task_for_cell(*a, *b, n_workers as int, idx, tasks@[idx]));
            assert(tasks@[idx].worker < n_workers);
        }
        assert(covers(vals, target));
    }
    let m = match collect_results(&replies, a.rows, b.cols) {
        Ok(m) => m,
        Err(e) => {
            proof {
                assert(false);
            }
            return Err(e);
        },
    };
    proof {
        let vals = reply_values(replies@);
        let zeros = Seq::new((a.rows * b.cols) as nat, |k: int| 0i64);
        lemma_place_complete(vals, zeros, target);
        lemma_place_len(vals, zeros);
        assert forall|k: int| 0 <= k < m.data@.len() implies #[trigger] m.data@[k] == product_cell(
            *a,
            *b,
            k,
        ) by {
            assert(covered_at(vals, k));
            assert(place(vals, zeros)[k] == target[k]);
        }
        assert(is_product(*a, *b, m));
    }
    Ok(m)
}

/// Two multiplication results are observably the same: equal matrices, or
/// the same error.
pub open spec fn same_outcome(r1: Result<Matrix, MatrixError>, r2: Result<
    Matrix,
    MatrixError,
>) -> bool {
    match (r1, r2) {
        (Ok(m1), Ok(m2)) => m1.rows == m2.rows && m1.cols == m2.cols && m1.data@ == m2.data@,
        (Err(e1), Err(e2)) => e1 == e2,
        _ => false,
    }
}

/// The multiplication outcome is a function of the operands alone: any two
/// results that meet the engine's contract are observably the same.
pub proof fn lemma_outcome_deterministic(
    a: Matrix,
    b: Matrix,
    r1: Result<Matrix, MatrixError>,
    r2: Result<Matrix, MatrixError>,
)
    requires
        multiply_outcome(a, b, r1),
        multiply_outcome(a, b, r2),
    ensures
        same_outcome(r1, r2),
{
    if compatible(a, b) {
        let m1 = r1->Ok_0;
        let m2 = r2->Ok_0;
        assert forall|k: int| 0 <= k < m1.data@.len() implies m1.data@[k] == m2.data@[k] by {
            assert(m1.data@[k] == product_cell(a, b, k));
            assert(m2.data@[k] == product_cell(a, b, k));
        }
        assert(m1.data@ =~= m2.data@);
    }
}

/// Law: the parallel path computes exactly what the sequential path
/// computes — the same matrix for every compatible pair, the same
/// dimension error for every incompatible one.
pub proof fn lemma_parallel_equals_sequential(
    a: Matrix,
    b: Matrix,
    sequential: Result<Matrix, MatrixError>,
    parallel: Result<Matrix, MatrixError>,
)
    requires
        multiply_outcome(a, b, sequential),
        multiply_outcome(a, b, parallel),
    ensures
        same_outcome(sequential, parallel),
{
    lemma_outcome_deterministic(a, b, sequential, parallel);
}

/// Law: the size of the worker pool never changes the result. Two parallel
/// runs over pools of any two sizes return observably the same outcome for
/// a fixed input pair.
pub proof fn lemma_worker_count_irrelevant(
    a: Matrix,
    b: Matrix,
    n1: usize,
    n2: usize,
    r1: Result<Matrix, MatrixError>,
    r2: Result<Matrix, MatrixError>,
)
    requires
        n1 >= 1,
        n2 >= 1,
        multiply_outcome(a, b, r1),
        multiply_outcome(a, b, r2),
    ensures
        same_outcome(r1, r2),
{
    lemma_outcome_deterministic(a, b, r1, r2);
}

} // verus!
