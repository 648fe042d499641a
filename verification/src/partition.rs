//! Sharing the rows of a matrix among workers: each worker gets one range of
//! neighbouring rows, and the ranges of all workers cover every row once.

use vstd::prelude::*;

verus! {

/// The number of rows that each worker gets, but for the last ones, which get
/// what is left: the rows divided by the workers, rounded up.
pub open spec fn share(rows: int, workers: int) -> int
    recommends
        workers > 0,
{
    rows / workers + if rows % workers == 0 {
        0int
    } else {
        1int
    }
}

/// The smaller of two numbers.
pub open spec fn at_most(x: int, limit: int) -> int {
    if x <= limit {
        x
    } else {
        limit
    }
}

/// The first row of the worker `worker`.
pub open spec fn range_start(worker: int, rows: int, workers: int) -> int {
    at_most(worker * share(rows, workers), rows)
}

/// The row behind the last row of the worker `worker`.
pub open spec fn range_end(worker: int, rows: int, workers: int) -> int {
    at_most((worker + 1) * share(rows, workers), rows)
}

/// The number of rows that each worker gets: the rows divided by the workers,
/// rounded up.
pub fn rows_per_worker(rows: usize, workers: usize) -> (r: usize)
    requires
        workers > 0,
    ensures
        r == share(rows as int, workers as int),
        r * workers >= rows,
        rows > 0 ==> (r - 1) * workers < rows,
{
    proof {
        lemma_share(rows as int, workers as int);
    }
    if rows % workers == 0 {
        rows / workers
    } else {
        rows / workers + 1
    }
}

/// The workers' shares together hold every row, and one row less in each
/// share would not.
proof fn lemma_share(rows: int, workers: int)
    requires
        rows >= 0,
        workers > 0,
    ensures
        0 <= share(rows, workers) <= rows,
        share(rows, workers) * workers >= rows,
        rows > 0 ==> (share(rows, workers) - 1) * workers < rows,
        rows > 0 ==> share(rows, workers) > 0,
{
    let q = rows / workers;
    let r = rows % workers;
    vstd::arithmetic::div_mod::lemma_fundamental_div_mod(rows, workers);
    assert(0 <= r < workers);
    assert(rows == workers * q + r);
    assert(q >= 0) by (nonlinear_arith)
        requires
            rows == workers * q + r,
            0 <= r < workers,
            rows >= 0,
            workers > 0,
    ;
    assert(q * workers == workers * q) by (nonlinear_arith);
    assert((q + 1) * workers == workers * q + workers) by (nonlinear_arith);
    assert((q - 1) * workers == workers * q - workers) by (nonlinear_arith);
    assert(q <= workers * q) by (nonlinear_arith)
        requires
            q >= 0,
            workers > 0,
    ;
    assert(q == 0 ==> workers * q == 0) by (nonlinear_arith);
}

/// The rows of one worker among `workers`: the first, and the one behind the
/// last.
pub fn worker_range(worker: usize, rows: usize, workers: usize) -> (r: (usize, usize))
    requires
        worker < workers,
    ensures
        r.0 == range_start(worker as int, rows as int, workers as int),
        r.1 == range_end(worker as int, rows as int, workers as int),
        r.0 <= r.1 <= rows,
{
    let per = rows_per_worker(rows, workers);
    proof {
        lemma_share(rows as int, workers as int);
        assert(worker * per <= (worker + 1) * per) by (nonlinear_arith)
            requires
                per >= 0,
                worker >= 0,
        ;
        assert((worker + 1) * per == worker * per + per) by (nonlinear_arith);
    }
    let start = match worker.checked_mul(per) {
        Some(s) => if s <= rows {
            s
        } else {
            rows
        },
        None => rows,
    };
    let end = if per <= rows - start {
        start + per
    } else {
        rows
    };
    (start, end)
}

/// The ranges of the workers lie one behind the other and cover the rows: the
/// first starts at row 0, each ends where the next starts, and the last ends
/// behind the last row. So every row belongs to one worker and to no other.
pub proof fn lemma_ranges_tile(rows: int, workers: int)
    requires
        rows >= 0,
        workers > 0,
    ensures
        range_start(0, rows, workers) == 0,
        range_end(workers - 1, rows, workers) == rows,
        forall|w: int|
            0 <= w < workers ==> #[trigger] range_start(w, rows, workers) <= range_end(
                w,
                rows,
                workers,
            ),
        forall|w: int|
            0 <= w < workers - 1 ==> #[trigger] range_end(w, rows, workers) == range_start(
                w + 1,
                rows,
                workers,
            ),
{
    lemma_share(rows, workers);
    let per = share(rows, workers);
    assert(0 * per == 0);
    assert((workers - 1 + 1) * per == per * workers) by (nonlinear_arith);
    assert forall|w: int| 0 <= w < workers implies #[trigger] range_start(w, rows, workers)
        <= range_end(w, rows, workers) by {
        assert(w * per <= (w + 1) * per) by (nonlinear_arith)
            requires
                per >= 0,
        ;
    }
}

/// The worker that owns a row: the row lies in its range and in that of no
/// other worker.
pub proof fn lemma_row_has_one_owner(row: int, rows: int, workers: int)
    requires
        0 <= row < rows,
        workers > 0,
    ensures
        0 <= row / share(rows, workers) < workers,
        forall|w: int|
            0 <= w < workers ==> ((#[trigger] range_start(w, rows, workers) <= row < range_end(
                w,
                rows,
                workers,
            )) <==> w == row / share(rows, workers)),
{
    lemma_share(rows, workers);
    let per = share(rows, workers);
    let owner = row / per;
    vstd::arithmetic::div_mod::lemma_fundamental_div_mod(row, per);
    assert(0 <= row % per < per);
    assert(row == per * owner + row % per);
    assert(owner >= 0) by (nonlinear_arith)
        requires
            row == per * owner + row % per,
            0 <= row % per < per,
            row >= 0,
    ;
    assert(owner < workers) by (nonlinear_arith)
        requires
            row == per * owner + row % per,
            0 <= row % per,
            per > 0,
            row < rows,
            per * workers >= rows,
    ;
    assert forall|w: int| 0 <= w < workers implies ((#[trigger] range_start(w, rows, workers)
        <= row < range_end(w, rows, workers)) <==> w == owner) by {
        assert((w + 1) * per == w * per + per) by (nonlinear_arith);
        if w == owner {
            assert(w * per == per * owner) by (nonlinear_arith)
                requires
                    w == owner,
            ;
        } else if w < owner {
            assert((w + 1) * per <= per * owner) by (nonlinear_arith)
                requires
                    w + 1 <= owner,
                    per > 0,
            ;
        } else {
            assert(w * per >= per * owner + per) by (nonlinear_arith)
                requires
                    w >= owner + 1,
                    per > 0,
            ;
        }
    }
}

} // verus!
