use vstd::prelude::*;

verus! {

/// Number of interior rows (rows `1 ..= height - 2`) that worker `id` owns
/// when `num_threads` workers stripe the rows of an image `height` rows tall.
pub open spec fn row_count(id: int, num_threads: int, height: int) -> int {
    if id + 1 <= height - 2 {
        (height - 2 - (id + 1)) / num_threads + 1
    } else {
        0
    }
}

/// The `k`-th row handed to worker `id`.
pub open spec fn nth_row(id: int, num_threads: int, k: int) -> int {
    id + 1 + k * num_threads
}

/// The worker that owns interior row `row`.
pub open spec fn row_owner(row: int, num_threads: int) -> int {
    (row - 1) % num_threads
}

/// The rows of worker `id`, in increasing order: `id + 1, id + 1 + T, ...`,
/// bounded above by `height - 2`.
pub open spec fn worker_row_seq(id: int, num_threads: int, height: int) -> Seq<int> {
    Seq::new(row_count(id, num_threads, height) as nat, |k: int| nth_row(id, num_threads, k))
}

proof fn lemma_row_in_range(id: int, t: int, h: int, k: int)
    requires
        0 <= id < t,
        0 <= k < row_count(id, t, h),
    ensures
        1 <= nth_row(id, t, k) <= h - 2,
        row_owner(nth_row(id, t, k), t) == id,
        (nth_row(id, t, k) - 1) / t == k,
{
    let q = (h - 2 - (id + 1)) / t;
    assert(k <= q);
    assert(k * t <= q * t) by (nonlinear_arith)
        requires k <= q, t >= 1;
    assert(q * t <= h - 2 - (id + 1)) by (nonlinear_arith)
        requires q == (h - 2 - (id + 1)) / t, t >= 1, h - 2 - (id + 1) >= 0;
    assert(k * t >= 0) by (nonlinear_arith)
        requires k >= 0, t >= 1;
    assert((id + k * t) % t == id && (id + k * t) / t == k) by (nonlinear_arith)
        requires 0 <= id < t, k >= 0;
}

proof fn lemma_row_found(r: int, t: int, h: int)
    requires
        t >= 1,
        1 <= r <= h - 2,
    ensures
        0 <= row_owner(r, t) < t,
        0 <= (r - 1) / t < row_count(row_owner(r, t), t, h),
        nth_row(row_owner(r, t), t, (r - 1) / t) == r,
{
    let id = (r - 1) % t;
    let k = (r - 1) / t;
    assert(r - 1 == k * t + id && 0 <= id < t && k >= 0) by (nonlinear_arith)
        requires r >= 1, t >= 1, id == (r - 1) % t, k == (r - 1) / t;
    assert(k <= (h - 2 - (id + 1)) / t) by (nonlinear_arith)
        requires r - 1 == k * t + id, r <= h - 2, t >= 1, 0 <= id, k >= 0;
}

/// Every interior row `1 ..= height - 2` lies in the row sequence of exactly
/// one worker, exactly once; and each worker's sequence holds interior rows
/// only, owned by that worker. So the per-worker sequences together cover the
/// interior rows with no gap and no repeat, whatever the worker count.
pub proof fn lemma_rows_partition_interior(num_threads: int, height: int)
    requires
        num_threads >= 1,
    ensures
        forall|id: int, k: int|
            0 <= id < num_threads && 0 <= k < worker_row_seq(id, num_threads, height).len() ==> {
                let r = #[trigger] worker_row_seq(id, num_threads, height)[k];
                1 <= r <= height - 2 && row_owner(r, num_threads) == id
            },
        forall|r: int|
            1 <= r <= height - 2 ==> {
                let id = #[trigger] row_owner(r, num_threads);
                let k = (r - 1) / num_threads;
                0 <= id < num_threads && 0 <= k < worker_row_seq(id, num_threads, height).len()
                    && worker_row_seq(id, num_threads, height)[k] == r
            },
        forall|i: int, k: int, j: int, m: int|
            0 <= i < num_threads && 0 <= j < num_threads
                && 0 <= k < worker_row_seq(i, num_threads, height).len()
                && 0 <= m < worker_row_seq(j, num_threads, height).len()
                && #[trigger] worker_row_seq(i, num_threads, height)[k]
                    == #[trigger] worker_row_seq(j, num_threads, height)[m]
                ==> i == j && k == m,
{
    assert forall|id: int, k: int|
        0 <= id < num_threads && 0 <= k < worker_row_seq(id, num_threads, height).len() implies {
            let r = #[trigger] worker_row_seq(id, num_threads, height)[k];
            1 <= r <= height - 2 && row_owner(r, num_threads) == id
        } by {
        lemma_row_in_range(id, num_threads, height, k);
    }
    assert forall|r: int| 1 <= r <= height - 2 implies {
        let id = #[trigger] row_owner(r, num_threads);
        let k = (r - 1) / num_threads;
        0 <= id < num_threads && 0 <= k < worker_row_seq(id, num_threads, height).len()
            && worker_row_seq(id, num_threads, height)[k] == r
    } by {
        lemma_row_found(r, num_threads, height);
    }
    assert forall|i: int, k: int, j: int, m: int|
        0 <= i < num_threads && 0 <= j < num_threads
            && 0 <= k < worker_row_seq(i, num_threads, height).len()
            && 0 <= m < worker_row_seq(j, num_threads, height).len()
            && #[trigger] worker_row_seq(i, num_threads, height)[k]
                == #[trigger] worker_row_seq(j, num_threads, height)[m]
        implies i == j && k == m by {
        lemma_row_in_range(i, num_threads, height, k);
        lemma_row_in_range(j, num_threads, height, m);
    }
}

/// The interior rows that worker `id` of `num_threads` processes, in order.
pub fn worker_rows(id: u32, num_threads: u32, height: u32) -> (r: Vec<u32>)
    requires
        num_threads >= 1,
        id < num_threads,
    ensures
        r@.len() == worker_row_seq(id as int, num_threads as int, height as int).len(),
        forall|k: int|
            0 <= k < r@.len() ==> r@[k] as int == worker_row_seq(
                id as int,
                num_threads as int,
                height as int,
            )[k],
{
    let mut rows: Vec<u32> = Vec::new();
    if height < 2 {
        return rows;
    }
    let last: u32 = height - 2;
    let mut row: u64 = id as u64 + 1;
    let ghost count = row_count(id as int, num_threads as int, height as int);
    while row <= last as u64
        invariant
            num_threads >= 1,
            id < num_threads,
            height >= 2,
            last == height - 2,
            count == row_count(id as int, num_threads as int, height as int),
            rows@.len() <= count,
            row == nth_row(id as int, num_threads as int, rows@.len() as int),
            rows@.len() < count ==> row <= last,
            rows@.len() == count ==> row > last,
            forall|k: int|
                0 <= k < rows@.len() ==> rows@[k] as int == nth_row(
                    id as int,
                    num_threads as int,
                    k,
                ),
        decreases count - rows@.len(),
    {
        let ghost n = rows@.len() as int;
        proof {
            if n == count {
                assert(false);
            }
            let q = (height as int - 2 - (id as int + 1)) / num_threads as int;
            assert(count == q + 1);
            assert(n + 1 < count ==> nth_row(id as int, num_threads as int, n + 1) <= last) by {
                if n + 1 < count {
                    lemma_row_in_range(id as int, num_threads as int, height as int, n + 1);
                }
            }
            assert(n + 1 == count ==> nth_row(id as int, num_threads as int, n + 1) > last) by {
                if n + 1 == count {
                    assert(n == q);
                    assert((q + 1) * num_threads > height - 2 - (id + 1)) by (nonlinear_arith)
                        requires q == (height as int - 2 - (id as int + 1)) / num_threads as int,
                            num_threads >= 1;
                    assert(nth_row(id as int, num_threads as int, n + 1) == id + 1 + (q + 1)
                        * num_threads);
                }
            }
        }
        rows.push(row as u32);
        row = row + num_threads as u64;
        assert(row == nth_row(id as int, num_threads as int, n + 1)) by (nonlinear_arith)
            requires row == nth_row(id as int, num_threads as int, n) + num_threads;
    }
    proof {
        if rows@.len() < count {
            assert(false);
        }
    }
    rows
}

} // verus!
