//! How much work is handed out, and in what pieces. Whatever is chosen, the results
//! are the same.
use vstd::prelude::*;

use crate::machine::{given_view, physical_cores, read_setting, setting, worker_threads};
use crate::tensor::shape::{capped, saturating_product};

verus! {

pub const LINEAR_MIN_OUTPUTS_PER_CHUNK: usize = 16_384;

/// How many pieces of `size` cover `n`.
pub open spec fn pieces(n: int, size: int) -> int {
    (n + size - 1) / size
}

fn count_pieces(n: usize, size: usize) -> (c: usize)
    requires
        size > 0,
    ensures
        c == pieces(n as int, size as int),
{
    if n == 0 {
        proof {
            assert((size - 1) / (size as int) == 0) by (nonlinear_arith)
                requires
                    size > 0,
            ;
        }
        0
    } else {
        proof {
            let (x, d) = (n - 1, size as int);
            assert((x + d) / d == x / d + 1) by (nonlinear_arith)
                requires
                    d > 0,
                    x >= 0,
            ;
            assert(x / d <= x) by (nonlinear_arith)
                requires
                    d > 0,
                    x >= 0,
            ;
        }
        (n - 1) / size + 1
    }
}

fn larger(a: usize, b: usize) -> (m: usize)
    ensures
        m == most(a as int, b as int),
{
    if a >= b {
        a
    } else {
        b
    }
}

fn smaller(a: usize, b: usize) -> (m: usize)
    ensures
        m == least(a as int, b as int),
{
    if a <= b {
        a
    } else {
        b
    }
}

pub open spec fn most(a: int, b: int) -> int {
    if a >= b {
        a
    } else {
        b
    }
}

pub open spec fn least(a: int, b: int) -> int {
    if a <= b {
        a
    } else {
        b
    }
}

// ---------------------------------------------------------------------------
// Whether to share work
// ---------------------------------------------------------------------------
/// Work on single elements is shared where there are many of them.
pub open spec fn shares_elements(len: int, threads: int) -> bool {
    len >= 16_384 && threads > 1
}

/// Whether work on `len` elements is shared among a number of worker threads.
pub fn decide_elements(len: usize, threads: usize) -> (b: bool)
    ensures
        b == shares_elements(len as int, threads as int),
{
    len >= 16_384 && threads > 1
}

/// Whether work on `len` elements is shared among the worker threads that there are:
/// never where there are few elements.
pub fn should_parallelize(len: usize) -> (b: bool)
    ensures
        b ==> len >= 16_384,
        exists|threads: usize| b == #[trigger] shares_elements(len as int, threads as int),
{
    decide_elements(len, worker_threads())
}

/// A linear layer is shared where it is a lot of work and has many results.
pub open spec fn shares_linear(rows: int, in_dim: int, out_dim: int, threads: int) -> bool {
    threads > 1 && rows >= 2 && in_dim > 0 && out_dim > 0 && capped(capped(rows * in_dim) * out_dim)
        >= 1_000_000 && capped(rows * out_dim) >= 8_192
}

/// Whether a linear layer is shared among a number of worker threads.
pub fn decide_linear(rows: usize, in_dim: usize, out_dim: usize, threads: usize) -> (b: bool)
    ensures
        b == shares_linear(rows as int, in_dim as int, out_dim as int, threads as int),
{
    if threads <= 1 || rows < 2 || in_dim == 0 || out_dim == 0 {
        return false;
    }
    let work: usize = saturating_product(saturating_product(rows, in_dim), out_dim);
    work >= 1_000_000 && saturating_product(rows, out_dim) >= 8_192
}

/// Whether a linear layer is shared among the worker threads that there are.
pub fn should_parallelize_linear(rows: usize, in_dim: usize, out_dim: usize) -> (b: bool)
    ensures
        exists|threads: usize|
            b == #[trigger] shares_linear(
                rows as int,
                in_dim as int,
                out_dim as int,
                threads as int,
            ),
{
    decide_linear(rows, in_dim, out_dim, worker_threads())
}

/// The products of attention are shared where they are a lot of work.
pub open spec fn shares_attention(
    batch: int,
    rows: int,
    shared: int,
    out_dim: int,
    threads: int,
) -> bool {
    threads > 1 && batch > 0 && rows > 0 && shared > 0 && out_dim > 0 && capped(
        capped(capped(batch * rows) * shared) * out_dim,
    ) >= 4_000_000 && capped(batch * rows) >= 32
}

/// Whether the products of attention are shared among a number of worker threads.
pub fn decide_attention(
    batch: usize,
    rows: usize,
    shared: usize,
    out_dim: usize,
    threads: usize,
) -> (b: bool)
    ensures
        b == shares_attention(
            batch as int,
            rows as int,
            shared as int,
            out_dim as int,
            threads as int,
        ),
{
    if threads <= 1 || batch == 0 || rows == 0 || shared == 0 || out_dim == 0 {
        return false;
    }
    let all: usize = saturating_product(batch, rows);
    let work: usize = saturating_product(saturating_product(all, shared), out_dim);
    work >= 4_000_000 && all >= 32
}

/// Whether the products of attention are shared among the worker threads that there
/// are.
pub fn should_parallelize_attention_matmul(
    batch: usize,
    rows: usize,
    shared: usize,
    out_dim: usize,
) -> (b: bool)
    ensures
        exists|threads: usize|
            b == #[trigger] shares_attention(
                batch as int,
                rows as int,
                shared as int,
                out_dim as int,
                threads as int,
            ),
{
    decide_attention(batch, rows, shared, out_dim, worker_threads())
}

// ---------------------------------------------------------------------------
// In what pieces
// ---------------------------------------------------------------------------
/// The number of tasks for a linear layer: the one that is asked for or that of the
/// cores, but no more than there are threads.
pub open spec fn task_count(given: Option<Seq<char>>, cores: int, threads: int) -> int {
    most(least(setting(given, most(cores, 1)), threads), 1)
}

/// Settles the number of tasks, for a number of cores and threads.
pub fn decide_target_tasks(given: Option<&str>, cores: usize, threads: usize) -> (n: usize)
    ensures
        n == task_count(given_view(given), cores as int, threads as int),
        n >= 1,
{
    larger(smaller(read_setting(given, larger(cores, 1)), threads), 1)
}

/// Settles the number of tasks, for the cores that there are.
pub fn linear_target_tasks(given: Option<&str>, threads: usize) -> (n: usize)
    ensures
        exists|cores: usize|
            n == #[trigger] task_count(given_view(given), cores as int, threads as int),
        n >= 1,
{
    let cores: usize = physical_cores();
    decide_target_tasks(given, cores, threads)
}

/// The least number of results of a task.
pub fn linear_min_outputs_per_chunk(given: Option<&str>) -> (n: usize)
    ensures
        n == setting(given_view(given), LINEAR_MIN_OUTPUTS_PER_CHUNK as int),
{
    read_setting(given, LINEAR_MIN_OUTPUTS_PER_CHUNK)
}

/// The number of rows of a task: enough for no more than `tasks` tasks, and for each
/// to have at least `outputs` results.
pub open spec fn task_rows(rows: int, out_dim: int, tasks: int, outputs: int) -> int {
    least(most(most(pieces(rows, tasks), pieces(outputs, most(out_dim, 1))), 1), rows)
}

/// Chooses the number of rows of a task.
pub fn choose_row_chunk_len(rows: usize, out_dim: usize, tasks: usize, outputs: usize) -> (n: usize)
    requires
        tasks >= 1,
    ensures
        n == task_rows(rows as int, out_dim as int, tasks as int, outputs as int),
{
    let by_tasks: usize = count_pieces(rows, tasks);
    let by_outputs: usize = count_pieces(outputs, larger(out_dim, 1));
    smaller(larger(larger(by_tasks, by_outputs), 1), rows)
}

/// Chooses the number of rows of a task for the threads and cores that there are; the
/// texts are those of the variables that set the number of tasks and the least number
/// of results of a task.
pub fn choose_parallel_row_chunk_len(
    rows: usize,
    out_dim: usize,
    tasks_given: Option<&str>,
    outputs_given: Option<&str>,
) -> (n: usize)
    ensures
        exists|threads: usize, cores: usize|
            n == task_rows(
                rows as int,
                out_dim as int,
                #[trigger] task_count(
                    given_view(tasks_given),
                    cores as int,
                    most(threads as int, 1),
                ),
                setting(given_view(outputs_given), LINEAR_MIN_OUTPUTS_PER_CHUNK as int),
            ),
{
    let threads: usize = worker_threads();
    let cores: usize = physical_cores();
    let tasks: usize = decide_target_tasks(tasks_given, cores, larger(threads, 1));
    assert(tasks == task_count(given_view(tasks_given), cores as int, most(threads as int, 1)));
    choose_row_chunk_len(rows, out_dim, tasks, linear_min_outputs_per_chunk(outputs_given))
}

/// The number of rows of a task of attention: four tasks for each thread, of at least
/// a million multiplications.
pub open spec fn attention_rows(rows: int, shared: int, out_dim: int, threads: int) -> int {
    least(
        most(
            most(
                pieces(rows, capped(most(threads, 1) * 4)),
                pieces(1_000_000, most(capped(shared * out_dim), 1)),
            ),
            1,
        ),
        rows,
    )
}

/// Chooses the number of rows of a task of attention for a number of threads.
pub fn choose_attention_rows(rows: usize, shared: usize, out_dim: usize, threads: usize) -> (n: usize)
    ensures
        n == attention_rows(rows as int, shared as int, out_dim as int, threads as int),
{
    let tasks: usize = saturating_product(larger(threads, 1), 4);
    let by_tasks: usize = count_pieces(rows, tasks);
    let by_work: usize = count_pieces(1_000_000, larger(saturating_product(shared, out_dim), 1));
    smaller(larger(larger(by_tasks, by_work), 1), rows)
}

/// Chooses the number of rows of a task of attention for the threads that there are.
pub fn choose_parallel_attention_row_chunk_len(rows: usize, shared: usize, out_dim: usize) -> (n:
    usize)
    ensures
        exists|threads: usize|
            n == #[trigger] attention_rows(
                rows as int,
                shared as int,
                out_dim as int,
                threads as int,
            ),
{
    choose_attention_rows(rows, shared, out_dim, worker_threads())
}

/// Where there are rows, a task has at least one of them and at most all, and no more
/// tasks are made than were asked for.
pub proof fn law_tasks_are_bounded(rows: int, out_dim: int, tasks: int, outputs: int)
    requires
        rows > 0,
        out_dim >= 0,
        tasks >= 1,
        outputs >= 0,
    ensures
        1 <= task_rows(rows, out_dim, tasks, outputs) <= rows,
        pieces(rows, task_rows(rows, out_dim, tasks, outputs)) <= tasks,
{
    let n = task_rows(rows, out_dim, tasks, outputs);
    let by_tasks = pieces(rows, tasks);
    assert(rows <= by_tasks * tasks) by (nonlinear_arith)
        requires
            by_tasks == (rows + tasks - 1) / tasks,
            tasks >= 1,
    ;
    assert(by_tasks <= rows) by (nonlinear_arith)
        requires
            by_tasks == (rows + tasks - 1) / tasks,
            tasks >= 1,
            rows >= 1,
    ;
    assert(n >= by_tasks);
    assert(by_tasks * tasks <= n * tasks) by (nonlinear_arith)
        requires
            by_tasks <= n,
            tasks >= 1,
    ;
    assert((rows + n - 1) / n <= tasks) by (nonlinear_arith)
        requires
            rows <= n * tasks,
            n >= 1,
            rows >= 1,
    ;
}

/// Work is shared out among as many tasks as are given, or as there are cores, but never
/// more than there are threads and never none.
pub proof fn law_tasks_are_as_given(given: Option<Seq<char>>, cores: int, threads: int)
    requires
        cores >= 0,
        threads >= 1,
    ensures
        ({
            let n = task_count(given, cores, threads);
            let wanted = setting(
                given,
                if cores >= 1 {
                    cores
                } else {
                    1
                },
            );
            &&& wanted >= 1 ==> n <= wanted
            &&& 1 <= n <= threads
            &&& n == wanted || n == threads || (n == 1 && wanted < 1)
        }),
{
}

/// Attention is shared out in pieces of whole rows: one row at least and no more than there
/// are; and a piece that is not all of the rows is worth a million products, and is no
/// smaller than the rows shared out among four pieces for every thread.
pub proof fn law_pieces_of_attention_are_worth_it(
    rows: int,
    shared: int,
    out_dim: int,
    threads: int,
)
    requires
        rows >= 1,
        shared >= 1,
        out_dim >= 1,
        1 <= threads,
        4 * threads <= usize::MAX,
        shared * out_dim <= usize::MAX,
    ensures
        ({
            let n = attention_rows(rows, shared, out_dim, threads);
            &&& 1 <= n <= rows
            &&& n < rows ==> n * (shared * out_dim) >= 1_000_000
            &&& n < rows ==> n * (4 * threads) >= rows
        }),
{
    let work = shared * out_dim;
    let n = attention_rows(rows, shared, out_dim, threads);
    assert(work >= 1) by (nonlinear_arith)
        requires
            work == shared * out_dim,
            shared >= 1,
            out_dim >= 1,
    ;
    lemma_pieces_cover(1_000_000, work);
    lemma_pieces_cover(rows, 4 * threads);
    let a = pieces(1_000_000, work);
    let b = pieces(rows, 4 * threads);
    if n < rows {
        assert(n * work >= a * work) by (nonlinear_arith)
            requires
                n >= a,
                work >= 1,
        ;
        assert(n * (4 * threads) >= b * (4 * threads)) by (nonlinear_arith)
            requires
                n >= b,
                threads >= 1,
        ;
    }
}

proof fn lemma_pieces_cover(n: int, size: int)
    requires
        n >= 0,
        size >= 1,
    ensures
        pieces(n, size) * size >= n,
{
    let t = n + size - 1;
    let q = t / size;
    vstd::arithmetic::div_mod::lemma_fundamental_div_mod(t, size);
    let r = t % size;
    assert(0 <= r < size) by (nonlinear_arith)
        requires
            r == t % size,
            size >= 1,
    ;
    assert(q * size == size * q) by (nonlinear_arith);
}

/// Work is shared out only where there are several threads, and enough of it.
pub proof fn law_small_work_is_not_shared(a: int, b: int, c: int, d: int, threads: int)
    requires
        0 <= a,
        0 <= b,
        0 <= c,
        0 <= d,
        a * b <= usize::MAX,
        a * c <= usize::MAX,
        (a * b) * c <= usize::MAX,
        ((a * b) * c) * d <= usize::MAX,
    ensures
        shares_elements(a, threads) <==> threads >= 2 && a >= 16_384,
        shares_linear(a, b, c, threads) <==> threads >= 2 && a >= 2 && (a * b) * c >= 1_000_000 && a
            * c >= 8_192,
        shares_attention(a, b, c, d, threads) <==> threads >= 2 && ((a * b) * c) * d >= 4_000_000
            && a * b >= 32,
{
    assert(b == 0 || c == 0 ==> (a * b) * c == 0) by (nonlinear_arith);
    assert(c == 0 || d == 0 ==> ((a * b) * c) * d == 0) by (nonlinear_arith);
    assert(a == 0 || b == 0 ==> a * b == 0) by (nonlinear_arith);
}

} // verus!
