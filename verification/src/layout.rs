//! How rows and cells are laid out: row-major cell positions, the rows that
//! come before a partition, and the buffer that a sequence of partitions
//! makes up.

use vstd::prelude::*;

verus! {

/// The position of a cell in a row-major buffer that is `ncols` wide.
pub open spec fn cell_index(row: int, col: int, ncols: int) -> int {
    row * ncols + col
}

/// The number of rows in the first `i` partitions.
pub open spec fn rows_before(counts: Seq<usize>, i: int) -> int
    decreases i,
{
    if i <= 0 {
        0
    } else {
        rows_before(counts, i - 1) + counts[i - 1]
    }
}

/// The row of the whole buffer that is row `row` of partition `k`.
pub open spec fn partition_row(counts: Seq<usize>, k: int, row: int) -> int {
    rows_before(counts, k) + row
}

/// The number of rows in all partitions together.
pub open spec fn total_rows(counts: Seq<usize>) -> int {
    rows_before(counts, counts.len() as int)
}

/// The first `n` parts laid end to end.
pub open spec fn concat_upto<T>(parts: Seq<Seq<T>>, n: int) -> Seq<T>
    decreases n,
{
    if n <= 0 {
        Seq::empty()
    } else {
        concat_upto(parts, n - 1) + parts[n - 1]
    }
}

/// All parts laid end to end: the buffer that the partitions make up.
pub open spec fn assemble<T>(parts: Seq<Seq<T>>) -> Seq<T> {
    concat_upto(parts, parts.len() as int)
}

/// The number of rows in all partitions together, unless it is more than a
/// `usize` holds.
pub fn sum_counts(counts: &[usize]) -> (total: Option<usize>)
    ensures
        match total {
            Some(sum) => sum == total_rows(counts@),
            None => total_rows(counts@) > usize::MAX,
        },
{
    let mut total: usize = 0;
    let mut k: usize = 0;
    while k < counts.len()
        invariant
            0 <= k <= counts@.len(),
            total == rows_before(counts@, k as int),
        decreases counts@.len() - k,
    {
        match total.checked_add(counts[k]) {
            Some(next) => {
                total = next;
            },
            None => {
                proof {
                    lemma_rows_before_monotone(
                        counts@,
                        k as int + 1,
                        counts@.len() as int,
                    );
                }
                return None;
            },
        }
        k += 1;
    }
    Some(total)
}

/// A cell position inside the shape lies inside the buffer.
pub proof fn lemma_cell_index_in_bounds(row: int, col: int, nrows: int, ncols: int)
    requires
        0 <= row < nrows,
        0 <= col < ncols,
    ensures
        0 <= row * ncols <= cell_index(row, col, ncols) < nrows * ncols,
{
    assert(row * ncols + col < nrows * ncols) by (nonlinear_arith)
        requires
            0 <= row < nrows,
            0 <= col < ncols,
    ;
    assert(0 <= row * ncols) by (nonlinear_arith)
        requires
            0 <= row,
            0 <= ncols,
    ;
}

/// Different cells of one shape have different positions.
pub proof fn lemma_cell_index_injective(r1: int, c1: int, r2: int, c2: int, ncols: int)
    requires
        0 <= c1 < ncols,
        0 <= c2 < ncols,
        cell_index(r1, c1, ncols) == cell_index(r2, c2, ncols),
    ensures
        r1 == r2,
        c1 == c2,
{
    assert(r1 == r2) by (nonlinear_arith)
        requires
            0 <= c1 < ncols,
            0 <= c2 < ncols,
            r1 * ncols + c1 == r2 * ncols + c2,
    ;
}

/// The rows before a partition grow with the partition's number.
pub proof fn lemma_rows_before_monotone(counts: Seq<usize>, i: int, j: int)
    requires
        0 <= i <= j <= counts.len(),
    ensures
        0 <= rows_before(counts, i) <= rows_before(counts, j),
    decreases j,
{
    if i < j {
        lemma_rows_before_monotone(counts, i, j - 1);
    } else if i > 0 {
        lemma_rows_before_monotone(counts, i - 1, i - 1);
    }
}

/// Every row of the whole belongs to a partition: the one returned.
pub proof fn lemma_row_owner(counts: Seq<usize>, row: int) -> (k: int)
    requires
        0 <= row < total_rows(counts),
    ensures
        0 <= k < counts.len(),
        rows_before(counts, k) <= row < rows_before(counts, k + 1),
{
    lemma_row_owner_upto(counts, row, counts.len() as int)
}

/// A row among the first `n` partitions belongs to one of them.
pub proof fn lemma_row_owner_upto(counts: Seq<usize>, row: int, n: int) -> (k: int)
    requires
        0 <= n <= counts.len(),
        0 <= row < rows_before(counts, n),
    ensures
        0 <= k < n,
        rows_before(counts, k) <= row < rows_before(counts, k + 1),
    decreases n,
{
    if row >= rows_before(counts, n - 1) {
        n - 1
    } else {
        lemma_row_owner_upto(counts, row, n - 1)
    }
}

/// The row ranges of two different partitions share no row: a row belongs to
/// one partition only.
pub proof fn lemma_row_owner_unique(counts: Seq<usize>, row: int, i: int, j: int)
    requires
        0 <= i < counts.len(),
        0 <= j < counts.len(),
        rows_before(counts, i) <= row < rows_before(counts, i + 1),
        rows_before(counts, j) <= row < rows_before(counts, j + 1),
    ensures
        i == j,
{
    if i < j {
        lemma_rows_before_monotone(counts, i + 1, j);
    } else if j < i {
        lemma_rows_before_monotone(counts, j + 1, i);
    }
}

/// Only the first `n` parts count towards their concatenation.
pub proof fn lemma_concat_upto_prefix<T>(a: Seq<Seq<T>>, b: Seq<Seq<T>>, n: int)
    requires
        0 <= n <= a.len(),
        n <= b.len(),
        forall|k: int| 0 <= k < n ==> a[k] == b[k],
    ensures
        concat_upto(a, n) == concat_upto(b, n),
    decreases n,
{
    if n > 0 {
        lemma_concat_upto_prefix(a, b, n - 1);
    }
}

/// Where every part holds whole rows of `ncols` cells, the first `n` parts
/// together hold the cells of the rows before partition `n`.
pub proof fn lemma_concat_upto_len<T>(parts: Seq<Seq<T>>, counts: Seq<usize>, ncols: int, n: int)
    requires
        0 <= ncols,
        0 <= n <= parts.len(),
        parts.len() == counts.len(),
        forall|k: int| 0 <= k < n ==> (#[trigger] parts[k]).len() == counts[k] * ncols,
    ensures
        concat_upto(parts, n).len() == rows_before(counts, n) * ncols,
    decreases n,
{
    if n > 0 {
        lemma_concat_upto_len(parts, counts, ncols, n - 1);
        assert((rows_before(counts, n - 1) + counts[n - 1]) * ncols == rows_before(counts, n - 1)
            * ncols + counts[n - 1] * ncols) by (nonlinear_arith);
    }
}

/// A cell of partition `k` sits in the first `n` parts, for any `n` beyond
/// `k`, at the position that its row of the whole buffer gives it.
pub proof fn lemma_concat_upto_cell<T>(
    parts: Seq<Seq<T>>,
    counts: Seq<usize>,
    ncols: int,
    n: int,
    k: int,
    row: int,
    col: int,
)
    requires
        parts.len() == counts.len(),
        forall|i: int| 0 <= i < n ==> (#[trigger] parts[i]).len() == counts[i] * ncols,
        0 <= k < n <= parts.len(),
        0 <= row < counts[k],
        0 <= col < ncols,
    ensures
        0 <= cell_index(rows_before(counts, k) + row, col, ncols) < concat_upto(parts, n).len(),
        0 <= cell_index(row, col, ncols) < parts[k].len(),
        concat_upto(parts, n)[cell_index(rows_before(counts, k) + row, col, ncols)] == parts[k][cell_index(
            row,
            col,
            ncols,
        )],
    decreases n,
{
    lemma_concat_upto_len(parts, counts, ncols, n - 1);
    lemma_concat_upto_len(parts, counts, ncols, n);
    lemma_rows_before_monotone(counts, 0, k);
    lemma_cell_index_in_bounds(row, col, counts[k] as int, ncols);
    let before = rows_before(counts, k);
    assert((before + row) * ncols + col == before * ncols + (row * ncols + col)) by (nonlinear_arith);
    if k == n - 1 {
        assert(concat_upto(parts, n) == concat_upto(parts, n - 1) + parts[n - 1]);
    } else {
        lemma_concat_upto_cell(parts, counts, ncols, n - 1, k, row, col);
        assert(concat_upto(parts, n) == concat_upto(parts, n - 1) + parts[n - 1]);
    }
}

/// A write into one partition changes no cell of another: where `changed`
/// differs from `parts` in part `i` only, every cell of any other partition
/// `j` is the same in the buffers that the two make up.
pub proof fn lemma_write_stays_in_partition<T>(
    parts: Seq<Seq<T>>,
    changed: Seq<Seq<T>>,
    counts: Seq<usize>,
    ncols: int,
    i: int,
    j: int,
    row: int,
    col: int,
)
    requires
        parts.len() == counts.len(),
        changed.len() == counts.len(),
        forall|k: int| 0 <= k < parts.len() ==> (#[trigger] parts[k]).len() == counts[k] * ncols,
        forall|k: int| 0 <= k < changed.len() ==> (#[trigger] changed[k]).len() == counts[k] * ncols,
        forall|k: int| 0 <= k < parts.len() && k != i ==> parts[k] == changed[k],
        0 <= j < parts.len(),
        j != i,
        0 <= row < counts[j],
        0 <= col < ncols,
    ensures
        assemble(changed)[cell_index(rows_before(counts, j) + row, col, ncols)] == assemble(
            parts,
        )[cell_index(rows_before(counts, j) + row, col, ncols)],
{
    lemma_concat_upto_cell(parts, counts, ncols, parts.len() as int, j, row, col);
    lemma_concat_upto_cell(changed, counts, ncols, changed.len() as int, j, row, col);
}

} // verus!
