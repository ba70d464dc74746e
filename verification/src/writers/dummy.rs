//! A destination that keeps its cells in memory, for use where no external
//! format is wanted.

use vstd::prelude::*;
use vstd::slice::slice_to_vec;
use crate::errors::ConnectorAgentError;
use crate::grid::{grid_shape, grid_standard_layout, grid_words, Grid};
use crate::layout::{
    assemble, cell_index, concat_upto, lemma_cell_index_in_bounds, lemma_cell_index_injective,
    lemma_concat_upto_cell, lemma_concat_upto_len, lemma_concat_upto_prefix,
    lemma_rows_before_monotone, partition_row, rows_before, sum_counts, total_rows,
};
use crate::types::{CellValue, DataType, Slot};

verus! {

/// The destination buffer for a whole run: `nrows` rows, one column per entry
/// of the schema. Every cell is a 64-bit word in `buffer` and a presence flag.
pub struct DummyWriter {
    nrows: usize,
    schema_: Vec<DataType>,
    pub buffer: Grid,
    validity: Vec<bool>,
}

/// A view of some consecutive rows of a [`DummyWriter`], which it alone can
/// write while it lives. The rows are held in row-major order.
pub struct DummyPartitionWriter<'a> {
    pub cells: &'a mut [u64],
    pub validity: &'a mut [bool],
    pub nrows: usize,
    pub schema: Vec<DataType>,
}

impl DummyWriter {
    /// The number of rows.
    pub closed spec fn rows(&self) -> nat {
        self.nrows as nat
    }

    /// The declared type of each column.
    pub closed spec fn columns(&self) -> Seq<DataType> {
        self.schema_@
    }

    /// The words of all cells, row after row.
    pub closed spec fn words(&self) -> Seq<u64> {
        grid_words(self.buffer)
    }

    /// The presence flags of all cells, row after row.
    pub closed spec fn flags(&self) -> Seq<bool> {
        self.validity@
    }

    /// The array has the shape that the row count and the schema give, and
    /// lies in memory row after row.
    pub closed spec fn shaped(&self) -> bool {
        &&& grid_shape(self.buffer) == (self.nrows as nat, self.schema_@.len())
        &&& grid_standard_layout(self.buffer)
    }

    /// The buffer holds exactly one word and one flag for every cell.
    pub open spec fn wf(&self) -> bool {
        &&& self.shaped()
        &&& self.words().len() == self.rows() * self.columns().len()
        &&& self.flags().len() == self.rows() * self.columns().len()
    }

    /// What the cell at a row and a column holds.
    pub open spec fn slot(&self, row: int, col: int) -> Slot {
        Slot {
            word: self.words()[cell_index(row, col, self.columns().len() as int)],
            present: self.flags()[cell_index(row, col, self.columns().len() as int)],
        }
    }

    /// The value that the cell at a row and a column stands for.
    pub open spec fn value(&self, row: int, col: int) -> CellValue {
        self.columns()[col].decode(self.slot(row, col))
    }

    /// Every cell holds the slot of a value of its column's type.
    pub open spec fn populated(&self) -> bool {
        forall|row: int, col: int|
            0 <= row < self.rows() && 0 <= col < self.columns().len() ==> #[trigger] self.slot(row, col)
                == self.value(row, col).encode()
    }

    /// Whether a buffer of that many rows and columns is small enough to be
    /// allocated: neither side nor the size of the words in bytes is more
    /// than an `isize` holds.
    pub open spec fn allocatable(nrows: int, ncols: int) -> bool {
        &&& nrows <= isize::MAX
        &&& ncols <= isize::MAX
        &&& nrows * ncols * 8 <= isize::MAX
    }

    /// Whether a buffer of that many rows and columns can be allocated.
    pub fn fits(nrows: usize, ncols: usize) -> (ok: bool)
        ensures
            ok == Self::allocatable(nrows as int, ncols as int),
    {
        let limit: usize = isize::MAX as usize;
        if nrows > limit || ncols > limit {
            return false;
        }
        if nrows == 0 || ncols == 0 {
            assert(nrows * ncols * 8 == 0) by (nonlinear_arith)
                requires
                    nrows == 0 || ncols == 0,
            ;
            return true;
        }
        let per_row: usize = limit / 8 / ncols;
        assert(nrows <= per_row <==> nrows * ncols * 8 <= limit) by (nonlinear_arith)
            requires
                ncols > 0,
                per_row == (limit / 8) / ncols,
                0 <= nrows,
        ;
        nrows <= per_row
    }

    /// Makes the buffer for `nrows` rows of the given schema. Every cell
    /// starts as a zero word that is not present.
    pub fn allocate(nrows: usize, schema: Vec<DataType>) -> (w: Self)
        requires
            Self::allocatable(nrows as int, schema@.len() as int),
        ensures
            w.wf(),
            w.rows() == nrows,
            w.columns() == schema@,
            w.words() == Seq::new((nrows * schema@.len()) as nat, |i: int| 0u64),
            w.flags() == Seq::new((nrows * schema@.len()) as nat, |i: int| false),
    {
        let ncols: usize = schema.len();
        assert(nrows * ncols <= isize::MAX) by (nonlinear_arith)
            requires
                nrows * ncols * 8 <= isize::MAX,
        ;
        let total: usize = nrows * ncols;
        let validity: Vec<bool> = vec![false; total];
        assert(validity@ =~= Seq::new(total as nat, |i: int| false));
        DummyWriter { nrows, schema_: schema, buffer: Grid::zeros(nrows, ncols), validity }
    }

    /// Splits the buffer into one view for each entry of `counts`, in order:
    /// view `k` shows the `counts[k]` rows that follow the rows of the views
    /// before it. When the views are gone the buffer holds what they held,
    /// laid end to end.
    pub fn partition_writer<'a>(&'a mut self, counts: &[usize]) -> (views: Vec<
        DummyPartitionWriter<'a>,
    >)
        requires
            old(self).wf(),
            total_rows(counts@) == old(self).rows(),
        ensures
            views@.len() == counts@.len(),
            forall|k: int|
                0 <= k < views@.len() ==> {
                    let ncols = old(self).columns().len() as int;
                    let view = #[trigger] views@[k];
                    &&& view.wf()
                    &&& view.nrows == counts@[k]
                    &&& view.schema@ == old(self).columns()
                    &&& view.cells@ == old(self).words().subrange(
                        rows_before(counts@, k) * ncols,
                        rows_before(counts@, k + 1) * ncols,
                    )
                    &&& view.validity@ == old(self).flags().subrange(
                        rows_before(counts@, k) * ncols,
                        rows_before(counts@, k + 1) * ncols,
                    )
                },
            forall|k: int, r: int, c: int|
                0 <= k < views@.len() && 0 <= r < counts@[k] && 0 <= c < old(self).columns().len()
                    ==> #[trigger] views@[k].slot(r, c) == old(self).slot(partition_row(counts@, k, r), c),
            final(self).rows() == old(self).rows(),
            final(self).columns() == old(self).columns(),
            final(self).shaped(),
            final(self).words().len() == old(self).words().len(),
            final(self).words() == assemble(
                Seq::new(views@.len(), |k: int| final(views@[k].cells)@),
            ),
            final(self).flags() == assemble(
                Seq::new(views@.len(), |k: int| final(views@[k].validity)@),
            ),
    {
        let n: usize = counts.len();
        let ncols: usize = self.schema_.len();
        let ghost words0 = grid_words(self.buffer);
        let ghost flags0 = self.validity@;
        let ghost total = self.nrows as int;
        let ghost width = ncols as int;
        let mut rest_cells = self.buffer.words_mut();
        let mut rest_flags = self.validity.as_mut_slice();
        let ghost words_end = final(rest_cells)@;
        let ghost flags_end = final(rest_flags)@;
        let mut views: Vec<DummyPartitionWriter<'a>> = Vec::new();
        let mut k: usize = 0;
        while k < n
            invariant
                n == counts@.len(),
                0 <= k <= n,
                width == ncols,
                views@.len() == k,
                total_rows(counts@) == total,
                words0.len() == total * width,
                flags0.len() == total * width,
                ncols == self.schema_@.len(),
                rest_cells@ == words0.subrange(rows_before(counts@, k as int) * width, total * width),
                rest_flags@ == flags0.subrange(rows_before(counts@, k as int) * width, total * width),
                forall|j: int|
                    0 <= j < k ==> {
                        let view = #[trigger] views@[j];
                        &&& view.wf()
                        &&& view.nrows == counts@[j]
                        &&& view.schema@ == self.schema_@
                        &&& view.cells@ == words0.subrange(
                            rows_before(counts@, j) * width,
                            rows_before(counts@, j + 1) * width,
                        )
                        &&& view.validity@ == flags0.subrange(
                            rows_before(counts@, j) * width,
                            rows_before(counts@, j + 1) * width,
                        )
                    },
                words_end == concat_upto(
                    Seq::new(k as nat, |j: int| final(views@[j].cells)@),
                    k as int,
                ) + final(rest_cells)@,
                flags_end == concat_upto(
                    Seq::new(k as nat, |j: int| final(views@[j].validity)@),
                    k as int,
                ) + final(rest_flags)@,
            decreases n - k,
        {
            let count: usize = counts[k];
            let ghost lo = rows_before(counts@, k as int);
            let ghost hi = rows_before(counts@, k as int + 1);
            proof {
                lemma_rows_before_monotone(counts@, 0, k as int);
                lemma_rows_before_monotone(counts@, k as int + 1, n as int);
                assert(hi == lo + count);
                assert(lo * width <= hi * width <= total * width && hi * width == lo * width + count
                    * width) by (nonlinear_arith)
                    requires
                        0 <= lo <= hi <= total,
                        hi == lo + count,
                        0 <= width,
                ;
            }
            assert(rest_cells.len() == rest_cells@.len());
            let len: usize = count * ncols;
            let (head_cells, tail_cells) = rest_cells.split_at_mut(len);
            let (head_flags, tail_flags) = rest_flags.split_at_mut(len);
            assert(head_cells@ =~= words0.subrange(lo * width, hi * width));
            assert(tail_cells@ =~= words0.subrange(hi * width, total * width));
            assert(head_flags@ =~= flags0.subrange(lo * width, hi * width));
            assert(tail_flags@ =~= flags0.subrange(hi * width, total * width));
            rest_cells = tail_cells;
            rest_flags = tail_flags;
            let schema = slice_to_vec(self.schema_.as_slice());
            let ghost before = views@;
            views.push(DummyPartitionWriter::new(head_cells, head_flags, count, schema));
            proof {
                let cells_then = Seq::new(k as nat, |j: int| final(before[j].cells)@);
                let cells_now = Seq::new((k + 1) as nat, |j: int| final(views@[j].cells)@);
                lemma_concat_upto_prefix(cells_then, cells_now, k as int);
                let flags_then = Seq::new(k as nat, |j: int| final(before[j].validity)@);
                let flags_now = Seq::new((k + 1) as nat, |j: int| final(views@[j].validity)@);
                lemma_concat_upto_prefix(flags_then, flags_now, k as int);
            }
            k += 1;
        }
        proof {
            assert(final(rest_cells)@ =~= Seq::<u64>::empty());
            assert(final(rest_flags)@ =~= Seq::<bool>::empty());
            assert forall|j: int, r: int, c: int|
                0 <= j < views@.len() && 0 <= r < counts@[j] && 0 <= c < width implies #[trigger] views@[j].slot(
                r,
                c,
            ) == old(self).slot(partition_row(counts@, j, r), c) by {
                let lo = rows_before(counts@, j);
                lemma_rows_before_monotone(counts@, 0, j);
                lemma_rows_before_monotone(counts@, j + 1, n as int);
                lemma_cell_index_in_bounds(r, c, counts@[j] as int, width);
                lemma_cell_index_in_bounds(lo + r, c, total, width);
                assert((lo + r) * width + c == lo * width + (r * width + c)) by (nonlinear_arith);
                assert((lo + counts@[j]) * width == lo * width + counts@[j] * width) by (nonlinear_arith);
                assert(rows_before(counts@, j + 1) == lo + counts@[j]);
                assert(rows_before(counts@, j + 1) * width <= total * width) by (nonlinear_arith)
                    requires
                        rows_before(counts@, j + 1) <= total,
                        0 <= width,
                ;
                let view = views@[j];
                let at = cell_index(r, c, width);
                assert(view.cells@[at] == words0[lo * width + at]);
                assert(view.validity@[at] == flags0[lo * width + at]);
                assert(old(self).words() == words0);
                assert(old(self).flags() == flags0);
                assert(old(self).columns().len() == width);
            }
        }
        views
    }

    /// Splits the buffer as [`Self::partition_writer`] does where the counts
    /// add up to the rows of the buffer, and fails without touching it where
    /// they do not.
    pub fn try_partition_writer<'a>(&'a mut self, counts: &[usize]) -> (res: Result<
        Vec<DummyPartitionWriter<'a>>,
        ConnectorAgentError,
    >)
        requires
            old(self).wf(),
        ensures
            res is Ok <==> total_rows(counts@) == old(self).rows(),
            res matches Err(e) ==> {
                &&& e == ConnectorAgentError::PartitionCountMismatch
                &&& final(self).words() == old(self).words()
                &&& final(self).flags() == old(self).flags()
            },
            res matches Ok(views) ==> {
                &&& views@.len() == counts@.len()
                &&& forall|k: int|
                    0 <= k < views@.len() ==> {
                        let ncols = old(self).columns().len() as int;
                        let view = #[trigger] views@[k];
                        &&& view.wf()
                        &&& view.nrows == counts@[k]
                        &&& view.schema@ == old(self).columns()
                        &&& view.cells@ == old(self).words().subrange(
                            rows_before(counts@, k) * ncols,
                            rows_before(counts@, k + 1) * ncols,
                        )
                        &&& view.validity@ == old(self).flags().subrange(
                            rows_before(counts@, k) * ncols,
                            rows_before(counts@, k + 1) * ncols,
                        )
                    }
                &&& forall|k: int, r: int, c: int|
                    0 <= k < views@.len() && 0 <= r < counts@[k] && 0 <= c < old(self).columns().len()
                        ==> #[trigger] views@[k].slot(r, c) == old(self).slot(
                        partition_row(counts@, k, r),
                        c,
                    )
                &&& final(self).words() == assemble(
                    Seq::new(views@.len(), |k: int| final(views@[k].cells)@),
                )
                &&& final(self).flags() == assemble(
                    Seq::new(views@.len(), |k: int| final(views@[k].validity)@),
                )
            },
            final(self).rows() == old(self).rows(),
            final(self).columns() == old(self).columns(),
            final(self).shaped(),
            final(self).words().len() == old(self).words().len(),
    {
        match sum_counts(counts) {
            Some(total) => {
                if total == self.nrows {
                    Ok(self.partition_writer(counts))
                } else {
                    Err(ConnectorAgentError::PartitionCountMismatch)
                }
            },
            None => Err(ConnectorAgentError::PartitionCountMismatch),
        }
    }

    /// The declared type of each column.
    pub fn schema(&self) -> (schema: &[DataType])
        ensures
            schema@ == self.columns(),
    {
        self.schema_.as_slice()
    }

    /// The number of rows.
    pub fn nrows(&self) -> (n: usize)
        ensures
            n == self.rows(),
    {
        self.nrows
    }

    /// The number of columns.
    pub fn ncols(&self) -> (n: usize)
        ensures
            n == self.columns().len(),
    {
        self.schema_.len()
    }

    /// Whether the buffer is whole: the test of [`Self::wf`] for a caller
    /// that cannot know it otherwise.
    pub fn is_wf(&self) -> (ok: bool)
        ensures
            ok == self.wf(),
    {
        let ncols: usize = self.schema_.len();
        let shape = self.buffer.dim();
        let words: usize = self.buffer.len();
        let flags: usize = self.validity.len();
        if shape.0 != self.nrows || shape.1 != ncols || !self.buffer.is_standard_layout() {
            return false;
        }
        match self.nrows.checked_mul(ncols) {
            Some(cells) => words == cells && flags == cells,
            None => false,
        }
    }

    /// The number of rows and of columns of the array that holds the words.
    pub fn shape(&self) -> (shape: (usize, usize))
        requires
            self.wf(),
        ensures
            shape.0 == self.rows(),
            shape.1 == self.columns().len(),
    {
        self.buffer.dim()
    }

    /// Reads the cell at a row and a column as a value of the column's
    /// declared type, or nothing when the buffer has no such cell.
    pub fn get(&self, row: usize, col: usize) -> (value: Option<CellValue>)
        requires
            self.wf(),
        ensures
            value == if row < self.rows() && col < self.columns().len() {
                Some(self.value(row as int, col as int))
            } else {
                None
            },
    {
        if row < self.nrows && col < self.schema_.len() {
            proof {
                lemma_cell_index_in_bounds(
                    row as int,
                    col as int,
                    self.nrows as int,
                    self.schema_@.len() as int,
                );
            }
            assert(self.validity.len() == self.validity@.len());
            match self.buffer.get(row, col) {
                Some(word) => {
                    let present = self.validity[row * self.schema_.len() + col];
                    Some(self.schema_[col].read(Slot { word, present }))
                },
                None => None,
            }
        } else {
            None
        }
    }
}

impl Clone for DummyWriter {
    /// A second buffer with the same shape, schema and cells.
    fn clone(&self) -> (copy: Self)
        ensures
            copy.rows() == self.rows(),
            copy.columns() == self.columns(),
            copy.words() == self.words(),
            copy.flags() == self.flags(),
            copy.wf() == self.wf(),
    {
        DummyWriter {
            nrows: self.nrows,
            schema_: slice_to_vec(self.schema_.as_slice()),
            buffer: self.buffer.clone(),
            validity: slice_to_vec(self.validity.as_slice()),
        }
    }
}

impl<'a> DummyPartitionWriter<'a> {
    /// The number of rows that the view shows.
    pub open spec fn rows(&self) -> nat {
        self.nrows as nat
    }

    /// The declared type of each column.
    pub open spec fn columns(&self) -> Seq<DataType> {
        self.schema@
    }

    /// The view holds exactly one word and one flag for every cell.
    pub open spec fn wf(&self) -> bool {
        &&& self.cells@.len() == self.nrows * self.schema@.len()
        &&& self.validity@.len() == self.nrows * self.schema@.len()
    }

    /// What the cell at a row and a column of the view holds.
    pub open spec fn slot(&self, row: int, col: int) -> Slot {
        Slot {
            word: self.cells@[cell_index(row, col, self.schema@.len() as int)],
            present: self.validity@[cell_index(row, col, self.schema@.len() as int)],
        }
    }

    /// The value that the cell at a row and a column stands for.
    pub open spec fn value(&self, row: int, col: int) -> CellValue {
        self.schema@[col].decode(self.slot(row, col))
    }

    /// Every cell of the view holds the slot of a value of its column's type.
    pub open spec fn populated(&self) -> bool {
        forall|row: int, col: int|
            0 <= row < self.rows() && 0 <= col < self.columns().len() ==> #[trigger] self.slot(row, col)
                == self.value(row, col).encode()
    }

    /// The view after a write of `slot` at a row and a column of `self`: that
    /// cell holds the slot, every other cell and the shape are as before.
    pub open spec fn stores(&self, after: &Self, row: int, col: int, slot: Slot) -> bool {
        let at = cell_index(row, col, self.schema@.len() as int);
        &&& after.nrows == self.nrows
        &&& after.schema@ == self.schema@
        &&& after.cells@ == self.cells@.update(at, slot.word)
        &&& after.validity@ == self.validity@.update(at, slot.present)
    }

    /// The view after a call that wrote nothing.
    pub open spec fn unchanged(&self, after: &Self) -> bool {
        &&& after.nrows == self.nrows
        &&& after.schema@ == self.schema@
        &&& after.cells@ == self.cells@
        &&& after.validity@ == self.validity@
    }

    fn new(cells: &'a mut [u64], validity: &'a mut [bool], nrows: usize, schema: Vec<DataType>) -> (view:
        Self)
        ensures
            view.cells@ == old(cells)@,
            view.validity@ == old(validity)@,
            view.nrows == nrows,
            view.schema == schema,
            final(view.cells)@ == final(cells)@,
            final(view.validity)@ == final(validity)@,
    {
        Self { cells, validity, nrows, schema }
    }

    /// Writes the value's slot into the cell at a row and a column without
    /// looking at the column's declared type.
    pub fn write(&mut self, row: usize, col: usize, value: CellValue)
        requires
            old(self).wf(),
            row < old(self).rows(),
            col < old(self).columns().len(),
        ensures
            final(self).wf(),
            old(self).stores(final(self), row as int, col as int, value.encode()),
            final(self).slot(row as int, col as int) == value.encode(),
            forall|r: int, c: int|
                0 <= r < old(self).rows() && 0 <= c < old(self).columns().len() && (r != row || c
                    != col) ==> #[trigger] final(self).slot(r, c) == old(self).slot(r, c),
            final(final(self).cells)@ == final(old(self).cells)@,
            final(final(self).validity)@ == final(old(self).validity)@,
    {
        let ncols: usize = self.schema.len();
        proof {
            assert(self.cells.len() == self.cells@.len());
            lemma_cell_index_in_bounds(row as int, col as int, self.nrows as int, ncols as int);
        }
        let at: usize = row * ncols + col;
        let slot = value.to_slot();
        self.cells[at] = slot.word;
        self.validity[at] = slot.present;
        proof {
            assert forall|r: int, c: int|
                0 <= r < old(self).rows() && 0 <= c < old(self).columns().len() && (r != row || c
                    != col) implies #[trigger] self.slot(r, c) == old(self).slot(r, c) by {
                lemma_cell_index_in_bounds(r, c, self.nrows as int, ncols as int);
                if cell_index(r, c, ncols as int) == at {
                    lemma_cell_index_injective(r, c, row as int, col as int, ncols as int);
                }
            }
        }
    }

    /// Checks the value's type against the column's declared type and, where
    /// the column accepts it, writes the value as [`Self::write`] does. Where
    /// it does not, nothing is written and the error names the declared type
    /// and the type found.
    pub fn write_safe(&mut self, row: usize, col: usize, value: CellValue) -> (res: Result<
        (),
        ConnectorAgentError,
    >)
        requires
            old(self).wf(),
            row < old(self).rows(),
            col < old(self).columns().len(),
        ensures
            final(self).wf(),
            res is Ok <==> old(self).columns()[col as int].accepts(value.data_type()),
            res is Ok ==> {
                &&& old(self).stores(final(self), row as int, col as int, value.encode())
                &&& final(self).slot(row as int, col as int) == value.encode()
                &&& final(self).value(row as int, col as int) == value
                &&& forall|r: int, c: int|
                    0 <= r < old(self).rows() && 0 <= c < old(self).columns().len() && (r != row
                        || c != col) ==> #[trigger] final(self).slot(r, c) == old(self).slot(r, c)
            },
            res is Err ==> {
                &&& res == Err::<(), ConnectorAgentError>(
                    ConnectorAgentError::DataTypeCheckFailed(
                        old(self).columns()[col as int],
                        value.data_type(),
                    ),
                )
                &&& old(self).unchanged(final(self))
            },
            final(final(self).cells)@ == final(old(self).cells)@,
            final(final(self).validity)@ == final(old(self).validity)@,
    {
        let declared = self.schema[col];
        let found = value.found();
        if !declared.verify(found) {
            return Err(ConnectorAgentError::DataTypeCheckFailed(declared, found));
        }
        self.write(row, col, value);
        Ok(())
    }

    /// Whether the view is whole: the test of [`Self::wf`] for a caller that
    /// cannot know it otherwise.
    pub fn is_wf(&self) -> (ok: bool)
        ensures
            ok == self.wf(),
    {
        let words: usize = self.cells.len();
        let flags: usize = self.validity.len();
        match self.nrows.checked_mul(self.schema.len()) {
            Some(cells) => words == cells && flags == cells,
            None => false,
        }
    }

    /// The number of rows that the view shows.
    pub fn nrows(&self) -> (n: usize)
        ensures
            n == self.rows(),
    {
        self.nrows
    }

    /// The number of columns.
    pub fn ncols(&self) -> (n: usize)
        ensures
            n == self.columns().len(),
    {
        self.schema.len()
    }

    /// Reads the cell at a row and a column of the view as a value of the
    /// column's declared type, or nothing when the view has no such cell.
    pub fn get(&self, row: usize, col: usize) -> (value: Option<CellValue>)
        requires
            self.wf(),
        ensures
            value == if row < self.rows() && col < self.columns().len() {
                Some(self.value(row as int, col as int))
            } else {
                None
            },
    {
        let ncols: usize = self.schema.len();
        if row < self.nrows && col < ncols {
            proof {
                assert(self.cells.len() == self.cells@.len());
                lemma_cell_index_in_bounds(row as int, col as int, self.nrows as int, ncols as int);
            }
            let at: usize = row * ncols + col;
            Some(self.schema[col].read(Slot { word: self.cells[at], present: self.validity[at] }))
        } else {
            None
        }
    }
}

/// Once the views of a partitioning are gone the buffer is whole again, with
/// the rows that it had, and row `r` of view `k` is the row of the buffer
/// that follows the rows of the views before `k`.
///
/// `views` are the views as they were when they went; that the buffer is
/// made up of what they held then is what [`DummyWriter::partition_writer`]
/// ensures.
pub proof fn lemma_views_settle(
    writer: &DummyWriter,
    counts: Seq<usize>,
    views: Seq<DummyPartitionWriter<'_>>,
)
    requires
        writer.shaped(),
        total_rows(counts) == writer.rows(),
        views.len() == counts.len(),
        forall|k: int|
            0 <= k < views.len() ==> {
                let view = #[trigger] views[k];
                &&& view.wf()
                &&& view.nrows == counts[k]
                &&& view.schema@ == writer.columns()
            },
        writer.words() == assemble(Seq::new(views.len(), |k: int| views[k].cells@)),
        writer.flags() == assemble(Seq::new(views.len(), |k: int| views[k].validity@)),
    ensures
        writer.wf(),
        forall|k: int, r: int, c: int|
            0 <= k < views.len() && 0 <= r < counts[k] && 0 <= c < writer.columns().len()
                ==> #[trigger] writer.slot(partition_row(counts, k, r), c) == views[k].slot(r, c),
{
    let n = views.len() as int;
    let ncols = writer.columns().len() as int;
    let cells = Seq::new(views.len(), |k: int| views[k].cells@);
    let flags = Seq::new(views.len(), |k: int| views[k].validity@);
    lemma_concat_upto_len(cells, counts, ncols, n);
    lemma_concat_upto_len(flags, counts, ncols, n);
    assert forall|k: int, r: int, c: int|
        0 <= k < views.len() && 0 <= r < counts[k] && 0 <= c < writer.columns().len() implies #[trigger] writer.slot(
        partition_row(counts, k, r),
        c,
    ) == views[k].slot(r, c) by {
        lemma_concat_upto_cell(cells, counts, ncols, n, k, r, c);
        lemma_concat_upto_cell(flags, counts, ncols, n, k, r, c);
    }
}

} // verus!
