//! The dispatcher: it settles the traversal order, allocates the destination,
//! builds one source and one view for each partition, and moves every cell
//! from its source into its place.

use vstd::prelude::*;
use crate::data_sources::dummy::{OptU64TestSource, U64TestSource};
use crate::data_sources::{produce_cell, DataSource, SourceBuilder};
use crate::errors::ConnectorAgentError;
use crate::layout::{
    cell_index, lemma_cell_index_in_bounds, lemma_cell_index_injective, lemma_row_owner,
    lemma_rows_before_monotone, partition_row, rows_before, sum_counts, total_rows,
};
use crate::types::{lemma_decode_encode, CellValue, DataOrder, DataType, Slot};
use crate::writers::dummy::{lemma_views_settle, DummyPartitionWriter, DummyWriter};

verus! {

/// The order that a run follows: column-major where both sides offer it, else
/// row-major where both sides offer that, else none.
pub open spec fn common_order(source: Seq<DataOrder>, writer: Seq<DataOrder>) -> Option<DataOrder> {
    if source.contains(DataOrder::ColumnMajor) && writer.contains(DataOrder::ColumnMajor) {
        Some(DataOrder::ColumnMajor)
    } else if source.contains(DataOrder::RowMajor) && writer.contains(DataOrder::RowMajor) {
        Some(DataOrder::RowMajor)
    } else {
        None
    }
}

/// The place of a cell in the stream of a source that emits `nrows` rows of
/// `ncols` cells in the given order.
pub open spec fn emission_index(order: DataOrder, row: int, col: int, nrows: int, ncols: int) -> int {
    match order {
        DataOrder::RowMajor => cell_index(row, col, ncols),
        DataOrder::ColumnMajor => cell_index(col, row, nrows),
    }
}

/// The chosen order is offered by both sides, and there is none exactly when
/// the two sides share no order.
pub proof fn lemma_common_order(source: Seq<DataOrder>, writer: Seq<DataOrder>)
    ensures
        common_order(source, writer) matches Some(order) ==> source.contains(order) && writer.contains(
            order,
        ),
        common_order(source, writer) is None <==> forall|order: DataOrder|
            !(source.contains(order) && writer.contains(order)),
{
    if common_order(source, writer) is None {
        assert forall|order: DataOrder| !(source.contains(order) && writer.contains(order)) by {
            match order {
                DataOrder::RowMajor => {},
                DataOrder::ColumnMajor => {},
            }
        }
    }
}

/// Whether `order` is among `orders`.
pub fn offers(orders: &[DataOrder], order: DataOrder) -> (found: bool)
    ensures
        found == orders@.contains(order),
{
    let mut k: usize = 0;
    while k < orders.len()
        invariant
            0 <= k <= orders@.len(),
            forall|j: int| 0 <= j < k ==> orders@[j] != order,
        decreases orders@.len() - k,
    {
        if orders[k] == order {
            return true;
        }
        k += 1;
    }
    false
}

/// Settles the traversal order between what the source declares and what the
/// destination can take.
pub fn negotiate(source: &[DataOrder], writer: &[DataOrder]) -> (res: Result<
    DataOrder,
    ConnectorAgentError,
>)
    ensures
        res == match common_order(source@, writer@) {
            Some(order) => Ok::<DataOrder, ConnectorAgentError>(order),
            None => Err::<DataOrder, ConnectorAgentError>(ConnectorAgentError::UnsupportedDataOrder),
        },
{
    if offers(source, DataOrder::ColumnMajor) && offers(writer, DataOrder::ColumnMajor) {
        Ok(DataOrder::ColumnMajor)
    } else if offers(source, DataOrder::RowMajor) && offers(writer, DataOrder::RowMajor) {
        Ok(DataOrder::RowMajor)
    } else {
        Err(ConnectorAgentError::UnsupportedDataOrder)
    }
}

/// Takes what a source has returned for the cell at a row and a column of
/// the view. A value is written, after the type check where `checked` asks
/// for it; an error of the source is handed on as it is. Nothing is written
/// unless the call succeeds.
pub fn store_produced(
    view: &mut DummyPartitionWriter<'_>,
    row: usize,
    col: usize,
    checked: bool,
    produced: Result<CellValue, ConnectorAgentError>,
) -> (res: Result<(), ConnectorAgentError>)
    requires
        old(view).wf(),
        row < old(view).rows(),
        col < old(view).columns().len(),
    ensures
        final(view).wf(),
        res == match produced {
            Ok(value) => if checked && !old(view).columns()[col as int].accepts(value.data_type()) {
                Err::<(), ConnectorAgentError>(
                    ConnectorAgentError::DataTypeCheckFailed(
                        old(view).columns()[col as int],
                        value.data_type(),
                    ),
                )
            } else {
                Ok::<(), ConnectorAgentError>(())
            },
            Err(e) => Err::<(), ConnectorAgentError>(e),
        },
        res is Ok ==> {
            &&& old(view).stores(final(view), row as int, col as int, produced->Ok_0.encode())
            &&& final(view).slot(row as int, col as int) == produced->Ok_0.encode()
            &&& forall|r: int, c: int|
                0 <= r < old(view).rows() && 0 <= c < old(view).columns().len() && (r != row || c
                    != col) ==> #[trigger] final(view).slot(r, c) == old(view).slot(r, c)
        },
        res is Err ==> old(view).unchanged(final(view)),
        final(final(view).cells)@ == final(old(view).cells)@,
        final(final(view).validity)@ == final(old(view).validity)@,
{
    match produced {
        Ok(value) => {
            if checked {
                match view.write_safe(row, col, value) {
                    Ok(()) => Ok(()),
                    Err(e) => Err(e),
                }
            } else {
                view.write(row, col, value);
                Ok(())
            }
        },
        Err(e) => Err(e),
    }
}

/// Fills a view from a source: every cell of the view is asked of the source
/// in the given order, by the call that belongs to its column's type, and
/// written where it belongs. The first cell written in each column goes
/// through the type check, the others are written unchecked. The first
/// failure ends the work.
///
/// The cells that the source has handed out during the call are in place,
/// each of its column's type, and every other cell is as it was. The call
/// succeeds exactly when the source has handed out one cell for each cell of
/// the view; where it fails, its error is the one that the source has
/// failed with.
pub fn fill_partition<S: DataSource>(
    view: &mut DummyPartitionWriter<'_>,
    source: &mut S,
    order: DataOrder,
) -> (res: Result<(), ConnectorAgentError>)
    requires
        old(view).wf(),
    ensures
        final(view).wf(),
        final(view).nrows == old(view).nrows,
        final(view).schema@ == old(view).schema@,
        final(final(view).cells)@ == final(old(view).cells)@,
        final(final(view).validity)@ == final(old(view).validity)@,
        old(source).emitted().is_prefix_of(final(source).emitted()),
        final(source).row_count() == old(source).row_count(),
        final(source).continues(old(source)),
        ({
            let nrows = old(view).rows() as int;
            let ncols = old(view).columns().len() as int;
            let start = old(source).emitted().len() as int;
            let done = final(source).emitted().len() - start;
            &&& 0 <= done <= nrows * ncols
            &&& res is Ok <==> done == nrows * ncols
            &&& forall|r: int, c: int|
                0 <= r < nrows && 0 <= c < ncols ==> {
                    let at = emission_index(order, r, c, nrows, ncols);
                    #[trigger] final(view).slot(r, c) == if at < done {
                        final(source).emitted()[start + at].encode()
                    } else {
                        old(view).slot(r, c)
                    }
                }
            &&& forall|r: int, c: int|
                0 <= r < nrows && 0 <= c < ncols && emission_index(order, r, c, nrows, ncols) < done
                    ==> (#[trigger] final(source).emitted()[start + emission_index(
                    order,
                    r,
                    c,
                    nrows,
                    ncols,
                )]).data_type() == old(view).columns()[c]
        }),
        res is Ok ==> final(view).populated(),
        res matches Err(e) ==> final(source).failure() == Some(e),
{
    let nrows: usize = view.nrows();
    let ncols: usize = view.ncols();
    let row_major: bool = match order {
        DataOrder::RowMajor => true,
        DataOrder::ColumnMajor => false,
    };
    let outer_len: usize = if row_major { nrows } else { ncols };
    let inner_len: usize = if row_major { ncols } else { nrows };
    let ghost start = source.emitted().len() as int;
    let ghost before = source.emitted();
    let ghost origin = *source;
    proof {
        origin.lemma_continues_itself();
    }
    proof {
        assert(outer_len * inner_len == nrows * ncols) by (nonlinear_arith)
            requires
                (outer_len == nrows && inner_len == ncols) || (outer_len == ncols && inner_len == nrows),
        ;
    }
    let mut outer: usize = 0;
    while outer < outer_len
        invariant
            0 <= outer <= outer_len,
            nrows == old(view).nrows,
            ncols == old(view).schema@.len(),
            outer_len == (if row_major { nrows } else { ncols }),
            inner_len == (if row_major { ncols } else { nrows }),
            outer_len * inner_len == nrows * ncols,
            row_major == (order == DataOrder::RowMajor),
            view.wf(),
            view.nrows == old(view).nrows,
            view.schema@ == old(view).schema@,
            final(view.cells)@ == final(old(view).cells)@,
            final(view.validity)@ == final(old(view).validity)@,
            before == old(source).emitted(),
            start == before.len(),
            before.is_prefix_of(source.emitted()),
            source.row_count() == old(source).row_count(),
            origin == *old(source),
            source.continues(&origin),
            source.emitted().len() == start + outer * inner_len,
            forall|r: int, c: int|
                0 <= r < nrows && 0 <= c < ncols ==> {
                    let at = emission_index(order, r, c, nrows as int, ncols as int);
                    #[trigger] view.slot(r, c) == if at < outer * inner_len {
                        source.emitted()[start + at].encode()
                    } else {
                        old(view).slot(r, c)
                    }
                },
            forall|r: int, c: int|
                0 <= r < nrows && 0 <= c < ncols && emission_index(order, r, c, nrows as int, ncols as int)
                    < outer * inner_len ==> (#[trigger] source.emitted()[start + emission_index(
                    order,
                    r,
                    c,
                    nrows as int,
                    ncols as int,
                )]).data_type() == view.schema@[c],
        decreases outer_len - outer,
    {
        let mut inner: usize = 0;
        while inner < inner_len
            invariant
                0 <= inner <= inner_len,
                0 <= outer < outer_len,
                nrows == old(view).nrows,
                ncols == old(view).schema@.len(),
                outer_len == (if row_major { nrows } else { ncols }),
                inner_len == (if row_major { ncols } else { nrows }),
                outer_len * inner_len == nrows * ncols,
                row_major == (order == DataOrder::RowMajor),
                view.wf(),
                view.nrows == old(view).nrows,
                view.schema@ == old(view).schema@,
                final(view.cells)@ == final(old(view).cells)@,
                final(view.validity)@ == final(old(view).validity)@,
                before == old(source).emitted(),
                start == before.len(),
                before.is_prefix_of(source.emitted()),
                source.row_count() == old(source).row_count(),
                origin == *old(source),
                source.continues(&origin),
                source.emitted().len() == start + outer * inner_len + inner,
                forall|r: int, c: int|
                    0 <= r < nrows && 0 <= c < ncols ==> {
                        let at = emission_index(order, r, c, nrows as int, ncols as int);
                        #[trigger] view.slot(r, c) == if at < outer * inner_len + inner {
                            source.emitted()[start + at].encode()
                        } else {
                            old(view).slot(r, c)
                        }
                    },
                forall|r: int, c: int|
                    0 <= r < nrows && 0 <= c < ncols && emission_index(
                        order,
                        r,
                        c,
                        nrows as int,
                        ncols as int,
                    ) < outer * inner_len + inner ==> (#[trigger] source.emitted()[start + emission_index(
                        order,
                        r,
                        c,
                        nrows as int,
                        ncols as int,
                    )]).data_type() == view.schema@[c],
            decreases inner_len - inner,
        {
            let row: usize = if row_major { outer } else { inner };
            let col: usize = if row_major { inner } else { outer };
            let ghost step = outer * inner_len + inner;
            let ghost emitted_then = source.emitted();
            let ghost source_then = *source;
            let ghost view_then = *view;
            proof {
                assert(emission_index(order, row as int, col as int, nrows as int, ncols as int) == step);
                lemma_emission_index_in_bounds(order, row as int, col as int, nrows as int, ncols as int);
            }
            let ty: DataType = view.schema[col];
            let produced = produce_cell(source, ty);
            proof {
                source.lemma_continues_onward(&source_then, &origin);
            }
            match store_produced(view, row, col, row == 0, produced) {
                Ok(()) => {},
                Err(e) => {
                    proof {
                        assert(source.emitted() == emitted_then);
                        assert(step < nrows * ncols);
                        assert forall|r: int, c: int| 0 <= r < nrows && 0 <= c < ncols implies #[trigger] view.slot(
                            r,
                            c,
                        ) == view_then.slot(r, c) by {}
                    }
                    return Err(e);
                },
            }
            proof {
                let value = produced->Ok_0;
                assert(source.emitted() == emitted_then.push(value));
                assert forall|r: int, c: int| 0 <= r < nrows && 0 <= c < ncols implies {
                    let at = emission_index(order, r, c, nrows as int, ncols as int);
                    #[trigger] view.slot(r, c) == if at < step + 1 {
                        source.emitted()[start + at].encode()
                    } else {
                        old(view).slot(r, c)
                    }
                } by {
                    let at = emission_index(order, r, c, nrows as int, ncols as int);
                    lemma_emission_index_in_bounds(order, r, c, nrows as int, ncols as int);
                    if r == row && c == col {
                    } else {
                        if at == step {
                            lemma_emission_index_injective(
                                order,
                                r,
                                c,
                                row as int,
                                col as int,
                                nrows as int,
                                ncols as int,
                            );
                        }
                        assert(view.slot(r, c) == view_then.slot(r, c));
                    }
                }
                assert forall|r: int, c: int|
                    0 <= r < nrows && 0 <= c < ncols && emission_index(
                        order,
                        r,
                        c,
                        nrows as int,
                        ncols as int,
                    ) < step + 1 implies (#[trigger] source.emitted()[start + emission_index(
                    order,
                    r,
                    c,
                    nrows as int,
                    ncols as int,
                )]).data_type() == view.schema@[c] by {
                    let at = emission_index(order, r, c, nrows as int, ncols as int);
                    lemma_emission_index_in_bounds(order, r, c, nrows as int, ncols as int);
                    if at == step {
                        lemma_emission_index_injective(
                            order,
                            r,
                            c,
                            row as int,
                            col as int,
                            nrows as int,
                            ncols as int,
                        );
                    } else {
                        assert(source.emitted()[start + at] == emitted_then[start + at]);
                    }
                }
            }
            inner += 1;
        }
        proof {
            assert((outer + 1) * inner_len == outer * inner_len + inner_len) by (nonlinear_arith);
        }
        outer += 1;
    }
    proof {
        assert forall|r: int, c: int| 0 <= r < nrows && 0 <= c < ncols implies #[trigger] view.slot(r, c)
            == view.value(r, c).encode() by {
            let at = emission_index(order, r, c, nrows as int, ncols as int);
            lemma_emission_index_in_bounds(order, r, c, nrows as int, ncols as int);
            assert(at < outer * inner_len);
            assert(view.slot(r, c) == source.emitted()[start + at].encode());
            lemma_decode_encode(source.emitted()[start + at]);
        }
    }
    Ok(())
}

/// Fills view `k` from source `k`, for every `k` in turn, and stops at the
/// first failure.
fn fill_views<S: DataSource>(
    views: &mut Vec<DummyPartitionWriter<'_>>,
    sources: &mut Vec<S>,
    order: DataOrder,
) -> (res: Result<(), ConnectorAgentError>)
    requires
        old(sources)@.len() == old(views)@.len(),
        forall|j: int| 0 <= j < old(views)@.len() ==> (#[trigger] old(views)@[j]).wf(),
    ensures
        final(views)@.len() == old(views)@.len(),
        final(sources)@.len() == old(sources)@.len(),
        forall|j: int|
            0 <= j < old(views)@.len() ==> {
                let view = #[trigger] final(views)@[j];
                &&& view.wf()
                &&& view.nrows == old(views)@[j].nrows
                &&& view.schema@ == old(views)@[j].schema@
                &&& final(view.cells)@ == final(old(views)@[j].cells)@
                &&& final(view.validity)@ == final(old(views)@[j].validity)@
            },
        forall|j: int|
            0 <= j < old(views)@.len() ==> {
                &&& old(sources)@[j].emitted().is_prefix_of((#[trigger] final(sources)@[j]).emitted())
                &&& final(sources)@[j].row_count() == old(sources)@[j].row_count()
                &&& final(sources)@[j].continues(&old(sources)@[j])
            },
        res matches Err(e) ==> exists|j: int|
            0 <= j < old(views)@.len() && (#[trigger] final(sources)@[j]).failure() == Some(e) && old(views)@[j].rows() * old(views)@[j].columns().len() > 0,
        res is Ok ==> {
            &&& forall|j: int| 0 <= j < old(views)@.len() ==> (#[trigger] final(views)@[j]).populated()
            &&& forall|j: int|
                0 <= j < old(views)@.len() ==> (#[trigger] final(sources)@[j]).emitted().len() == old(sources)@[j].emitted().len() + old(views)@[j].rows() * old(views)@[j].columns().len()
            &&& forall|j: int, r: int, c: int|
                0 <= j < old(views)@.len() && 0 <= r < old(views)@[j].rows() && 0 <= c < old(views)@[j].columns().len() ==> (#[trigger] final(views)@[j].slot(r, c)) == final(sources)@[j].emitted()[old(sources)@[j].emitted().len() + emission_index(
                    order,
                    r,
                    c,
                    old(views)@[j].rows() as int,
                    old(views)@[j].columns().len() as int,
                )].encode()
        },
{
    let n: usize = views.len();
    proof {
        assert forall|j: int| 0 <= j < n implies (#[trigger] sources@[j]).continues(&sources@[j]) by {
            sources@[j].lemma_continues_itself();
        }
    }
    let mut k: usize = 0;
    while k < n
        invariant
            0 <= k <= n,
            n == old(views)@.len(),
            n == old(sources)@.len(),
            sources@.len() == n,
            views@.len() == n,
            forall|j: int|
                0 <= j < n ==> {
                    let view = #[trigger] views@[j];
                    &&& view.wf()
                    &&& view.nrows == old(views)@[j].nrows
                    &&& view.schema@ == old(views)@[j].schema@
                    &&& final(view.cells)@ == final(old(views)@[j].cells)@
                    &&& final(view.validity)@ == final(old(views)@[j].validity)@
                },
            forall|j: int|
                0 <= j < n ==> {
                    &&& old(sources)@[j].emitted().is_prefix_of((#[trigger] sources@[j]).emitted())
                    &&& sources@[j].row_count() == old(sources)@[j].row_count()
                    &&& sources@[j].continues(&old(sources)@[j])
                },
            forall|j: int| k <= j < n ==> old(sources)@[j] == #[trigger] sources@[j],
            forall|j: int| 0 <= j < k ==> (#[trigger] views@[j]).populated(),
            forall|j: int|
                0 <= j < k ==> (#[trigger] sources@[j]).emitted().len() == old(sources)@[j].emitted().len()
                    + old(views)@[j].rows() * old(views)@[j].columns().len(),
            forall|j: int, r: int, c: int|
                0 <= j < k && 0 <= r < old(views)@[j].rows() && 0 <= c < old(views)@[j].columns().len()
                    ==> (#[trigger] views@[j].slot(r, c)) == sources@[j].emitted()[old(sources)@[j].emitted().len() + emission_index(
                    order,
                    r,
                    c,
                    old(views)@[j].rows() as int,
                    old(views)@[j].columns().len() as int,
                )].encode(),
        decreases n - k,
    {
        let ghost views_then = views@;
        let ghost sources_then = sources@;
        let filled = fill_partition(&mut views[k], &mut sources[k], order);
        if let Err(e) = filled {
            assert(sources@[k as int].failure() == Some(e));
            assert(old(views)@[k as int].rows() * old(views)@[k as int].columns().len() > 0);
            return Err(e);
        }
        proof {
            assert forall|j: int, r: int, c: int|
                0 <= j < k + 1 && 0 <= r < old(views)@[j].rows() && 0 <= c < old(views)@[j].columns().len() implies (#[trigger] views@[j].slot(r, c)) == sources@[j].emitted()[old(sources)@[j].emitted().len() + emission_index(
                order,
                r,
                c,
                old(views)@[j].rows() as int,
                old(views)@[j].columns().len() as int,
            )].encode() by {
                let at = emission_index(
                    order,
                    r,
                    c,
                    old(views)@[j].rows() as int,
                    old(views)@[j].columns().len() as int,
                );
                lemma_emission_index_in_bounds(
                    order,
                    r,
                    c,
                    old(views)@[j].rows() as int,
                    old(views)@[j].columns().len() as int,
                );
                if j < k {
                    assert(views@[j] == views_then[j]);
                    assert(sources@[j] == sources_then[j]);
                    assert(views_then[j].slot(r, c) == sources_then[j].emitted()[old(sources)@[j].emitted().len() + at].encode());
                }
            }
        }
        k += 1;
    }
    Ok(())
}

/// Fills a destination from one source for each partition: the buffer is
/// split by `counts`, and partition `k` is filled from source `k` as
/// [`fill_partition`] does, one partition after the other. The first failure
/// ends the work and leaves the buffer with some of the cells.
///
/// On success every source has handed out one cell for each cell of its
/// partition, and every cell of the buffer holds the one that was produced
/// for it. On failure the error is the one that a source has failed with.
pub fn fill_partitions<S: DataSource>(
    writer: &mut DummyWriter,
    counts: &[usize],
    sources: &mut Vec<S>,
    order: DataOrder,
) -> (res: Result<(), ConnectorAgentError>)
    requires
        old(writer).wf(),
        total_rows(counts@) == old(writer).rows(),
        old(sources)@.len() == counts@.len(),
    ensures
        final(writer).wf(),
        final(writer).rows() == old(writer).rows(),
        final(writer).columns() == old(writer).columns(),
        final(sources)@.len() == old(sources)@.len(),
        forall|k: int|
            0 <= k < counts@.len() ==> {
                &&& old(sources)@[k].emitted().is_prefix_of((#[trigger] final(sources)@[k]).emitted())
                &&& final(sources)@[k].row_count() == old(sources)@[k].row_count()
                &&& final(sources)@[k].continues(&old(sources)@[k])
            },
        res matches Err(e) ==> exists|k: int|
            0 <= k < counts@.len() && (#[trigger] final(sources)@[k]).failure() == Some(e) && counts@[k]
                * old(writer).columns().len() > 0,
        res is Ok ==> {
            let ncols = old(writer).columns().len() as int;
            &&& final(writer).populated()
            &&& forall|k: int|
                0 <= k < counts@.len() ==> (#[trigger] final(sources)@[k]).emitted().len() == old(sources)@[k].emitted().len() + counts@[k] * ncols
            &&& forall|k: int, r: int, c: int|
                0 <= k < counts@.len() && 0 <= r < counts@[k] && 0 <= c < ncols ==> #[trigger] final(writer).slot(partition_row(counts@, k, r), c) == final(sources)@[k].emitted()[old(sources)@[k].emitted().len() + emission_index(order, r, c, counts@[k] as int, ncols)].encode()
        },
{
    let n: usize = counts.len();
    let ncols: usize = writer.ncols();
    let mut views = writer.partition_writer(counts);
    let ghost end_cells = Seq::new(n as nat, |j: int| final(views@[j].cells)@);
    let ghost end_flags = Seq::new(n as nat, |j: int| final(views@[j].validity)@);
    let res = fill_views(&mut views, sources, order);
    proof {
        let cells = Seq::new(n as nat, |j: int| views@[j].cells@);
        let flags = Seq::new(n as nat, |j: int| views@[j].validity@);
        assert forall|j: int| 0 <= j < n implies end_cells[j] == cells[j] && end_flags[j] == flags[j] by {
            let view = views@[j];
            assert(final(view.cells)@ == view.cells@);
            assert(final(view.validity)@ == view.validity@);
        }
        assert(end_cells =~= cells);
        assert(end_flags =~= flags);
        lemma_views_settle(writer, counts@, views@);
        if res is Ok {
            assert forall|row: int, col: int|
                0 <= row < writer.rows() && 0 <= col < writer.columns().len() implies #[trigger] writer.slot(
                row,
                col,
            ) == writer.value(row, col).encode() by {
                let j = lemma_row_owner(counts@, row);
                let r = row - rows_before(counts@, j);
                assert(writer.slot(partition_row(counts@, j, r), col) == views@[j].slot(r, col));
                assert(views@[j].populated());
            }
        }
    }
    res
}

/// Holds what a builder has given for a partition against the partition:
/// a source is taken when it produces as many rows as the partition has;
/// no source, or one with another number of rows, is a mismatch.
pub fn admit_source(source_rows: Option<usize>, count: usize) -> (res: Result<(), ConnectorAgentError>)
    ensures
        res == (if source_rows == Some(count) {
            Ok::<(), ConnectorAgentError>(())
        } else {
            Err::<(), ConnectorAgentError>(ConnectorAgentError::PartitionCountMismatch)
        }),
{
    match source_rows {
        Some(rows) => {
            if rows == count {
                Ok(())
            } else {
                Err(ConnectorAgentError::PartitionCountMismatch)
            }
        },
        None => Err(ConnectorAgentError::PartitionCountMismatch),
    }
}

/// The buffer holds what the sources have produced for it since they were
/// as in `starts`: there is one source for each partition, with as many rows
/// as the partition has; source `k` continues `starts[k]` and has handed out
/// one cell more for each cell of partition `k`; and each cell of the
/// partition holds the one handed out for it, in the given order.
pub open spec fn filled_from<S: DataSource>(
    writer: &DummyWriter,
    sources: Seq<S>,
    starts: Seq<S>,
    counts: Seq<usize>,
    order: DataOrder,
) -> bool {
    let ncols = writer.columns().len() as int;
    &&& sources.len() == counts.len()
    &&& starts.len() >= counts.len()
    &&& forall|k: int|
        0 <= k < counts.len() ==> {
            &&& (#[trigger] sources[k]).row_count() == counts[k]
            &&& sources[k].continues(&starts[k])
            &&& sources[k].emitted().len() == starts[k].emitted().len() + counts[k] * ncols
        }
    &&& forall|k: int, r: int, c: int|
        0 <= k < counts.len() && 0 <= r < counts[k] && 0 <= c < ncols ==> #[trigger] writer.slot(
            partition_row(counts, k, r),
            c,
        ) == sources[k].emitted()[starts[k].emitted().len() + emission_index(
            order,
            r,
            c,
            counts[k] as int,
            ncols,
        )].encode()
}

/// The run has ended on a source: the error is the failure of a source that
/// continues one of the first sources of `starts`, for a partition that has
/// cells.
pub open spec fn failed_on<S: DataSource>(
    e: ConnectorAgentError,
    starts: Seq<S>,
    counts: Seq<usize>,
    ncols: int,
) -> bool {
    exists|k: int, source: S|
        0 <= k < counts.len() && k < starts.len() && counts[k] * ncols > 0 && #[trigger] source.continues(
            &starts[k],
        ) && source.failure() == Some(e)
}

/// A run that is ready for its first write: the destination, still empty,
/// one source for each partition, the order that was settled and the number
/// of rows of each partition.
pub struct Prepared<S> {
    pub writer: DummyWriter,
    pub sources: Vec<S>,
    pub order: DataOrder,
    pub counts: Vec<usize>,
}

/// One run: a builder of sources, the orders that the destination can take,
/// the number of rows of each partition and the destination's schema.
pub struct Dispatcher<SB: SourceBuilder> {
    source_builder: SB,
    writer_orders: Vec<DataOrder>,
    counts: Vec<usize>,
    schema: Vec<DataType>,
}

impl<SB: SourceBuilder> Dispatcher<SB> {
    /// The orders that the builder of sources declares.
    pub closed spec fn source_orders(&self) -> Seq<DataOrder> {
        self.source_builder.declared_orders()
    }

    /// The sources that the builder has yet to hand out.
    pub closed spec fn pending_sources(&self) -> Seq<SB::Source> {
        self.source_builder.to_build()
    }

    /// The orders that the destination can take.
    pub closed spec fn writer_orders(&self) -> Seq<DataOrder> {
        self.writer_orders@
    }

    /// The number of rows of each partition.
    pub closed spec fn counts(&self) -> Seq<usize> {
        self.counts@
    }

    /// The declared type of each destination column.
    pub closed spec fn schema(&self) -> Seq<DataType> {
        self.schema@
    }

    /// The destination is small enough to be allocated.
    pub open spec fn fits(&self) -> bool {
        DummyWriter::allocatable(total_rows(self.counts()), self.schema().len() as int)
    }

    /// The builder has a source for every partition, each with as many rows
    /// as its partition.
    pub open spec fn admissible(&self) -> bool {
        &&& self.pending_sources().len() >= self.counts().len()
        &&& forall|k: int|
            0 <= k < self.counts().len() ==> (#[trigger] self.pending_sources()[k]).row_count()
                == self.counts()[k]
    }

    /// The number of cells of the destination.
    pub open spec fn cells(&self) -> int {
        total_rows(self.counts()) * self.schema().len()
    }

    pub fn new(
        source_builder: SB,
        writer_orders: Vec<DataOrder>,
        counts: Vec<usize>,
        schema: Vec<DataType>,
    ) -> (dispatcher: Self)
        ensures
            dispatcher.source_orders() == source_builder.declared_orders(),
            dispatcher.pending_sources() == source_builder.to_build(),
            dispatcher.writer_orders() == writer_orders@,
            dispatcher.counts() == counts@,
            dispatcher.schema() == schema@,
    {
        Dispatcher { source_builder, writer_orders, counts, schema }
    }

    /// Whether the run can be asked for: either no order is shared, so that
    /// nothing will be allocated, or the destination is small enough.
    pub fn can_run(&self) -> (ok: bool)
        ensures
            ok == (common_order(self.source_orders(), self.writer_orders()) is Some ==> self.fits()),
    {
        let source_orders = self.source_builder.data_orders();
        match negotiate(source_orders.as_slice(), self.writer_orders.as_slice()) {
            Ok(_) => match sum_counts(self.counts.as_slice()) {
                Some(total) => DummyWriter::fits(total, self.schema.len()),
                None => false,
            },
            Err(_) => true,
        }
    }

    /// The first steps of a run, up to the first write: the order is
    /// settled, the destination allocated, and one source built for each
    /// partition and held to the partition's row count. Without a common
    /// order nothing is allocated or built. With one, the steps succeed
    /// exactly when the builder has a source for every partition, each with
    /// as many rows as its partition.
    pub fn prepare(self) -> (res: Result<Prepared<SB::Source>, ConnectorAgentError>)
        requires
            common_order(self.source_orders(), self.writer_orders()) is Some ==> self.fits(),
        ensures
            match common_order(self.source_orders(), self.writer_orders()) {
                None => res is Err && res->Err_0 == ConnectorAgentError::UnsupportedDataOrder,
                Some(order) => match res {
                    Ok(prepared) => {
                        &&& self.admissible()
                        &&& prepared.order == order
                        &&& prepared.counts@ == self.counts()
                        &&& prepared.writer.wf()
                        &&& prepared.writer.rows() == total_rows(self.counts())
                        &&& prepared.writer.columns() == self.schema()
                        &&& prepared.writer.words() == Seq::new(self.cells() as nat, |i: int| 0u64)
                        &&& prepared.writer.flags() == Seq::new(self.cells() as nat, |i: int| false)
                        &&& prepared.sources@.len() == self.counts().len()
                        &&& forall|k: int|
                            0 <= k < self.counts().len() ==> {
                                &&& (#[trigger] prepared.sources@[k]).row_count() == self.counts()[k]
                                &&& prepared.sources@[k].continues(&self.pending_sources()[k])
                                &&& prepared.sources@[k].emitted() == self.pending_sources()[k].emitted()
                            }
                    },
                    Err(e) => !self.admissible() && e == ConnectorAgentError::PartitionCountMismatch,
                },
            },
    {
        let ghost starts = self.source_builder.to_build();
        let mut source_builder = self.source_builder;
        let writer_orders = self.writer_orders;
        let counts = self.counts;
        let schema = self.schema;
        let source_orders = source_builder.data_orders();
        let order = match negotiate(source_orders.as_slice(), writer_orders.as_slice()) {
            Ok(order) => order,
            Err(e) => {
                return Err(e);
            },
        };
        proof {
            lemma_common_order(source_orders@, writer_orders@);
        }
        match source_builder.set_data_order(order) {
            Ok(()) => {},
            Err(e) => {
                return Err(e);
            },
        }
        let ghost ordered = source_builder.to_build();
        proof {
            assert forall|j: int| 0 <= j < starts.len() implies {
                &&& (#[trigger] ordered[j]).row_count() == starts[j].row_count()
                &&& ordered[j].emitted() == starts[j].emitted()
            } by {
                ordered[j].lemma_continues_keeps(&starts[j]);
            }
        }
        let n: usize = counts.len();
        let total: usize = match sum_counts(counts.as_slice()) {
            Some(total) => total,
            None => {
                return Err(ConnectorAgentError::PartitionCountMismatch);
            },
        };
        let writer = DummyWriter::allocate(total, schema);
        let mut sources: Vec<SB::Source> = Vec::new();
        let mut k: usize = 0;
        while k < n
            invariant
                0 <= k <= n,
                n == counts@.len(),
                counts@ == self.counts(),
                starts == self.pending_sources(),
                sources@.len() == k,
                ordered.len() == starts.len(),
                k <= ordered.len(),
                source_builder.to_build() == ordered.skip(k as int),
                forall|j: int|
                    0 <= j < starts.len() ==> {
                        &&& (#[trigger] ordered[j]).row_count() == starts[j].row_count()
                        &&& ordered[j].emitted() == starts[j].emitted()
                        &&& ordered[j].continues(&starts[j])
                    },
                forall|j: int|
                    0 <= j < k ==> (#[trigger] sources@[j]) == ordered[j] && ordered[j].row_count()
                        == counts@[j],
                common_order(self.source_orders(), self.writer_orders()) is Some,
            decreases n - k,
        {
            let built = source_builder.build();
            let rows: Option<usize> = match &built {
                Some(source) => Some(source.nrows()),
                None => None,
            };
            proof {
                if built is Some {
                    assert(built->0 == ordered.skip(k as int)[0]);
                    assert(ordered.skip(k as int).drop_first() =~= ordered.skip(k as int + 1));
                } else {
                    assert(ordered.skip(k as int).len() == 0);
                }
            }
            match admit_source(rows, counts[k]) {
                Ok(()) => {},
                Err(e) => {
                    proof {
                        if built is Some {
                            assert(starts[k as int].row_count() != counts@[k as int]);
                        }
                    }
                    return Err(e);
                },
            }
            match built {
                Some(source) => {
                    sources.push(source);
                },
                None => {},
            }
            k += 1;
        }
        proof {
            assert forall|j: int| 0 <= j < n implies (#[trigger] starts[j]).row_count() == counts@[j] by {
                assert(sources@[j] == ordered[j]);
            }
            assert forall|j: int| 0 <= j < n implies {
                &&& (#[trigger] sources@[j]).row_count() == counts@[j]
                &&& sources@[j].continues(&starts[j])
                &&& sources@[j].emitted() == starts[j].emitted()
            } by {
                assert(sources@[j] == ordered[j]);
            }
        }
        Ok(Prepared { writer, sources, order, counts })
    }

    /// Runs the dispatch to its end. Without a common order it fails before
    /// anything is allocated. Otherwise the destination is allocated, one
    /// source is built for each partition and held to the partition's row
    /// count, and the partitions are filled one after the other. The first
    /// failure of any step ends the run; a destination is returned only when
    /// every cell of it holds what a source has produced for it.
    ///
    /// With a common order the run fails on the row counts exactly when the
    /// builder has not the right source for every partition; every other
    /// failure is that of a source of the run. A run that has no cell to
    /// fill asks no source for anything and succeeds.
    pub fn run(self) -> (res: Result<DummyWriter, ConnectorAgentError>)
        requires
            common_order(self.source_orders(), self.writer_orders()) is Some ==> self.fits(),
        ensures
            match common_order(self.source_orders(), self.writer_orders()) {
                None => res is Err && res->Err_0 == ConnectorAgentError::UnsupportedDataOrder,
                Some(order) => match res {
                    Ok(writer) => {
                        &&& self.admissible()
                        &&& writer.wf()
                        &&& writer.rows() == total_rows(self.counts())
                        &&& writer.columns() == self.schema()
                        &&& writer.populated()
                        &&& exists|sources: Seq<SB::Source>| #[trigger]
                            filled_from(&writer, sources, self.pending_sources(), self.counts(), order)
                    },
                    Err(e) => if self.admissible() {
                        failed_on(e, self.pending_sources(), self.counts(), self.schema().len() as int)
                    } else {
                        e == ConnectorAgentError::PartitionCountMismatch
                    },
                },
            },
            common_order(self.source_orders(), self.writer_orders()) is Some && self.admissible()
                && self.cells() == 0 ==> res is Ok,
            common_order(self.source_orders(), self.writer_orders()) is Some && self.counts().len() == 0
                ==> res is Ok,
    {
        match self.run_keeping_sources() {
            Ok((writer, sources)) => {
                assert(filled_from(
                    &writer,
                    sources@,
                    self.pending_sources(),
                    self.counts(),
                    common_order(self.source_orders(), self.writer_orders())->0,
                ));
                Ok(writer)
            },
            Err(e) => Err(e),
        }
    }

    /// Runs the dispatch as [`Self::run`] does and hands back the sources
    /// with the destination, so that what was written can be held against
    /// what was produced.
    pub fn run_keeping_sources(self) -> (res: Result<(DummyWriter, Vec<SB::Source>), ConnectorAgentError>)
        requires
            common_order(self.source_orders(), self.writer_orders()) is Some ==> self.fits(),
        ensures
            match common_order(self.source_orders(), self.writer_orders()) {
                None => res is Err && res->Err_0 == ConnectorAgentError::UnsupportedDataOrder,
                Some(order) => match res {
                    Ok((writer, sources)) => {
                        &&& self.admissible()
                        &&& writer.wf()
                        &&& writer.rows() == total_rows(self.counts())
                        &&& writer.columns() == self.schema()
                        &&& writer.populated()
                        &&& filled_from(&writer, sources@, self.pending_sources(), self.counts(), order)
                    },
                    Err(e) => if self.admissible() {
                        failed_on(e, self.pending_sources(), self.counts(), self.schema().len() as int)
                    } else {
                        e == ConnectorAgentError::PartitionCountMismatch
                    },
                },
            },
            common_order(self.source_orders(), self.writer_orders()) is Some && self.admissible()
                && self.cells() == 0 ==> res is Ok,
            common_order(self.source_orders(), self.writer_orders()) is Some && self.counts().len() == 0
                ==> res is Ok,
    {
        let ghost counts = self.counts();
        let ghost starts = self.pending_sources();
        let ghost ncols = self.schema().len() as int;
        let ghost plan = self;
        let prepared = match self.prepare() {
            Ok(prepared) => prepared,
            Err(e) => {
                return Err(e);
            },
        };
        let mut writer = prepared.writer;
        let mut sources = prepared.sources;
        let order = prepared.order;
        let ghost built = sources@;
        match fill_partitions(&mut writer, prepared.counts.as_slice(), &mut sources, order) {
            Ok(()) => {},
            Err(e) => {
                proof {
                    let k = choose|k: int|
                        0 <= k < counts.len() && (#[trigger] sources@[k]).failure() == Some(e) && counts[k]
                            * ncols > 0;
                    sources@[k].lemma_continues_onward(&built[k], &starts[k]);
                    assert(sources@[k].continues(&starts[k]));
                    lemma_rows_before_monotone(counts, k + 1, counts.len() as int);
                    lemma_rows_before_monotone(counts, 0, k);
                    assert(total_rows(counts) * ncols > 0) by (nonlinear_arith)
                        requires
                            counts[k] * ncols > 0,
                            0 <= counts[k] <= total_rows(counts),
                            0 <= ncols,
                    ;
                }
                return Err(e);
            },
        }
        proof {
            assert forall|k: int| 0 <= k < counts.len() implies {
                &&& (#[trigger] sources@[k]).row_count() == counts[k]
                &&& sources@[k].continues(&starts[k])
                &&& sources@[k].emitted().len() == starts[k].emitted().len() + counts[k] * ncols
            } by {
                sources@[k].lemma_continues_onward(&built[k], &starts[k]);
            }
            assert forall|k: int, r: int, c: int|
                0 <= k < counts.len() && 0 <= r < counts[k] && 0 <= c < ncols implies #[trigger] writer.slot(
                partition_row(counts, k, r),
                c,
            ) == sources@[k].emitted()[starts[k].emitted().len() + emission_index(
                order,
                r,
                c,
                counts[k] as int,
                ncols,
            )].encode() by {
                assert(built[k].emitted() == starts[k].emitted());
            }
        }
        Ok((writer, sources))
    }
}

/// Every cell of a shape has a place in the stream, whatever the order.
pub proof fn lemma_emission_index_in_bounds(order: DataOrder, row: int, col: int, nrows: int, ncols: int)
    requires
        0 <= row < nrows,
        0 <= col < ncols,
    ensures
        0 <= emission_index(order, row, col, nrows, ncols) < nrows * ncols,
{
    match order {
        DataOrder::RowMajor => {
            lemma_cell_index_in_bounds(row, col, nrows, ncols);
        },
        DataOrder::ColumnMajor => {
            lemma_cell_index_in_bounds(col, row, ncols, nrows);
            assert(ncols * nrows == nrows * ncols) by (nonlinear_arith);
        },
    }
}

/// Different cells of a shape have different places in the stream.
pub proof fn lemma_emission_index_injective(
    order: DataOrder,
    r1: int,
    c1: int,
    r2: int,
    c2: int,
    nrows: int,
    ncols: int,
)
    requires
        0 <= r1 < nrows,
        0 <= r2 < nrows,
        0 <= c1 < ncols,
        0 <= c2 < ncols,
        emission_index(order, r1, c1, nrows, ncols) == emission_index(order, r2, c2, nrows, ncols),
    ensures
        r1 == r2,
        c1 == c2,
{
    match order {
        DataOrder::RowMajor => {
            lemma_cell_index_injective(r1, c1, r2, c2, ncols);
        },
        DataOrder::ColumnMajor => {
            lemma_cell_index_injective(c1, r1, c2, r2, nrows);
        },
    }
}

/// A destination filled in row-major order from sources of nullable integers
/// held in memory, which had handed out nothing before, holds their values:
/// the cell at row `r` and column `c` of partition `k` is value
/// `r * ncols + c` of source `k`, null or present as the source has it.
pub proof fn lemma_filled_from_opt_u64(
    writer: &DummyWriter,
    sources: Seq<OptU64TestSource>,
    starts: Seq<OptU64TestSource>,
    counts: Seq<usize>,
    k: int,
    r: int,
    c: int,
)
    requires
        filled_from(writer, sources, starts, counts, DataOrder::RowMajor),
        0 <= k < counts.len(),
        0 <= r < counts[k],
        0 <= c < writer.columns().len(),
        starts[k].wf(),
        starts[k].position() == 0,
    ensures
        0 <= cell_index(r, c, writer.columns().len() as int) < starts[k].values().len(),
        writer.slot(partition_row(counts, k, r), c) == CellValue::OptU64(
            starts[k].values()[cell_index(r, c, writer.columns().len() as int)],
        ).encode(),
{
    let ncols = writer.columns().len() as int;
    let source = sources[k];
    source.lemma_emitted();
    starts[k].lemma_emitted();
    lemma_cell_index_in_bounds(r, c, counts[k] as int, ncols);
    assert(writer.slot(partition_row(counts, k, r), c) == source.emitted()[starts[k].emitted().len()
        + emission_index(DataOrder::RowMajor, r, c, counts[k] as int, ncols)].encode());
}

/// The same of sources of plain integers held in memory, whichever of their
/// two types the columns have: the cell holds the value and is present.
pub proof fn lemma_filled_from_u64(
    writer: &DummyWriter,
    sources: Seq<U64TestSource>,
    starts: Seq<U64TestSource>,
    counts: Seq<usize>,
    k: int,
    r: int,
    c: int,
)
    requires
        filled_from(writer, sources, starts, counts, DataOrder::RowMajor),
        0 <= k < counts.len(),
        0 <= r < counts[k],
        0 <= c < writer.columns().len(),
        starts[k].wf(),
        starts[k].position() == 0,
    ensures
        0 <= cell_index(r, c, writer.columns().len() as int) < starts[k].values().len(),
        writer.slot(partition_row(counts, k, r), c) == (Slot {
            word: starts[k].values()[cell_index(r, c, writer.columns().len() as int)],
            present: true,
        }),
{
    let ncols = writer.columns().len() as int;
    let source = sources[k];
    source.lemma_emitted();
    starts[k].lemma_emitted();
    lemma_cell_index_in_bounds(r, c, counts[k] as int, ncols);
    assert(writer.slot(partition_row(counts, k, r), c) == source.emitted()[starts[k].emitted().len()
        + emission_index(DataOrder::RowMajor, r, c, counts[k] as int, ncols)].encode());
}

/// Every place in the stream of a shape is the place of one of its cells,
/// the one returned: with the two lemmas above, the cells and the places
/// `0 .. nrows * ncols` answer one for one, so that a stream of that length
/// holds each cell once and no cell twice.
pub proof fn lemma_emission_index_onto(order: DataOrder, at: int, nrows: int, ncols: int) -> (cell: (
    int,
    int,
))
    requires
        0 <= nrows,
        0 <= ncols,
        0 <= at < nrows * ncols,
    ensures
        0 <= cell.0 < nrows,
        0 <= cell.1 < ncols,
        emission_index(order, cell.0, cell.1, nrows, ncols) == at,
{
    assert(nrows > 0 && ncols > 0) by (nonlinear_arith)
        requires
            0 <= nrows,
            0 <= ncols,
            0 < nrows * ncols,
    ;
    match order {
        DataOrder::RowMajor => {
            lemma_split(at, nrows, ncols);
            (at / ncols, at % ncols)
        },
        DataOrder::ColumnMajor => {
            assert(ncols * nrows == nrows * ncols) by (nonlinear_arith);
            lemma_split(at, ncols, nrows);
            (at % nrows, at / nrows)
        },
    }
}

/// A position below `outer * inner` splits into a quotient below `outer` and
/// a remainder below `inner`.
proof fn lemma_split(at: int, outer: int, inner: int)
    requires
        0 < outer,
        0 < inner,
        0 <= at < outer * inner,
    ensures
        0 <= at / inner < outer,
        0 <= at % inner < inner,
        cell_index(at / inner, at % inner, inner) == at,
{
    vstd::arithmetic::div_mod::lemma_fundamental_div_mod(at, inner);
    vstd::arithmetic::div_mod::lemma_mod_bound(at, inner);
    vstd::arithmetic::div_mod::lemma_div_pos_is_pos(at, inner);
    assert(at / inner < outer) by (nonlinear_arith)
        requires
            0 < inner,
            0 <= at % inner < inner,
            at == inner * (at / inner) + at % inner,
            at < outer * inner,
    ;
    assert((at / inner) * inner == inner * (at / inner)) by (nonlinear_arith);
}

} // verus!
