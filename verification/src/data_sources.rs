//! Sources: what a producer of cells must offer to be driven by the
//! dispatcher.

use vstd::prelude::*;
use crate::errors::ConnectorAgentError;
use crate::types::{CellValue, DataOrder, DataType};

pub mod dummy;

verus! {

/// A sequence of cells, as the contracts of a source speak of it.
pub type Cells = Seq<CellValue>;

/// A sequence of orders, as the contracts of a builder speak of it.
pub type Orders = Seq<DataOrder>;

/// A number of rows, as the contracts of a source speak of it.
pub type Rows = nat;

/// A sequence of sources, as the contracts of a builder speak of it.
pub type Sources<S> = Seq<S>;

/// The cells that a source has handed out once a call has returned
/// `produced`: one more after a value, the same after an error.
pub open spec fn grown(before: Seq<CellValue>, produced: Result<CellValue, ConnectorAgentError>) -> Seq<
    CellValue,
> {
    match produced {
        Ok(value) => before.push(value),
        Err(_) => before,
    }
}

/// The failure that a call has ended in, if it has.
pub open spec fn failed<T>(produced: Result<T, ConnectorAgentError>) -> Option<ConnectorAgentError> {
    match produced {
        Ok(_) => None,
        Err(e) => Some(e),
    }
}

/// The value that stands for what a typed call has returned.
pub open spec fn tagged<T>(produced: Result<T, ConnectorAgentError>, tag: spec_fn(T) -> CellValue) -> Result<
    CellValue,
    ConnectorAgentError,
> {
    match produced {
        Ok(value) => Ok(tag(value)),
        Err(e) => Err(e),
    }
}

/// A producer of cells for one partition. Each call hands out the next cell
/// of the traversal order that the source was built for, as a value of the
/// type asked for, or fails; there is no way back to an earlier cell.
pub trait DataSource {
    /// The cells handed out so far, oldest first.
    spec fn emitted(&self) -> Seq<CellValue>;

    /// The error that the last call for a cell has ended in, if it has
    /// failed.
    spec fn failure(&self) -> Option<ConnectorAgentError>;

    /// The number of rows that the source produces in all; it stays the same
    /// while cells are handed out.
    spec fn row_count(&self) -> nat;

    /// Whether this source is what `earlier` has become by handing out
    /// cells, or is `earlier` itself: a source says here what it keeps while
    /// it is asked for cells.
    spec fn continues(&self, earlier: &Self) -> bool;

    /// A source continues itself.
    proof fn lemma_continues_itself(&self)
        ensures
            self.continues(self),
    ;

    /// What continues a source continues every source that this one
    /// continues.
    proof fn lemma_continues_onward(&self, middle: &Self, earlier: &Self)
        requires
            self.continues(middle),
            middle.continues(earlier),
        ensures
            self.continues(earlier),
    ;

    /// A source that continues another has handed out what the other has,
    /// and perhaps more, and produces as many rows.
    proof fn lemma_continues_keeps(&self, earlier: &Self)
        requires
            self.continues(earlier),
        ensures
            earlier.emitted().is_prefix_of(self.emitted()),
            self.row_count() == earlier.row_count(),
    ;

    /// The number of rows that the source produces in all.
    fn nrows(&self) -> (n: usize)
        ensures
            n == self.row_count(),
    ;

    /// The next cell as a double, given as its 64-bit pattern.
    fn produce_f64(&mut self) -> (produced: Result<u64, ConnectorAgentError>)
        ensures
            final(self).emitted() == grown(
                old(self).emitted(),
                tagged(produced, |bits: u64| CellValue::F64(bits)),
            ),
            final(self).failure() == failed(produced),
            final(self).row_count() == old(self).row_count(),
            final(self).continues(old(self)),
    ;

    /// The next cell as an unsigned integer.
    fn produce_u64(&mut self) -> (produced: Result<u64, ConnectorAgentError>)
        ensures
            final(self).emitted() == grown(
                old(self).emitted(),
                tagged(produced, |v: u64| CellValue::U64(v)),
            ),
            final(self).failure() == failed(produced),
            final(self).row_count() == old(self).row_count(),
            final(self).continues(old(self)),
    ;

    /// The next cell as a boolean.
    fn produce_bool(&mut self) -> (produced: Result<bool, ConnectorAgentError>)
        ensures
            final(self).emitted() == grown(
                old(self).emitted(),
                tagged(produced, |b: bool| CellValue::Bool(b)),
            ),
            final(self).failure() == failed(produced),
            final(self).row_count() == old(self).row_count(),
            final(self).continues(old(self)),
    ;

    /// The next cell as an unsigned integer that may be null.
    fn produce_opt_u64(&mut self) -> (produced: Result<Option<u64>, ConnectorAgentError>)
        ensures
            final(self).emitted() == grown(
                old(self).emitted(),
                tagged(produced, |v: Option<u64>| CellValue::OptU64(v)),
            ),
            final(self).failure() == failed(produced),
            final(self).row_count() == old(self).row_count(),
            final(self).continues(old(self)),
    ;
}

/// A factory of sources, one for each partition, in partition order.
pub trait SourceBuilder {
    type Source: DataSource;

    /// The traversal orders that the sources of this builder can follow;
    /// they stay the same for the life of the builder.
    spec fn declared_orders(&self) -> Seq<DataOrder>;

    /// The sources that the builder has yet to hand out, in the order in
    /// which it will, each as it will be when it is handed out.
    spec fn to_build(&self) -> Seq<Self::Source>;

    /// The declared orders, as data.
    fn data_orders(&self) -> (orders: Vec<DataOrder>)
        ensures
            orders@ == self.declared_orders(),
    ;

    /// Fixes the order in which the sources built from now on emit cells: a
    /// declared order is taken, any other is refused. The sources to come
    /// stay the same sources, and none of them hands out a cell.
    fn set_data_order(&mut self, order: DataOrder) -> (res: Result<(), ConnectorAgentError>)
        ensures
            res is Ok <==> old(self).declared_orders().contains(order),
            res matches Err(e) ==> e == ConnectorAgentError::UnsupportedDataOrder,
            final(self).declared_orders() == old(self).declared_orders(),
            final(self).to_build().len() == old(self).to_build().len(),
            forall|k: int|
                0 <= k < old(self).to_build().len() ==> {
                    &&& (#[trigger] final(self).to_build()[k]).continues(&old(self).to_build()[k])
                    &&& final(self).to_build()[k].emitted() == old(self).to_build()[k].emitted()
                },
    ;

    /// The source for the next partition, or nothing when the builder has no
    /// partition left: the first of the sources yet to be handed out, which
    /// leaves the others.
    fn build(&mut self) -> (source: Option<Self::Source>)
        ensures
            final(self).declared_orders() == old(self).declared_orders(),
            match source {
                Some(source) => {
                    &&& old(self).to_build().len() > 0
                    &&& source == old(self).to_build()[0]
                    &&& final(self).to_build() == old(self).to_build().drop_first()
                },
                None => old(self).to_build().len() == 0 && final(self).to_build() == old(self).to_build(),
            },
    ;
}

/// Asks the source for its next cell through the call that belongs to the
/// logical type `ty`, and gives the cell that type.
pub fn produce_cell<S: DataSource>(source: &mut S, ty: DataType) -> (produced: Result<
    CellValue,
    ConnectorAgentError,
>)
    ensures
        final(source).emitted() == grown(old(source).emitted(), produced),
        final(source).failure() == failed(produced),
        final(source).row_count() == old(source).row_count(),
        final(source).continues(old(source)),
        produced matches Ok(value) ==> value.data_type() == ty,
{
    match ty {
        DataType::F64 => match source.produce_f64() {
            Ok(bits) => Ok(CellValue::F64(bits)),
            Err(e) => Err(e),
        },
        DataType::U64 => match source.produce_u64() {
            Ok(v) => Ok(CellValue::U64(v)),
            Err(e) => Err(e),
        },
        DataType::Bool => match source.produce_bool() {
            Ok(b) => Ok(CellValue::Bool(b)),
            Err(e) => Err(e),
        },
        DataType::OptU64 => match source.produce_opt_u64() {
            Ok(v) => Ok(CellValue::OptU64(v)),
            Err(e) => Err(e),
        },
    }
}

} // verus!
