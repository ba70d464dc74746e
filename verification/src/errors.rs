//! The ways in which a run can fail.

use vstd::prelude::*;
use crate::types::DataType;

verus! {

#[derive(Debug, PartialEq, Eq)]
pub enum ConnectorAgentError {
    /// Source and destination share no traversal order, or a source was asked
    /// for an order that it did not declare.
    UnsupportedDataOrder,
    /// A checked write met a value whose type the declared column type does
    /// not accept: the declared type, then the type found.
    DataTypeCheckFailed(DataType, DataType),
    /// The row counts of the partitions do not add up to the rows of the
    /// destination, or a source disagrees with the partition it was built for.
    PartitionCountMismatch,
    /// A source could not produce the next cell; the message is the source's.
    ProducerError(String),
}

} // verus!
