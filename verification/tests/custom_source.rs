use connector_agent::data_sources::{Cells, DataSource, Orders, Rows, SourceBuilder, Sources};
use connector_agent::dispatcher::Dispatcher;
use connector_agent::errors::ConnectorAgentError;
use connector_agent::types::{CellValue, DataOrder, DataType};

/// A source of one column of doubles and one of booleans, which emits the
/// whole first column before the second.
struct Columns {
    doubles: Vec<f64>,
    flags: Vec<bool>,
    asked: usize,
}

impl DataSource for Columns {
    // What the contracts say of a source is never run.
    fn emitted(&self) -> Cells {
        unreachable!()
    }

    fn failure(&self) -> Option<ConnectorAgentError> {
        unreachable!()
    }

    fn row_count(&self) -> Rows {
        unreachable!()
    }

    fn continues(&self, _: &Self) -> bool {
        unreachable!()
    }

    fn lemma_continues_itself(&self) {}

    fn lemma_continues_onward(&self, _: &Self, _: &Self) {}

    fn lemma_continues_keeps(&self, _: &Self) {}

    fn nrows(&self) -> usize {
        self.doubles.len()
    }

    fn produce_f64(&mut self) -> Result<u64, ConnectorAgentError> {
        if self.asked >= self.doubles.len() {
            return Err(ConnectorAgentError::ProducerError("not a double".to_string()));
        }
        self.asked += 1;
        Ok(self.doubles[self.asked - 1].to_bits())
    }

    fn produce_u64(&mut self) -> Result<u64, ConnectorAgentError> {
        Err(ConnectorAgentError::ProducerError("no integers here".to_string()))
    }

    fn produce_bool(&mut self) -> Result<bool, ConnectorAgentError> {
        if self.asked < self.doubles.len() || self.asked >= 2 * self.doubles.len() {
            return Err(ConnectorAgentError::ProducerError("not a flag".to_string()));
        }
        self.asked += 1;
        Ok(self.flags[self.asked - 1 - self.doubles.len()])
    }

    fn produce_opt_u64(&mut self) -> Result<Option<u64>, ConnectorAgentError> {
        Err(ConnectorAgentError::ProducerError("no integers here".to_string()))
    }
}

struct ColumnsBuilder {
    parts: Vec<(Vec<f64>, Vec<bool>)>,
    order: Option<DataOrder>,
}

impl SourceBuilder for ColumnsBuilder {
    type Source = Columns;

    fn declared_orders(&self) -> Orders {
        unreachable!()
    }

    fn to_build(&self) -> Sources<Columns> {
        unreachable!()
    }

    fn data_orders(&self) -> Vec<DataOrder> {
        vec![DataOrder::ColumnMajor]
    }

    fn set_data_order(&mut self, order: DataOrder) -> Result<(), ConnectorAgentError> {
        if order != DataOrder::ColumnMajor {
            return Err(ConnectorAgentError::UnsupportedDataOrder);
        }
        self.order = Some(order);
        Ok(())
    }

    fn build(&mut self) -> Option<Columns> {
        if self.parts.is_empty() {
            return None;
        }
        let (doubles, flags) = self.parts.remove(0);
        Some(Columns { doubles, flags, asked: 0 })
    }
}

#[test]
fn run_in_column_major_order() {
    let builder = ColumnsBuilder {
        parts: vec![(vec![1.5, -2.0], vec![true, false]), (vec![0.25], vec![true])],
        order: None,
    };
    let dispatcher = Dispatcher::new(
        builder,
        vec![DataOrder::RowMajor, DataOrder::ColumnMajor],
        vec![2, 1],
        vec![DataType::F64, DataType::Bool],
    );
    let w = dispatcher.run().expect("run dispatcher");
    let doubles = [1.5f64, -2.0, 0.25];
    let flags = [true, false, true];
    for row in 0..3 {
        assert_eq!(w.get(row, 0), Some(CellValue::F64(doubles[row].to_bits())));
        assert_eq!(w.get(row, 1), Some(CellValue::Bool(flags[row])));
    }
}

#[test]
fn column_major_source_against_row_major_writer() {
    let builder = ColumnsBuilder { parts: vec![(vec![1.0], vec![true])], order: None };
    let dispatcher =
        Dispatcher::new(builder, vec![DataOrder::RowMajor], vec![1], vec![DataType::F64, DataType::Bool]);
    assert_eq!(dispatcher.run().err(), Some(ConnectorAgentError::UnsupportedDataOrder));
}
