use connector_agent::errors::ConnectorAgentError;
use connector_agent::types::{CellValue, DataType};
use connector_agent::writers::dummy::{DummyPartitionWriter, DummyWriter};

fn schema4() -> Vec<DataType> {
    vec![DataType::U64, DataType::OptU64, DataType::F64, DataType::Bool]
}

#[test]
fn allocate_starts_empty() {
    let w = DummyWriter::allocate(2, vec![DataType::U64, DataType::OptU64]);
    assert_eq!(w.nrows(), 2);
    assert_eq!(w.ncols(), 2);
    assert_eq!(w.shape(), (2, 2));
    assert_eq!(w.schema(), &[DataType::U64, DataType::OptU64][..]);
    for row in 0..2 {
        assert_eq!(w.get(row, 0), Some(CellValue::U64(0)));
        assert_eq!(w.get(row, 1), Some(CellValue::OptU64(None)));
    }
    assert_eq!(w.get(2, 0), None);
    assert_eq!(w.get(0, 2), None);
}

#[test]
fn allocate_without_rows_or_columns() {
    let w = DummyWriter::allocate(0, schema4());
    assert_eq!(w.shape(), (0, 4));
    assert_eq!(w.get(0, 0), None);
    let w = DummyWriter::allocate(3, vec![]);
    assert_eq!(w.shape(), (3, 0));
    assert_eq!(w.get(0, 0), None);
}

#[test]
fn partition_writer_gives_one_view_per_count() {
    let mut w = DummyWriter::allocate(6, schema4());
    let views = w.partition_writer(&[1, 0, 3, 2]);
    assert_eq!(views.len(), 4);
    let rows: Vec<usize> = views.iter().map(|v| v.nrows()).collect();
    assert_eq!(rows, vec![1, 0, 3, 2]);
    for v in &views {
        assert_eq!(v.ncols(), 4);
        assert_eq!(v.schema, schema4());
    }
}

#[test]
fn partition_writer_without_partitions() {
    let mut w = DummyWriter::allocate(0, schema4());
    let views = w.partition_writer(&[]);
    assert!(views.is_empty());
}

#[test]
fn writes_land_in_the_rows_of_their_partition() {
    let mut w = DummyWriter::allocate(5, vec![DataType::U64, DataType::U64, DataType::U64]);
    {
        let mut views = w.partition_writer(&[2, 3]);
        for (p, view) in views.iter_mut().enumerate() {
            for row in 0..view.nrows() {
                for col in 0..view.ncols() {
                    let v = (100 * (p + 1) + 10 * row + col) as u64;
                    assert_eq!(view.write_safe(row, col, CellValue::U64(v)), Ok(()));
                }
            }
        }
    }
    let expected: [[u64; 3]; 5] =
        [[100, 101, 102], [110, 111, 112], [200, 201, 202], [210, 211, 212], [220, 221, 222]];
    for row in 0..5 {
        for col in 0..3 {
            assert_eq!(w.get(row, col), Some(CellValue::U64(expected[row][col])));
        }
    }
}

#[test]
fn a_write_changes_one_cell_only() {
    let mut w = DummyWriter::allocate(4, vec![DataType::U64, DataType::U64]);
    {
        let mut views = w.partition_writer(&[2, 2]);
        views[1].write(0, 1, CellValue::U64(77));
        assert_eq!(views[1].get(0, 1), Some(CellValue::U64(77)));
        assert_eq!(views[1].get(0, 0), Some(CellValue::U64(0)));
        assert_eq!(views[1].get(1, 1), Some(CellValue::U64(0)));
        assert_eq!(views[1].get(2, 0), None);
        for row in 0..2 {
            for col in 0..2 {
                assert_eq!(views[0].get(row, col), Some(CellValue::U64(0)));
            }
        }
    }
    for row in 0..4 {
        for col in 0..2 {
            let expected = if (row, col) == (2, 1) { 77 } else { 0 };
            assert_eq!(w.get(row, col), Some(CellValue::U64(expected)));
        }
    }
}

#[test]
fn partitions_never_touch_each_other() {
    let counts = [3usize, 1, 4];
    for target in 0..counts.len() {
        let mut w = DummyWriter::allocate(8, vec![DataType::OptU64, DataType::OptU64]);
        {
            let mut views = w.partition_writer(&counts);
            let view = &mut views[target];
            for row in 0..view.nrows() {
                for col in 0..view.ncols() {
                    view.write(row, col, CellValue::OptU64(Some(1)));
                }
            }
        }
        let first: usize = counts[..target].iter().sum();
        for row in 0..8 {
            let inside = first <= row && row < first + counts[target];
            for col in 0..2 {
                let expected = if inside { Some(1) } else { None };
                assert_eq!(w.get(row, col), Some(CellValue::OptU64(expected)));
            }
        }
    }
}

#[test]
fn write_safe_stores_every_type_in_its_column() {
    let mut w = DummyWriter::allocate(1, schema4());
    let values = [
        CellValue::U64(u64::MAX),
        CellValue::OptU64(Some(5)),
        CellValue::F64(2.5f64.to_bits()),
        CellValue::Bool(true),
    ];
    {
        let mut views = w.partition_writer(&[1]);
        for (col, v) in values.iter().enumerate() {
            assert_eq!(views[0].write_safe(0, col, *v), Ok(()));
            assert_eq!(views[0].get(0, col), Some(*v));
        }
    }
    for (col, v) in values.iter().enumerate() {
        assert_eq!(w.get(0, col), Some(*v));
    }
}

#[test]
fn write_safe_rejects_every_other_type() {
    let schema = schema4();
    let values = [
        CellValue::U64(1),
        CellValue::OptU64(Some(1)),
        CellValue::F64(1),
        CellValue::Bool(true),
    ];
    let mut w = DummyWriter::allocate(1, schema.clone());
    let mut views = w.partition_writer(&[1]);
    for (col, declared) in schema.iter().enumerate() {
        for v in values {
            let before = views[0].get(0, col);
            let res = views[0].write_safe(0, col, v);
            if v.found() == *declared {
                assert_eq!(res, Ok(()));
            } else {
                assert_eq!(res, Err(ConnectorAgentError::DataTypeCheckFailed(*declared, v.found())));
                assert_eq!(views[0].get(0, col), before);
            }
        }
    }
}

#[test]
fn a_nullable_value_for_a_plain_column_fails_at_once() {
    let mut w = DummyWriter::allocate(3, vec![DataType::U64; 2]);
    {
        let mut views = w.partition_writer(&[3]);
        let res = views[0].write_safe(0, 0, CellValue::OptU64(Some(11)));
        assert_eq!(res, Err(ConnectorAgentError::DataTypeCheckFailed(DataType::U64, DataType::OptU64)));
    }
    for row in 0..3 {
        for col in 0..2 {
            assert_eq!(w.get(row, col), Some(CellValue::U64(0)));
        }
    }
}

#[test]
fn null_and_present_come_back_as_written() {
    let mut w = DummyWriter::allocate(3, vec![DataType::OptU64]);
    {
        let mut views = w.partition_writer(&[3]);
        assert_eq!(views[0].write_safe(0, 0, CellValue::OptU64(Some(0))), Ok(()));
        assert_eq!(views[0].write_safe(1, 0, CellValue::OptU64(None)), Ok(()));
        assert_eq!(views[0].write_safe(2, 0, CellValue::OptU64(Some(3))), Ok(()));
        assert_eq!(views[0].write_safe(2, 0, CellValue::OptU64(None)), Ok(()));
    }
    assert_eq!(w.get(0, 0), Some(CellValue::OptU64(Some(0))));
    assert_eq!(w.get(1, 0), Some(CellValue::OptU64(None)));
    assert_eq!(w.get(2, 0), Some(CellValue::OptU64(None)));
}

#[test]
fn write_does_not_look_at_the_column_type() {
    let mut w = DummyWriter::allocate(1, vec![DataType::U64, DataType::Bool, DataType::OptU64]);
    {
        let mut views = w.partition_writer(&[1]);
        views[0].write(0, 0, CellValue::Bool(true));
        views[0].write(0, 1, CellValue::U64(2));
        views[0].write(0, 2, CellValue::U64(8));
    }
    assert_eq!(w.get(0, 0), Some(CellValue::U64(1)));
    assert_eq!(w.get(0, 1), Some(CellValue::Bool(true)));
    assert_eq!(w.get(0, 2), Some(CellValue::OptU64(Some(8))));
}

#[test]
fn the_buffer_can_be_partitioned_again() {
    let mut w = DummyWriter::allocate(2, vec![DataType::U64]);
    {
        let mut views = w.partition_writer(&[1, 1]);
        views[0].write(0, 0, CellValue::U64(1));
        views[1].write(0, 0, CellValue::U64(2));
    }
    {
        let mut views = w.partition_writer(&[2]);
        assert_eq!(views[0].get(0, 0), Some(CellValue::U64(1)));
        assert_eq!(views[0].get(1, 0), Some(CellValue::U64(2)));
        views[0].write(1, 0, CellValue::U64(3));
    }
    assert_eq!(w.get(0, 0), Some(CellValue::U64(1)));
    assert_eq!(w.get(1, 0), Some(CellValue::U64(3)));
}

#[test]
fn clone_copies_the_cells() {
    let mut w = DummyWriter::allocate(2, vec![DataType::OptU64]);
    {
        let mut views = w.partition_writer(&[2]);
        views[0].write(1, 0, CellValue::OptU64(Some(4)));
    }
    let copy = w.clone();
    {
        let mut views = w.partition_writer(&[2]);
        views[0].write(0, 0, CellValue::OptU64(Some(5)));
    }
    assert_eq!(copy.shape(), (2, 1));
    assert_eq!(copy.get(0, 0), Some(CellValue::OptU64(None)));
    assert_eq!(copy.get(1, 0), Some(CellValue::OptU64(Some(4))));
    assert_eq!(w.get(0, 0), Some(CellValue::OptU64(Some(5))));
}

#[test]
fn try_partition_writer_takes_counts_that_add_up() {
    let mut w = DummyWriter::allocate(3, vec![DataType::U64]);
    {
        let mut views = w.try_partition_writer(&[1, 2]).expect("counts add up");
        assert_eq!(views.len(), 2);
        views[1].write(1, 0, CellValue::U64(9));
    }
    assert_eq!(w.get(2, 0), Some(CellValue::U64(9)));
}

#[test]
fn try_partition_writer_refuses_other_counts() {
    let mut w = DummyWriter::allocate(3, vec![DataType::U64]);
    assert_eq!(w.try_partition_writer(&[1, 1]).err(), Some(ConnectorAgentError::PartitionCountMismatch));
    assert_eq!(w.try_partition_writer(&[2, 2]).err(), Some(ConnectorAgentError::PartitionCountMismatch));
    assert_eq!(w.try_partition_writer(&[]).err(), Some(ConnectorAgentError::PartitionCountMismatch));
    assert_eq!(
        w.try_partition_writer(&[usize::MAX, 4]).err(),
        Some(ConnectorAgentError::PartitionCountMismatch)
    );
    assert_eq!(w.get(2, 0), Some(CellValue::U64(0)));
}

#[test]
fn fits_knows_the_limits_of_an_allocation() {
    let limit = isize::MAX as usize;
    assert!(DummyWriter::fits(0, 0));
    assert!(DummyWriter::fits(limit, 0));
    assert!(DummyWriter::fits(0, limit));
    assert!(!DummyWriter::fits(limit + 1, 0));
    assert!(!DummyWriter::fits(0, limit + 1));
    assert!(DummyWriter::fits(1, limit / 8));
    assert!(!DummyWriter::fits(1, limit / 8 + 1));
    assert!(DummyWriter::fits(limit / 8, 1));
    assert!(!DummyWriter::fits(limit / 8 + 1, 1));
    assert!(DummyWriter::fits(2, limit / 16));
    assert!(!DummyWriter::fits(2, limit / 16 + 1));
    assert!(!DummyWriter::fits(usize::MAX, usize::MAX));
    assert!(DummyWriter::fits(200000, 100));
}

#[test]
fn is_wf_holds_of_what_the_library_makes() {
    let mut w = DummyWriter::allocate(3, vec![DataType::U64, DataType::Bool]);
    assert!(w.is_wf());
    {
        let mut views = w.partition_writer(&[1, 2]);
        assert!(views.iter().all(|v| v.is_wf()));
        views[1].write(1, 1, CellValue::Bool(true));
        assert!(views[1].is_wf());
    }
    assert!(w.is_wf());
    assert!(w.clone().is_wf());
    assert!(DummyWriter::allocate(0, vec![]).is_wf());
}

#[test]
fn is_wf_sees_a_buffer_of_another_shape() {
    let mut a = DummyWriter::allocate(2, vec![DataType::U64; 3]);
    let mut b = DummyWriter::allocate(3, vec![DataType::U64; 2]);
    std::mem::swap(&mut a.buffer, &mut b.buffer);
    assert!(!a.is_wf());
    assert!(!b.is_wf());
    std::mem::swap(&mut a.buffer, &mut b.buffer);
    assert!(a.is_wf());
    assert!(b.is_wf());
}

#[test]
fn is_wf_sees_a_view_of_the_wrong_length() {
    let mut cells = [0u64; 6];
    let mut validity = [false; 6];
    let schema = vec![DataType::U64; 3];
    let whole = DummyPartitionWriter {
        cells: &mut cells,
        validity: &mut validity,
        nrows: 2,
        schema: schema.clone(),
    };
    assert!(whole.is_wf());
    let short =
        DummyPartitionWriter { cells: &mut cells[..5], validity: &mut validity, nrows: 2, schema: schema.clone() };
    assert!(!short.is_wf());
    let long = DummyPartitionWriter { cells: &mut cells, validity: &mut validity, nrows: 3, schema: schema.clone() };
    assert!(!long.is_wf());
    let huge =
        DummyPartitionWriter { cells: &mut cells, validity: &mut validity, nrows: usize::MAX, schema };
    assert!(!huge.is_wf());
}
