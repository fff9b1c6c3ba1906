use arrow::array::Int32Array;
use arrow::datatypes::{DataType, Field, Schema};
use arrow::record_batch::RecordBatch;
use sort_merge_join::batch::{Batch, InputBatch};
use sort_merge_join::buffered::{BufferedBatch, BufferedData};
use sort_merge_join::key::{KeyColumn, KeyError, KeyType, KeyValue};
use std::sync::Arc;

fn buffered_batch(keys: Vec<Option<i32>>, range: std::ops::Range<usize>) -> BufferedBatch {
    let schema = Arc::new(Schema::new(vec![Field::new("k", DataType::Int32, true)]));
    let batch =
        RecordBatch::try_new(schema, vec![Arc::new(Int32Array::from(keys.clone()))]).unwrap();
    let column = KeyColumn {
        data_type: KeyType::Int32,
        values: keys.into_iter().map(|v| v.map(|v| KeyValue::Integer(v as i128))).collect(),
    };
    BufferedBatch::new(InputBatch::try_new(Batch(batch), vec![column]).unwrap(), range)
}

fn buffered_data(batches: Vec<BufferedBatch>) -> BufferedData {
    let mut data = BufferedData::default();
    for batch in batches {
        data.batches.push_back(batch);
    }
    data
}

#[test]
fn input_batch_wants_a_key_cell_for_each_row() {
    let schema = Arc::new(Schema::new(vec![Field::new("k", DataType::Int32, true)]));
    let batch = RecordBatch::try_new(schema, vec![Arc::new(Int32Array::from(vec![1, 2, 3]))]).unwrap();
    let short = KeyColumn { data_type: KeyType::Int32, values: vec![Some(KeyValue::Integer(1))] };
    assert!(InputBatch::try_new(Batch(batch.clone()), vec![short]).is_none());
    let full = KeyColumn {
        data_type: KeyType::Int32,
        values: vec![Some(KeyValue::Integer(1)), Some(KeyValue::Integer(2)), None],
    };
    let input = InputBatch::try_new(Batch(batch.clone()), vec![full]).unwrap();
    assert_eq!(input.num_rows(), 3);
    assert_eq!(input.join_arrays().len(), 1);
    let (batch_back, keys) = input.into_parts();
    assert_eq!(batch_back.0, batch);
    assert_eq!(keys[0].len(), 3);
    assert!(InputBatch::try_new(Batch(batch), vec![]).is_some());
}

#[test]
fn default_buffered_data_is_empty_and_scanned() {
    let data = BufferedData::default();
    assert_eq!(data.batches.len(), 0);
    assert!(!data.has_buffered_rows());
    assert!(data.scanning_finished());
}

#[test]
fn head_and_tail_are_the_ends_of_the_queue() {
    let mut data = buffered_data(vec![
        buffered_batch(vec![Some(1), Some(1)], 1..2),
        buffered_batch(vec![Some(1), Some(2), Some(3)], 0..1),
    ]);
    assert_eq!(data.head_batch().range, 1..2);
    assert_eq!(data.tail_batch().range, 0..1);
    assert_eq!(data.head_batch().batch.0.num_rows(), 2);
    assert_eq!(data.tail_batch().batch.0.num_rows(), 3);
    data.tail_batch_mut().range.end = 2;
    assert_eq!(data.tail_batch().range, 0..2);
    assert_eq!(data.head_batch().range, 1..2);
    assert_eq!(data.batches.len(), 2);
}

#[test]
fn has_buffered_rows_looks_at_every_range() {
    assert!(!buffered_data(vec![buffered_batch(vec![Some(1)], 0..0)]).has_buffered_rows());
    assert!(buffered_data(vec![buffered_batch(vec![Some(1)], 0..1)]).has_buffered_rows());
    assert!(buffered_data(vec![
        buffered_batch(vec![Some(1)], 1..1),
        buffered_batch(vec![Some(1), Some(2)], 0..1),
    ])
    .has_buffered_rows());
}

#[test]
fn the_scan_walks_the_ranges_and_skips_empty_ones() {
    let mut data = buffered_data(vec![
        buffered_batch(vec![Some(0), Some(1), Some(1)], 1..3),
        buffered_batch(vec![Some(1)], 0..1),
        buffered_batch(vec![Some(2), Some(3)], 0..0),
    ]);
    let mut seen = vec![];
    while !data.scanning_finished() {
        assert!(!data.scanning_batch_finished());
        assert_eq!(data.scanning_batch().range.start + data.scanning_offset, data.scanning_idx());
        seen.push((data.scanning_batch_idx, data.scanning_idx()));
        data.scanning_advance();
    }
    assert_eq!(seen, vec![(0, 1), (0, 2), (1, 0)]);
    assert_eq!(data.scanning_batch_idx, 3);
    assert_eq!(data.scanning_offset, 0);
    data.scanning_reset();
    assert_eq!((data.scanning_batch_idx, data.scanning_offset), (0, 0));
    assert!(!data.scanning_finished());
    data.scanning_finish();
    assert!(data.scanning_finished());
    assert_eq!((data.scanning_batch_idx, data.scanning_offset), (3, 0));
}

#[test]
fn consumed_batches_are_popped_from_the_front() {
    let mut data = buffered_data(vec![
        buffered_batch(vec![Some(1), Some(1)], 0..2),
        buffered_batch(vec![Some(1), Some(2), Some(3)], 0..1),
    ]);
    data.pop_consumed();
    assert_eq!(data.batches.len(), 1);
    assert_eq!(data.head_batch().range, 0..1);
    data.start_next_run();
    assert_eq!(data.head_batch().range, 1..2);

    let mut data = buffered_data(vec![buffered_batch(vec![Some(1), Some(1)], 0..2)]);
    data.pop_consumed();
    assert_eq!(data.batches.len(), 0);
}

#[test]
fn a_run_grows_while_the_key_stays() {
    let mut data = buffered_data(vec![buffered_batch(vec![Some(1), Some(1), Some(1), Some(2)], 0..1)]);
    assert_eq!(data.extend_run(), Ok(true));
    assert_eq!(data.tail_batch().range, 0..3);

    let mut data = buffered_data(vec![
        buffered_batch(vec![Some(7), Some(7)], 0..2),
        buffered_batch(vec![Some(7), Some(7)], 0..0),
    ]);
    assert_eq!(data.extend_run(), Ok(false));
    assert_eq!(data.tail_batch().range, 0..2);
    assert_eq!(data.head_batch().range, 0..2);

    // a null key never goes on
    let mut data = buffered_data(vec![buffered_batch(vec![None, None], 0..1)]);
    assert_eq!(data.extend_run(), Ok(true));
    assert_eq!(data.tail_batch().range, 0..1);
}

#[test]
fn a_run_fails_on_a_type_it_cannot_compare() {
    let schema = Arc::new(Schema::new(vec![Field::new("k", DataType::Int32, true)]));
    let batch = RecordBatch::try_new(schema, vec![Arc::new(Int32Array::from(vec![1, 1]))]).unwrap();
    let column = KeyColumn {
        data_type: KeyType::Other,
        values: vec![Some(KeyValue::Integer(1)), Some(KeyValue::Integer(1))],
    };
    let input = InputBatch::try_new(Batch(batch), vec![column]).unwrap();
    let mut data = buffered_data(vec![BufferedBatch::new(input, 0..1)]);
    assert_eq!(data.extend_run(), Err(KeyError::UnsupportedType));
    assert_eq!(data.tail_batch().range, 0..1);
}
