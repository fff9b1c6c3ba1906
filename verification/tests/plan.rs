use arrow::datatypes::{DataType, Field, Schema};
use sort_merge_join::error::JoinError;
use sort_merge_join::key::{KeyType, SortOptions};
use sort_merge_join::model::JoinType;
use sort_merge_join::plan::{build_join_schema, check_join_is_valid, Child, SortMergeJoinExec};
use sort_merge_join::stream::{JoinPoll, SMJStream, Side, SortMergeJoinMetrics, StreamInput};
use std::sync::Arc;

fn schema(names: &[&str]) -> Arc<Schema> {
    Arc::new(Schema::new(
        names.iter().map(|n| Field::new(*n, DataType::Int32, true)).collect::<Vec<_>>(),
    ))
}

#[test]
fn a_plan_is_made_for_fitting_join_columns() {
    let plan = SortMergeJoinExec::try_new(
        vec![KeyType::Int32, KeyType::Utf8],
        vec![KeyType::Utf8, KeyType::Int32, KeyType::Boolean],
        vec![(0, 1), (1, 0)],
        JoinType::Left,
        vec![SortOptions::default(); 2],
        true,
    )
    .unwrap();
    assert_eq!(
        plan.schema(),
        &vec![KeyType::Int32, KeyType::Utf8, KeyType::Utf8, KeyType::Int32, KeyType::Boolean]
    );
    assert_eq!(plan.join_type(), JoinType::Left);
    assert_eq!(plan.on_streamed(), vec![0, 1]);
    assert_eq!(plan.on_buffered(), vec![1, 0]);
    assert_eq!(plan.streamed_child(), Child::Left);
    assert_eq!(plan.output_ordering(), Child::Right);
    assert_eq!(plan.output_partitioning(), Child::Right);
    let children = plan.children();
    assert_eq!(children, vec![vec![KeyType::Int32, KeyType::Utf8], vec![KeyType::Utf8, KeyType::Int32, KeyType::Boolean]]);
}

#[test]
fn a_right_join_streams_the_right_input() {
    let plan = SortMergeJoinExec::try_new(
        vec![KeyType::Int32, KeyType::Utf8],
        vec![KeyType::Utf8, KeyType::Int32],
        vec![(0, 1)],
        JoinType::Right,
        vec![SortOptions::default()],
        false,
    )
    .unwrap();
    assert_eq!(plan.streamed_child(), Child::Right);
    assert_eq!(plan.on_streamed(), vec![1]);
    assert_eq!(plan.on_buffered(), vec![0]);
    assert_eq!(plan.schema().len(), 4);
}

#[test]
fn semi_and_anti_joins_yield_left_columns_only() {
    let left = vec![KeyType::Int32, KeyType::Utf8];
    let right = vec![KeyType::Int32];
    assert_eq!(build_join_schema(&left, &right, JoinType::Semi), left);
    assert_eq!(build_join_schema(&left, &right, JoinType::Anti), left);
    assert_eq!(
        build_join_schema(&left, &right, JoinType::Inner),
        vec![KeyType::Int32, KeyType::Utf8, KeyType::Int32]
    );
    assert_eq!(build_join_schema(&left, &right, JoinType::Full).len(), 3);
}

#[test]
fn join_columns_must_exist_and_agree_in_type() {
    let left = vec![KeyType::Int32, KeyType::Utf8];
    let right = vec![KeyType::Int32];
    assert!(check_join_is_valid(&left, &right, &vec![(0, 0)]));
    assert!(check_join_is_valid(&left, &right, &vec![]));
    assert!(!check_join_is_valid(&left, &right, &vec![(1, 0)]));
    assert!(!check_join_is_valid(&left, &right, &vec![(2, 0)]));
    assert!(!check_join_is_valid(&left, &right, &vec![(0, 1)]));
    assert!(!check_join_is_valid(&left, &right, &vec![(0, 0), (0, 1)]));
    let refused = SortMergeJoinExec::try_new(
        left,
        right,
        vec![(1, 0)],
        JoinType::Inner,
        vec![SortOptions::default()],
        false,
    );
    assert!(matches!(refused, Err(JoinError::InvalidJoinColumns)));
}

#[test]
fn sort_options_must_be_as_many_as_join_columns() {
    let refused = SortMergeJoinExec::try_new(
        vec![KeyType::Int32, KeyType::Int32],
        vec![KeyType::Int32, KeyType::Int32],
        vec![(0, 0), (1, 1)],
        JoinType::Inner,
        vec![SortOptions::default(); 3],
        false,
    );
    assert!(matches!(refused, Err(JoinError::SortOptionsMismatch { expected: 2, actual: 3 })));
    // a join column that does not fit is found first
    let refused = SortMergeJoinExec::try_new(
        vec![KeyType::Int32],
        vec![KeyType::Utf8],
        vec![(0, 0)],
        JoinType::Inner,
        vec![],
        false,
    );
    assert!(matches!(refused, Err(JoinError::InvalidJoinColumns)));
}

#[test]
fn new_children_must_be_two_and_fit() {
    let plan = SortMergeJoinExec::try_new(
        vec![KeyType::Int32, KeyType::Utf8],
        vec![KeyType::Int32],
        vec![(0, 0)],
        JoinType::Full,
        vec![SortOptions::default()],
        false,
    )
    .unwrap();
    let same = plan.with_new_children(vec![vec![KeyType::Int32], vec![KeyType::Int32, KeyType::Int64]]).unwrap();
    assert_eq!(same.schema(), &vec![KeyType::Int32, KeyType::Int32, KeyType::Int64]);
    assert_eq!(same.join_type(), JoinType::Full);
    assert_eq!(same.on_streamed(), vec![0]);
    assert!(matches!(
        plan.with_new_children(vec![vec![KeyType::Int32]]),
        Err(JoinError::WrongNumberOfChildren)
    ));
    assert!(matches!(
        plan.with_new_children(vec![vec![], vec![], vec![]]),
        Err(JoinError::WrongNumberOfChildren)
    ));
    assert!(matches!(
        plan.with_new_children(vec![vec![KeyType::Utf8], vec![KeyType::Int32]]),
        Err(JoinError::InvalidJoinColumns)
    ));
}

#[test]
fn a_stream_wants_a_batch_size_and_fitting_sort_options() {
    let s = schema(&["a"]);
    let made = |sort_options: Vec<SortOptions>, batch_size: usize| {
        SMJStream::try_new(
            s.clone(),
            sort_options,
            false,
            s.clone(),
            s.clone(),
            vec![KeyType::Int32],
            JoinType::Semi,
            batch_size,
            SortMergeJoinMetrics::new(1),
        )
    };
    assert!(matches!(made(vec![SortOptions::default()], 0), Err(JoinError::InvalidBatchSize)));
    assert!(matches!(made(vec![], 0), Err(JoinError::InvalidBatchSize)));
    assert!(matches!(
        made(vec![], 4),
        Err(JoinError::SortOptionsMismatch { expected: 1, actual: 0 })
    ));
    let mut stream = made(vec![SortOptions::default()], 4).unwrap();
    assert!(!stream.has_failed());
    assert!(matches!(stream.poll_next(), Ok(JoinPoll::Pending(Side::Streamed))));
    assert!(matches!(stream.poll_next(), Ok(JoinPoll::Pending(Side::Streamed))));
    assert!(stream.push_streamed(StreamInput::End));
    assert!(matches!(stream.poll_next(), Ok(JoinPoll::Pending(Side::Buffered))));
    assert!(stream.push_buffered(StreamInput::End));
    assert!(matches!(stream.poll_next(), Ok(JoinPoll::Finished)));
    assert!(matches!(stream.poll_next(), Ok(JoinPoll::Finished)));
}

#[test]
fn new_metrics_count_from_zero() {
    let m = SortMergeJoinMetrics::new(7);
    assert_eq!(m.partition, 7);
    assert_eq!((m.input_batches, m.input_rows, m.output_batches, m.output_rows), (0, 0, 0, 0));
}

/// A schema of one column of lists of 32-bit integers.
fn list_schema() -> Arc<Schema> {
    let item = Arc::new(Field::new("item", DataType::Int32, true));
    Arc::new(Schema::new(vec![Field::new("l", DataType::List(item), true)]))
}

#[test]
fn a_stream_refuses_a_schema_with_a_column_it_cannot_carry() {
    let flat = schema(&["a"]);
    let made = |output: Arc<Schema>, streamed: Arc<Schema>, buffered: Arc<Schema>, size: usize| {
        SMJStream::try_new(
            output,
            vec![SortOptions::default()],
            false,
            streamed,
            buffered,
            vec![KeyType::Int32],
            JoinType::Left,
            size,
            SortMergeJoinMetrics::new(0),
        )
    };
    assert!(made(flat.clone(), flat.clone(), flat.clone(), 2).is_ok());
    assert!(matches!(
        made(list_schema(), flat.clone(), flat.clone(), 2),
        Err(JoinError::UnsupportedColumns)
    ));
    assert!(matches!(
        made(flat.clone(), list_schema(), flat.clone(), 2),
        Err(JoinError::UnsupportedColumns)
    ));
    assert!(matches!(
        made(flat.clone(), flat.clone(), list_schema(), 2),
        Err(JoinError::UnsupportedColumns)
    ));
    // a batch size of zero is found first
    assert!(matches!(
        made(list_schema(), flat.clone(), flat.clone(), 0),
        Err(JoinError::InvalidBatchSize)
    ));
}

#[test]
fn a_stream_carries_numbers_booleans_strings_and_dates() {
    let carried = Arc::new(Schema::new(vec![
        Field::new("i", DataType::Int64, true),
        Field::new("f", DataType::Float64, true),
        Field::new("b", DataType::Boolean, true),
        Field::new("s", DataType::Utf8, true),
        Field::new("l", DataType::LargeUtf8, true),
        Field::new("d", DataType::Decimal128(10, 2), true),
        Field::new("t", DataType::Timestamp(arrow::datatypes::TimeUnit::Second, None), true),
        Field::new("e", DataType::Date32, true),
    ]));
    let made = SMJStream::try_new(
        carried.clone(),
        vec![SortOptions::default()],
        false,
        carried.clone(),
        carried.clone(),
        vec![KeyType::Int64],
        JoinType::Semi,
        8,
        SortMergeJoinMetrics::new(0),
    );
    assert!(made.is_ok());
    let refused = Arc::new(Schema::new(vec![
        Field::new("i", DataType::Int64, true),
        Field::new("x", DataType::Binary, true),
    ]));
    let made = SMJStream::try_new(
        carried.clone(),
        vec![SortOptions::default()],
        false,
        refused,
        carried,
        vec![KeyType::Int64],
        JoinType::Semi,
        8,
        SortMergeJoinMetrics::new(0),
    );
    assert!(matches!(made, Err(JoinError::UnsupportedColumns)));
    // a string kept as views is refused
    let views = Arc::new(Schema::new(vec![Field::new("v", DataType::Utf8View, true)]));
    let made = SMJStream::try_new(
        views.clone(),
        vec![SortOptions::default()],
        false,
        views.clone(),
        views,
        vec![KeyType::Other],
        JoinType::Semi,
        8,
        SortMergeJoinMetrics::new(0),
    );
    assert!(matches!(made, Err(JoinError::UnsupportedColumns)));
    // a time of day is refused, whatever its unit
    let time = Arc::new(Schema::new(vec![Field::new(
        "t",
        DataType::Time32(arrow::datatypes::TimeUnit::Second),
        true,
    )]));
    let made = SMJStream::try_new(
        time.clone(),
        vec![SortOptions::default()],
        false,
        time.clone(),
        time,
        vec![KeyType::Other],
        JoinType::Semi,
        8,
        SortMergeJoinMetrics::new(0),
    );
    assert!(matches!(made, Err(JoinError::UnsupportedColumns)));
}

#[test]
fn a_plan_refuses_to_run_over_columns_it_cannot_carry() {
    let plan = SortMergeJoinExec::try_new(
        vec![KeyType::Int32],
        vec![KeyType::Int32],
        vec![(0, 0)],
        JoinType::Inner,
        vec![SortOptions::default()],
        false,
    )
    .unwrap();
    let flat = schema(&["a"]);
    let both = schema(&["a", "b"]);
    assert!(plan.execute(0, 4, both.clone(), flat.clone(), flat.clone()).is_ok());
    assert!(matches!(
        plan.execute(0, 4, both.clone(), list_schema(), flat.clone()),
        Err(JoinError::UnsupportedColumns)
    ));
    assert!(matches!(
        plan.execute(0, 0, both, list_schema(), flat),
        Err(JoinError::InvalidBatchSize)
    ));
}

#[test]
fn a_stream_hands_out_the_schema_it_was_given() {
    let output = schema(&["a", "b"]);
    let side = schema(&["a"]);
    let stream = SMJStream::try_new(
        output.clone(),
        vec![SortOptions::default()],
        false,
        side.clone(),
        side,
        vec![KeyType::Int32],
        JoinType::Inner,
        4,
        SortMergeJoinMetrics::new(0),
    )
    .unwrap();
    assert!(Arc::ptr_eq(stream.schema(), &output));
    assert_eq!(stream.schema().fields().len(), 2);
    assert_eq!(stream.schema().field(1).name(), "b");
}
