use arrow::array::{Array, BooleanArray, Int32Array, ListArray, StringArray};
use arrow::datatypes::{DataType, Field, Schema, SchemaRef};
use arrow::record_batch::{RecordBatch, RecordBatchOptions};
use arrow::util::pretty::pretty_format_batches;
use sort_merge_join::batch::{Batch, InputBatch};
use sort_merge_join::error::JoinError;
use sort_merge_join::key::{KeyColumn, KeyType, KeyValue, SortOptions};
use sort_merge_join::model::JoinType;
use sort_merge_join::plan::SortMergeJoinExec;
use sort_merge_join::stream::{JoinPoll, SMJStream, Side, StreamInput};
use std::sync::Arc;

/// A table of three columns of 32-bit integers, in one batch.
fn build_table(a: (&str, &Vec<i32>), b: (&str, &Vec<i32>), c: (&str, &Vec<i32>)) -> RecordBatch {
    let schema = Arc::new(Schema::new(vec![
        Field::new(a.0, DataType::Int32, false),
        Field::new(b.0, DataType::Int32, false),
        Field::new(c.0, DataType::Int32, false),
    ]));
    RecordBatch::try_new(
        schema,
        vec![
            Arc::new(Int32Array::from(a.1.clone())),
            Arc::new(Int32Array::from(b.1.clone())),
            Arc::new(Int32Array::from(c.1.clone())),
        ],
    )
    .unwrap()
}

/// A table of three columns of 32-bit integers that may be null, in one batch.
fn build_table_i32_nullable(
    a: (&str, &Vec<Option<i32>>),
    b: (&str, &Vec<Option<i32>>),
    c: (&str, &Vec<Option<i32>>),
) -> RecordBatch {
    let schema = Arc::new(Schema::new(vec![
        Field::new(a.0, DataType::Int32, true),
        Field::new(b.0, DataType::Int32, true),
        Field::new(c.0, DataType::Int32, true),
    ]));
    RecordBatch::try_new(
        schema,
        vec![
            Arc::new(Int32Array::from(a.1.clone())),
            Arc::new(Int32Array::from(b.1.clone())),
            Arc::new(Int32Array::from(c.1.clone())),
        ],
    )
    .unwrap()
}

/// The index of the column of that name.
fn column(batch: &RecordBatch, name: &str) -> usize {
    batch.schema().index_of(name).unwrap()
}

/// The key columns of a batch of 32-bit integer columns.
fn join_arrays(batch: &RecordBatch, on: &[usize]) -> Vec<KeyColumn> {
    on.iter()
        .map(|c| {
            let array = batch.column(*c).as_any().downcast_ref::<Int32Array>().unwrap();
            KeyColumn {
                data_type: KeyType::Int32,
                values: (0..array.len())
                    .map(|i| {
                        if array.is_null(i) {
                            None
                        } else {
                            Some(KeyValue::Integer(array.value(i) as i128))
                        }
                    })
                    .collect(),
            }
        })
        .collect()
}

/// The schema of the joined rows, every column nullable.
fn output_schema(left: &SchemaRef, right: &SchemaRef, join_type: JoinType) -> SchemaRef {
    let mut fields: Vec<Field> =
        left.fields().iter().map(|f| f.as_ref().clone().with_nullable(true)).collect();
    if !matches!(join_type, JoinType::Semi | JoinType::Anti) {
        fields.extend(right.fields().iter().map(|f| f.as_ref().clone().with_nullable(true)));
    }
    Arc::new(Schema::new(fields))
}

/// Hands the next batch of an input, or its end, to the stream.
fn feed(stream: &mut SMJStream, side: Side, batches: &mut std::vec::IntoIter<RecordBatch>, on: &[usize]) {
    let input = match batches.next() {
        Some(batch) => {
            let keys = join_arrays(&batch, on);
            StreamInput::Batch(InputBatch::try_new(Batch(batch), keys).unwrap())
        }
        None => StreamInput::End,
    };
    let accepted = match side {
        Side::Streamed => stream.push_streamed(input),
        Side::Buffered => stream.push_buffered(input),
    };
    assert!(accepted);
}

/// Runs the join of the two inputs to its end and collects the output.
fn join_collect_batches(
    left: Vec<RecordBatch>,
    right: Vec<RecordBatch>,
    on: Vec<(usize, usize)>,
    join_type: JoinType,
    sort_options: Vec<SortOptions>,
    null_equals_null: bool,
    batch_size: usize,
) -> Result<Vec<RecordBatch>, JoinError> {
    let left_schema = left[0].schema();
    let right_schema = right[0].schema();
    let types = |schema: &SchemaRef| vec![KeyType::Int32; schema.fields().len()];
    let plan = SortMergeJoinExec::try_new(
        types(&left_schema),
        types(&right_schema),
        on,
        join_type,
        sort_options,
        null_equals_null,
    )?;
    let schema = output_schema(&left_schema, &right_schema, join_type);
    let mut stream = plan.execute(0, batch_size, schema, left_schema, right_schema)?;
    let on_streamed = plan.on_streamed();
    let on_buffered = plan.on_buffered();
    let (streamed, buffered) = match join_type {
        JoinType::Right => (right, left),
        _ => (left, right),
    };
    let mut streamed = streamed.into_iter();
    let mut buffered = buffered.into_iter();
    let mut output = vec![];
    loop {
        match stream.poll_next()? {
            JoinPoll::Pending(Side::Streamed) => {
                feed(&mut stream, Side::Streamed, &mut streamed, &on_streamed)
            }
            JoinPoll::Pending(Side::Buffered) => {
                feed(&mut stream, Side::Buffered, &mut buffered, &on_buffered)
            }
            JoinPoll::Batch(batch) => output.push(batch.0),
            JoinPoll::Finished => break,
        }
    }
    Ok(output)
}

fn join_collect(
    left: RecordBatch,
    right: RecordBatch,
    on: Vec<(usize, usize)>,
    join_type: JoinType,
) -> Result<Vec<RecordBatch>, JoinError> {
    let sort_options = vec![SortOptions::default(); on.len()];
    join_collect_batches(vec![left], vec![right], on, join_type, sort_options, false, 8192)
}

fn join_collect_with_options(
    left: RecordBatch,
    right: RecordBatch,
    on: Vec<(usize, usize)>,
    join_type: JoinType,
    sort_options: Vec<SortOptions>,
    null_equals_null: bool,
) -> Result<Vec<RecordBatch>, JoinError> {
    join_collect_batches(vec![left], vec![right], on, join_type, sort_options, null_equals_null, 8192)
}

fn join_collect_batch_size_equals_two(
    left: RecordBatch,
    right: RecordBatch,
    on: Vec<(usize, usize)>,
    join_type: JoinType,
) -> Result<Vec<RecordBatch>, JoinError> {
    let sort_options = vec![SortOptions::default(); on.len()];
    join_collect_batches(vec![left], vec![right], on, join_type, sort_options, false, 2)
}

/// The lines of the batches as a table, the rows sorted.
fn sorted_lines(batches: &[RecordBatch]) -> Vec<String> {
    let formatted = pretty_format_batches(batches).unwrap().to_string();
    let mut lines: Vec<String> = formatted.trim().lines().map(|l| l.to_string()).collect();
    let rows = lines.len();
    if rows > 3 {
        lines.as_mut_slice()[2..rows - 1].sort_unstable();
    }
    lines
}

/// Compares the batches, as a table with sorted rows, with the lines expected.
fn assert_batches_sorted_eq(expected: Vec<&str>, batches: &[RecordBatch]) {
    let mut expected: Vec<String> = expected.iter().map(|l| l.to_string()).collect();
    let rows = expected.len();
    if rows > 3 {
        expected.as_mut_slice()[2..rows - 1].sort_unstable();
    }
    assert_eq!(expected, sorted_lines(batches));
}

/// Cuts a batch into batches of at most `rows` rows.
fn split(batch: &RecordBatch, rows: usize) -> Vec<RecordBatch> {
    let mut parts = vec![];
    let mut start = 0;
    while start < batch.num_rows() {
        let len = rows.min(batch.num_rows() - start);
        parts.push(batch.slice(start, len));
        start += len;
    }
    parts
}

#[test]
fn join_inner_one() {
    let left = build_table(
        ("a1", &vec![1, 2, 3]),
        ("b1", &vec![4, 5, 5]), // this has a repetition
        ("c1", &vec![7, 8, 9]),
    );
    let right = build_table(
        ("a2", &vec![10, 20, 30]),
        ("b1", &vec![4, 5, 6]),
        ("c2", &vec![70, 80, 90]),
    );
    let on = vec![(column(&left, "b1"), column(&right, "b1"))];

    let batches = join_collect(left, right, on, JoinType::Inner).unwrap();

    let expected = vec![
        "+----+----+----+----+----+----+",
        "| a1 | b1 | c1 | a2 | b1 | c2 |",
        "+----+----+----+----+----+----+",
        "| 1  | 4  | 7  | 10 | 4  | 70 |",
        "| 2  | 5  | 8  | 20 | 5  | 80 |",
        "| 3  | 5  | 9  | 20 | 5  | 80 |",
        "+----+----+----+----+----+----+",
    ];
    assert_batches_sorted_eq(expected, &batches);
}

#[test]
fn join_inner_two() {
    let left = build_table(
        ("a1", &vec![1, 2, 2]),
        ("b2", &vec![1, 2, 2]),
        ("c1", &vec![7, 8, 9]),
    );
    let right = build_table(
        ("a1", &vec![1, 2, 3]),
        ("b2", &vec![1, 2, 2]),
        ("c2", &vec![70, 80, 90]),
    );
    let on = vec![
        (column(&left, "a1"), column(&right, "a1")),
        (column(&left, "b2"), column(&right, "b2")),
    ];

    let batches = join_collect(left, right, on, JoinType::Inner).unwrap();
    let expected = vec![
        "+----+----+----+----+----+----+",
        "| a1 | b2 | c1 | a1 | b2 | c2 |",
        "+----+----+----+----+----+----+",
        "| 1  | 1  | 7  | 1  | 1  | 70 |",
        "| 2  | 2  | 8  | 2  | 2  | 80 |",
        "| 2  | 2  | 9  | 2  | 2  | 80 |",
        "+----+----+----+----+----+----+",
    ];
    assert_batches_sorted_eq(expected, &batches);
}

#[test]
fn join_inner_two_two() {
    let left = build_table(
        ("a1", &vec![1, 1, 2]),
        ("b2", &vec![1, 1, 2]),
        ("c1", &vec![7, 8, 9]),
    );
    let right = build_table(
        ("a1", &vec![1, 1, 3]),
        ("b2", &vec![1, 1, 2]),
        ("c2", &vec![70, 80, 90]),
    );
    let on = vec![
        (column(&left, "a1"), column(&right, "a1")),
        (column(&left, "b2"), column(&right, "b2")),
    ];

    let batches = join_collect(left, right, on, JoinType::Inner).unwrap();
    let expected = vec![
        "+----+----+----+----+----+----+",
        "| a1 | b2 | c1 | a1 | b2 | c2 |",
        "+----+----+----+----+----+----+",
        "| 1  | 1  | 7  | 1  | 1  | 70 |",
        "| 1  | 1  | 7  | 1  | 1  | 80 |",
        "| 1  | 1  | 8  | 1  | 1  | 70 |",
        "| 1  | 1  | 8  | 1  | 1  | 80 |",
        "+----+----+----+----+----+----+",
    ];
    assert_batches_sorted_eq(expected, &batches);
}

#[test]
fn join_inner_with_nulls() {
    let left = build_table_i32_nullable(
        ("a1", &vec![Some(1), Some(1), Some(2), Some(2)]),
        ("b2", &vec![None, Some(1), Some(2), Some(2)]), // null in key field
        ("c1", &vec![Some(1), None, Some(8), Some(9)]), // null in non-key field
    );
    let right = build_table_i32_nullable(
        ("a1", &vec![Some(1), Some(1), Some(2), Some(3)]),
        ("b2", &vec![None, Some(1), Some(2), Some(2)]),
        ("c2", &vec![Some(10), Some(70), Some(80), Some(90)]),
    );
    let on = vec![
        (column(&left, "a1"), column(&right, "a1")),
        (column(&left, "b2"), column(&right, "b2")),
    ];

    let batches = join_collect(left, right, on, JoinType::Inner).unwrap();
    let expected = vec![
        "+----+----+----+----+----+----+",
        "| a1 | b2 | c1 | a1 | b2 | c2 |",
        "+----+----+----+----+----+----+",
        "| 1  | 1  |    | 1  | 1  | 70 |",
        "| 2  | 2  | 8  | 2  | 2  | 80 |",
        "| 2  | 2  | 9  | 2  | 2  | 80 |",
        "+----+----+----+----+----+----+",
    ];
    assert_batches_sorted_eq(expected, &batches);
}

#[test]
fn join_inner_with_nulls_with_options() {
    let left = build_table_i32_nullable(
        ("a1", &vec![Some(2), Some(2), Some(1), Some(1)]),
        ("b2", &vec![Some(2), Some(2), Some(1), None]), // null in key field
        ("c1", &vec![Some(9), Some(8), None, Some(1)]), // null in non-key field
    );
    let right = build_table_i32_nullable(
        ("a1", &vec![Some(3), Some(2), Some(1), Some(1)]),
        ("b2", &vec![Some(2), Some(2), Some(1), None]),
        ("c2", &vec![Some(90), Some(80), Some(70), Some(10)]),
    );
    let on = vec![
        (column(&left, "a1"), column(&right, "a1")),
        (column(&left, "b2"), column(&right, "b2")),
    ];
    let batches = join_collect_with_options(
        left,
        right,
        on,
        JoinType::Inner,
        vec![SortOptions { descending: true, nulls_first: false }; 2],
        true,
    )
    .unwrap();
    let expected = vec![
        "+----+----+----+----+----+----+",
        "| a1 | b2 | c1 | a1 | b2 | c2 |",
        "+----+----+----+----+----+----+",
        "| 1  |    | 1  | 1  |    | 10 |",
        "| 1  | 1  |    | 1  | 1  | 70 |",
        "| 2  | 2  | 8  | 2  | 2  | 80 |",
        "| 2  | 2  | 9  | 2  | 2  | 80 |",
        "+----+----+----+----+----+----+",
    ];
    assert_batches_sorted_eq(expected, &batches);
}

#[test]
fn join_inner_output_two_batches() {
    let left = build_table(
        ("a1", &vec![1, 2, 2]),
        ("b2", &vec![1, 2, 2]),
        ("c1", &vec![7, 8, 9]),
    );
    let right = build_table(
        ("a1", &vec![1, 2, 3]),
        ("b2", &vec![1, 2, 2]),
        ("c2", &vec![70, 80, 90]),
    );
    let on = vec![
        (column(&left, "a1"), column(&right, "a1")),
        (column(&left, "b2"), column(&right, "b2")),
    ];

    let batches = join_collect_batch_size_equals_two(left, right, on, JoinType::Inner).unwrap();
    let expected = vec![
        "+----+----+----+----+----+----+",
        "| a1 | b2 | c1 | a1 | b2 | c2 |",
        "+----+----+----+----+----+----+",
        "| 1  | 1  | 7  | 1  | 1  | 70 |",
        "| 2  | 2  | 8  | 2  | 2  | 80 |",
        "| 2  | 2  | 9  | 2  | 2  | 80 |",
        "+----+----+----+----+----+----+",
    ];
    assert_eq!(batches.len(), 2);
    assert_eq!(batches[0].num_rows(), 2);
    assert_eq!(batches[1].num_rows(), 1);
    assert_batches_sorted_eq(expected, &batches);
}

#[test]
fn join_left_one() {
    let left = build_table(
        ("a1", &vec![1, 2, 3]),
        ("b1", &vec![4, 5, 7]), // 7 does not exist on the right
        ("c1", &vec![7, 8, 9]),
    );
    let right = build_table(
        ("a2", &vec![10, 20, 30]),
        ("b1", &vec![4, 5, 6]),
        ("c2", &vec![70, 80, 90]),
    );
    let on = vec![(column(&left, "b1"), column(&right, "b1"))];

    let batches = join_collect(left, right, on, JoinType::Left).unwrap();
    let expected = vec![
        "+----+----+----+----+----+----+",
        "| a1 | b1 | c1 | a2 | b1 | c2 |",
        "+----+----+----+----+----+----+",
        "| 1  | 4  | 7  | 10 | 4  | 70 |",
        "| 2  | 5  | 8  | 20 | 5  | 80 |",
        "| 3  | 7  | 9  |    |    |    |",
        "+----+----+----+----+----+----+",
    ];
    assert_batches_sorted_eq(expected, &batches);
}

#[test]
fn join_right_one() {
    let left = build_table(
        ("a1", &vec![1, 2, 3]),
        ("b1", &vec![4, 5, 7]),
        ("c1", &vec![7, 8, 9]),
    );
    let right = build_table(
        ("a2", &vec![10, 20, 30]),
        ("b1", &vec![4, 5, 6]), // 6 does not exist on the left
        ("c2", &vec![70, 80, 90]),
    );
    let on = vec![(column(&left, "b1"), column(&right, "b1"))];

    let batches = join_collect(left, right, on, JoinType::Right).unwrap();
    let expected = vec![
        "+----+----+----+----+----+----+",
        "| a1 | b1 | c1 | a2 | b1 | c2 |",
        "+----+----+----+----+----+----+",
        "|    |    |    | 30 | 6  | 90 |",
        "| 1  | 4  | 7  | 10 | 4  | 70 |",
        "| 2  | 5  | 8  | 20 | 5  | 80 |",
        "+----+----+----+----+----+----+",
    ];
    assert_batches_sorted_eq(expected, &batches);
}

#[test]
fn join_full_one() {
    let left = build_table(
        ("a1", &vec![1, 2, 3]),
        ("b1", &vec![4, 5, 7]), // 7 does not exist on the right
        ("c1", &vec![7, 8, 9]),
    );
    let right = build_table(
        ("a2", &vec![10, 20, 30]),
        ("b2", &vec![4, 5, 6]),
        ("c2", &vec![70, 80, 90]),
    );
    let on = vec![(column(&left, "b1"), column(&right, "b2"))];

    let batches = join_collect(left, right, on, JoinType::Full).unwrap();
    let expected = vec![
        "+----+----+----+----+----+----+",
        "| a1 | b1 | c1 | a2 | b2 | c2 |",
        "+----+----+----+----+----+----+",
        "|    |    |    | 30 | 6  | 90 |",
        "| 1  | 4  | 7  | 10 | 4  | 70 |",
        "| 2  | 5  | 8  | 20 | 5  | 80 |",
        "| 3  | 7  | 9  |    |    |    |",
        "+----+----+----+----+----+----+",
    ];
    assert_batches_sorted_eq(expected, &batches);
}

#[test]
fn join_anti() {
    let left = build_table(
        ("a1", &vec![1, 2, 2, 3, 5]),
        ("b1", &vec![4, 5, 5, 7, 7]), // 7 does not exist on the right
        ("c1", &vec![7, 8, 8, 9, 11]),
    );
    let right = build_table(
        ("a2", &vec![10, 20, 30]),
        ("b1", &vec![4, 5, 6]),
        ("c2", &vec![70, 80, 90]),
    );
    let on = vec![(column(&left, "b1"), column(&right, "b1"))];

    let batches = join_collect(left, right, on, JoinType::Anti).unwrap();
    let expected = vec![
        "+----+----+----+",
        "| a1 | b1 | c1 |",
        "+----+----+----+",
        "| 3  | 7  | 9  |",
        "| 5  | 7  | 11 |",
        "+----+----+----+",
    ];
    assert_batches_sorted_eq(expected, &batches);
}

#[test]
fn join_semi() {
    let left = build_table(
        ("a1", &vec![1, 2, 2, 3]),
        ("b1", &vec![4, 5, 5, 7]), // 7 does not exist on the right
        ("c1", &vec![7, 8, 8, 9]),
    );
    let right = build_table(
        ("a2", &vec![10, 20, 30]),
        ("b1", &vec![4, 5, 6]), // 5 is double on the right
        ("c2", &vec![70, 80, 90]),
    );
    let on = vec![(column(&left, "b1"), column(&right, "b1"))];

    let batches = join_collect(left, right, on, JoinType::Semi).unwrap();
    let expected = vec![
        "+----+----+----+",
        "| a1 | b1 | c1 |",
        "+----+----+----+",
        "| 1  | 4  | 7  |",
        "| 2  | 5  | 8  |",
        "| 2  | 5  | 8  |",
        "+----+----+----+",
    ];
    assert_batches_sorted_eq(expected, &batches);
}

#[test]
fn join_with_duplicated_column_names() {
    let left = build_table(
        ("a", &vec![1, 2, 3]),
        ("b", &vec![4, 5, 7]),
        ("c", &vec![7, 8, 9]),
    );
    let right = build_table(
        ("a", &vec![10, 20, 30]),
        ("b", &vec![1, 2, 7]),
        ("c", &vec![70, 80, 90]),
    );
    // join on a=b so there are duplicate column names on unjoined columns
    let on = vec![(column(&left, "a"), column(&right, "b"))];

    let batches = join_collect(left, right, on, JoinType::Inner).unwrap();
    let expected = vec![
        "+---+---+---+----+---+----+",
        "| a | b | c | a  | b | c  |",
        "+---+---+---+----+---+----+",
        "| 1 | 4 | 7 | 10 | 1 | 70 |",
        "| 2 | 5 | 8 | 20 | 2 | 80 |",
        "+---+---+---+----+---+----+",
    ];
    assert_batches_sorted_eq(expected, &batches);
}

#[test]
fn inner_join_keeps_row_order() {
    let left = build_table(
        ("a1", &vec![1, 2, 3]),
        ("b1", &vec![4, 5, 5]),
        ("c1", &vec![7, 8, 9]),
    );
    let right = build_table(
        ("a2", &vec![10, 20, 30]),
        ("b1", &vec![4, 5, 6]),
        ("c2", &vec![70, 80, 90]),
    );
    let batches = join_collect(left, right, vec![(1, 1)], JoinType::Inner).unwrap();
    let formatted = pretty_format_batches(&batches).unwrap().to_string();
    let lines: Vec<&str> = formatted.trim().lines().collect();
    assert_eq!(
        lines,
        vec![
            "+----+----+----+----+----+----+",
            "| a1 | b1 | c1 | a2 | b1 | c2 |",
            "+----+----+----+----+----+----+",
            "| 1  | 4  | 7  | 10 | 4  | 70 |",
            "| 2  | 5  | 8  | 20 | 5  | 80 |",
            "| 3  | 5  | 9  | 20 | 5  | 80 |",
            "+----+----+----+----+----+----+",
        ]
    );
}

#[test]
fn full_join_pads_both_sides_in_merge_order() {
    let left = build_table(
        ("a1", &vec![1, 2, 3]),
        ("b1", &vec![4, 5, 7]),
        ("c1", &vec![7, 8, 9]),
    );
    let right = build_table(
        ("a2", &vec![10, 20, 30]),
        ("b2", &vec![4, 5, 6]),
        ("c2", &vec![70, 80, 90]),
    );
    let batches = join_collect(left, right, vec![(1, 1)], JoinType::Full).unwrap();
    let formatted = pretty_format_batches(&batches).unwrap().to_string();
    let lines: Vec<&str> = formatted.trim().lines().collect();
    assert_eq!(
        lines,
        vec![
            "+----+----+----+----+----+----+",
            "| a1 | b1 | c1 | a2 | b2 | c2 |",
            "+----+----+----+----+----+----+",
            "| 1  | 4  | 7  | 10 | 4  | 70 |",
            "| 2  | 5  | 8  | 20 | 5  | 80 |",
            "|    |    |    | 30 | 6  | 90 |",
            "| 3  | 7  | 9  |    |    |    |",
            "+----+----+----+----+----+----+",
        ]
    );
}

#[test]
fn batch_size_does_not_change_the_rows() {
    let left = build_table(
        ("a1", &vec![1, 1, 2, 3, 3, 3]),
        ("b1", &vec![4, 4, 5, 7, 7, 7]),
        ("c1", &vec![1, 2, 3, 4, 5, 6]),
    );
    let right = build_table(
        ("a2", &vec![10, 20, 30, 40, 50]),
        ("b1", &vec![4, 4, 6, 7, 7]),
        ("c2", &vec![70, 80, 90, 100, 110]),
    );
    for join_type in [
        JoinType::Inner,
        JoinType::Left,
        JoinType::Right,
        JoinType::Full,
        JoinType::Semi,
        JoinType::Anti,
    ] {
        let whole = join_collect_batches(
            vec![left.clone()],
            vec![right.clone()],
            vec![(1, 1)],
            join_type,
            vec![SortOptions::default()],
            false,
            8192,
        )
        .unwrap();
        let expected = pretty_format_batches(&whole).unwrap().to_string();
        for batch_size in 1..6 {
            for rows in 1..4 {
                let batches = join_collect_batches(
                    split(&left, rows),
                    split(&right, rows),
                    vec![(1, 1)],
                    join_type,
                    vec![SortOptions::default()],
                    false,
                    batch_size,
                )
                .unwrap();
                assert!(batches.iter().all(|b| b.num_rows() <= batch_size && b.num_rows() > 0));
                assert!(batches.iter().rev().skip(1).all(|b| b.num_rows() == batch_size));
                assert_eq!(expected, pretty_format_batches(&batches).unwrap().to_string());
            }
        }
    }
}

#[test]
fn row_counts_match_the_relational_result() {
    let left = build_table(
        ("a1", &vec![1, 1, 2, 3, 3, 3]),
        ("b1", &vec![4, 4, 5, 7, 7, 7]),
        ("c1", &vec![1, 2, 3, 4, 5, 6]),
    );
    let right = build_table(
        ("a2", &vec![10, 20, 30, 40, 50]),
        ("b1", &vec![4, 4, 6, 7, 7]),
        ("c2", &vec![70, 80, 90, 100, 110]),
    );
    let count = |join_type| {
        join_collect(left.clone(), right.clone(), vec![(1, 1)], join_type)
            .unwrap()
            .iter()
            .map(|b| b.num_rows())
            .sum::<usize>()
    };
    // pairs: 2 * 2 for key 4 and 3 * 2 for key 7; key 5 is left only, key 6 right only
    assert_eq!(count(JoinType::Inner), 10);
    assert_eq!(count(JoinType::Left), 11);
    assert_eq!(count(JoinType::Right), 11);
    assert_eq!(count(JoinType::Full), 12);
    assert_eq!(count(JoinType::Semi), 5);
    assert_eq!(count(JoinType::Anti), 1);
}

#[test]
fn empty_inputs_give_no_output() {
    let left = build_table(("a1", &vec![]), ("b1", &vec![]), ("c1", &vec![]));
    let right = build_table(
        ("a2", &vec![10, 20, 30]),
        ("b1", &vec![4, 5, 6]),
        ("c2", &vec![70, 80, 90]),
    );
    let batches = join_collect(left.clone(), right.clone(), vec![(1, 1)], JoinType::Inner).unwrap();
    assert!(batches.is_empty());
    let batches = join_collect(left.clone(), right.clone(), vec![(1, 1)], JoinType::Left).unwrap();
    assert!(batches.is_empty());
    let batches = join_collect(left, right, vec![(1, 1)], JoinType::Full).unwrap();
    assert_eq!(batches.iter().map(|b| b.num_rows()).sum::<usize>(), 3);
}

#[test]
fn zero_batch_size_is_refused() {
    let left = build_table(("a1", &vec![1]), ("b1", &vec![4]), ("c1", &vec![7]));
    let right = build_table(("a2", &vec![10]), ("b1", &vec![4]), ("c2", &vec![70]));
    let result = join_collect_batches(
        vec![left],
        vec![right],
        vec![(1, 1)],
        JoinType::Inner,
        vec![SortOptions::default()],
        false,
        0,
    );
    assert!(matches!(result, Err(JoinError::InvalidBatchSize)));
}

#[test]
fn key_columns_of_another_type_fail_the_join() {
    let left = build_table(("a1", &vec![1]), ("b1", &vec![4]), ("c1", &vec![7]));
    let schema = left.schema();
    let plan = SortMergeJoinExec::try_new(
        vec![KeyType::Int32; 3],
        vec![KeyType::Int32; 3],
        vec![(1, 1)],
        JoinType::Inner,
        vec![SortOptions::default()],
        false,
    )
    .unwrap();
    let out = output_schema(&schema, &schema, JoinType::Inner);
    let mut stream = plan.execute(0, 10, out, schema.clone(), schema).unwrap();
    assert!(matches!(stream.poll_next(), Ok(JoinPoll::Pending(Side::Streamed))));
    let keys = vec![KeyColumn { data_type: KeyType::Int64, values: vec![Some(KeyValue::Integer(4))] }];
    let input = InputBatch::try_new(Batch(left), keys).unwrap();
    assert!(stream.push_streamed(StreamInput::Batch(input)));
    assert!(matches!(stream.poll_next(), Err(JoinError::KeyColumnsMismatch)));
    assert!(stream.has_failed());
    assert!(matches!(stream.poll_next(), Ok(JoinPoll::Finished)));
    assert!(!stream.push_streamed(StreamInput::End));
}

#[test]
fn a_failed_input_fails_the_join() {
    let left = build_table(("a1", &vec![1]), ("b1", &vec![4]), ("c1", &vec![7]));
    let schema = left.schema();
    let plan = SortMergeJoinExec::try_new(
        vec![KeyType::Int32; 3],
        vec![KeyType::Int32; 3],
        vec![(1, 1)],
        JoinType::Inner,
        vec![SortOptions::default()],
        false,
    )
    .unwrap();
    let out = output_schema(&schema, &schema, JoinType::Inner);
    let mut stream = plan.execute(0, 10, out, schema.clone(), schema).unwrap();
    assert!(matches!(stream.poll_next(), Ok(JoinPoll::Pending(Side::Streamed))));
    let error = arrow::error::ArrowError::ComputeError("broken input".to_string());
    assert!(stream.push_streamed(StreamInput::Failed(error)));
    match stream.poll_next() {
        Err(JoinError::Arrow(e)) => assert_eq!(e.to_string(), "Compute error: broken input"),
        _ => panic!("the error of the input should come out"),
    }
    assert!(matches!(stream.poll_next(), Ok(JoinPoll::Finished)));
}

#[test]
fn an_input_is_taken_only_when_asked_for() {
    let left = build_table(("a1", &vec![1]), ("b1", &vec![4]), ("c1", &vec![7]));
    let schema = left.schema();
    let plan = SortMergeJoinExec::try_new(
        vec![KeyType::Int32; 3],
        vec![KeyType::Int32; 3],
        vec![(1, 1)],
        JoinType::Inner,
        vec![SortOptions::default()],
        false,
    )
    .unwrap();
    let out = output_schema(&schema, &schema, JoinType::Inner);
    let mut stream = plan.execute(0, 10, out, schema.clone(), schema).unwrap();
    assert!(stream.push_streamed(StreamInput::End));
    assert!(!stream.push_streamed(StreamInput::End));
    assert!(matches!(stream.poll_next(), Ok(JoinPoll::Pending(Side::Buffered))));
    assert!(stream.push_buffered(StreamInput::End));
    assert!(matches!(stream.poll_next(), Ok(JoinPoll::Finished)));
    let m = stream.metrics();
    assert_eq!((m.input_batches, m.input_rows, m.output_batches, m.output_rows), (0, 0, 0, 0));
}

#[test]
fn metrics_count_batches_and_rows() {
    let left = build_table(
        ("a1", &vec![1, 2, 3]),
        ("b1", &vec![4, 5, 5]),
        ("c1", &vec![7, 8, 9]),
    );
    let right = build_table(
        ("a2", &vec![10, 20, 30]),
        ("b1", &vec![4, 5, 6]),
        ("c2", &vec![70, 80, 90]),
    );
    let schema = left.schema();
    let plan = SortMergeJoinExec::try_new(
        vec![KeyType::Int32; 3],
        vec![KeyType::Int32; 3],
        vec![(1, 1)],
        JoinType::Inner,
        vec![SortOptions::default()],
        false,
    )
    .unwrap();
    let out = output_schema(&schema, &right.schema(), JoinType::Inner);
    let mut stream = plan.execute(3, 2, out, schema, right.schema()).unwrap();
    let mut streamed = vec![left].into_iter();
    let mut buffered = vec![right].into_iter();
    let mut rows = 0;
    loop {
        match stream.poll_next().unwrap() {
            JoinPoll::Pending(Side::Streamed) => feed(&mut stream, Side::Streamed, &mut streamed, &[1]),
            JoinPoll::Pending(Side::Buffered) => feed(&mut stream, Side::Buffered, &mut buffered, &[1]),
            JoinPoll::Batch(batch) => rows += batch.0.num_rows(),
            JoinPoll::Finished => break,
        }
    }
    let m = stream.metrics();
    assert_eq!(rows, 3);
    assert_eq!(m.partition, 3);
    assert_eq!((m.input_batches, m.input_rows), (2, 6));
    assert_eq!((m.output_batches, m.output_rows), (2, 3));
}

/// The cells of one column of the batches, in order.
fn column_values(batches: &[RecordBatch], index: usize) -> Vec<Option<i32>> {
    let mut values = vec![];
    for batch in batches {
        let array = batch.column(index).as_any().downcast_ref::<Int32Array>().unwrap();
        for i in 0..array.len() {
            values.push(if array.is_null(i) { None } else { Some(array.value(i)) });
        }
    }
    values
}

fn many_keys() -> (RecordBatch, RecordBatch) {
    let left = build_table(
        ("a1", &vec![1, 2, 3, 4, 5, 6, 7]),
        ("b1", &vec![2, 4, 4, 5, 7, 7, 9]),
        ("c1", &vec![10, 20, 30, 40, 50, 60, 70]),
    );
    let right = build_table(
        ("a2", &vec![11, 12, 13, 14, 15, 16]),
        ("b2", &vec![1, 4, 4, 6, 7, 8]),
        ("c2", &vec![100, 200, 300, 400, 500, 600]),
    );
    (left, right)
}

#[test]
fn inner_join_rows_have_equal_keys() {
    let (left, right) = many_keys();
    let batches = join_collect(left, right, vec![(1, 1)], JoinType::Inner).unwrap();
    let left_keys = column_values(&batches, 1);
    let right_keys = column_values(&batches, 4);
    assert_eq!(left_keys, vec![Some(4), Some(4), Some(4), Some(4), Some(7), Some(7)]);
    assert_eq!(left_keys, right_keys);
    assert_eq!(
        column_values(&batches, 0),
        vec![Some(2), Some(2), Some(3), Some(3), Some(5), Some(6)]
    );
    assert_eq!(
        column_values(&batches, 3),
        vec![Some(12), Some(13), Some(12), Some(13), Some(15), Some(15)]
    );
}

#[test]
fn left_join_keeps_every_left_row() {
    let (left, right) = many_keys();
    let batches = join_collect(left, right, vec![(1, 1)], JoinType::Left).unwrap();
    // each left row once for each partner, and once beside nulls without one
    assert_eq!(
        column_values(&batches, 0),
        vec![Some(1), Some(2), Some(2), Some(3), Some(3), Some(4), Some(5), Some(6), Some(7)]
    );
    assert_eq!(
        column_values(&batches, 3),
        vec![None, Some(12), Some(13), Some(12), Some(13), None, Some(15), Some(15), None]
    );
    assert_eq!(
        column_values(&batches, 4),
        vec![None, Some(4), Some(4), Some(4), Some(4), None, Some(7), Some(7), None]
    );
}

#[test]
fn right_join_keeps_every_right_row_and_the_column_order() {
    let (left, right) = many_keys();
    let batches = join_collect(left, right, vec![(1, 1)], JoinType::Right).unwrap();
    assert_eq!(
        column_values(&batches, 3),
        vec![Some(11), Some(12), Some(12), Some(13), Some(13), Some(14), Some(15), Some(15), Some(16)]
    );
    assert_eq!(
        column_values(&batches, 0),
        vec![None, Some(2), Some(3), Some(2), Some(3), None, Some(5), Some(6), None]
    );
}

#[test]
fn full_join_count_is_inner_plus_both_unmatched() {
    let (left, right) = many_keys();
    let rows = |join_type| {
        join_collect(left.clone(), right.clone(), vec![(1, 1)], join_type)
            .unwrap()
            .iter()
            .map(|b| b.num_rows())
            .sum::<usize>()
    };
    let inner = rows(JoinType::Inner);
    let unmatched_left = rows(JoinType::Anti);
    assert_eq!(inner, 6);
    assert_eq!(unmatched_left, 3);
    // the right keys 1, 6 and 8 have no partner
    assert_eq!(rows(JoinType::Full), inner + unmatched_left + 3);
    assert_eq!(rows(JoinType::Left), inner + unmatched_left);
    assert_eq!(rows(JoinType::Right), inner + 3);
    assert_eq!(rows(JoinType::Semi), 4);
}

#[test]
fn full_join_rows_come_in_key_order() {
    let (left, right) = many_keys();
    let batches = join_collect(left, right, vec![(1, 1)], JoinType::Full).unwrap();
    let left_keys = column_values(&batches, 1);
    let right_keys = column_values(&batches, 4);
    let keys: Vec<i32> =
        left_keys.iter().zip(&right_keys).map(|(l, r)| l.or(*r).unwrap()).collect();
    assert_eq!(keys, vec![1, 2, 4, 4, 4, 4, 5, 6, 7, 7, 8, 9]);
    assert_eq!(
        left_keys,
        vec![
            None,
            Some(2),
            Some(4),
            Some(4),
            Some(4),
            Some(4),
            Some(5),
            None,
            Some(7),
            Some(7),
            None,
            Some(9)
        ]
    );
}

#[test]
fn semi_join_rows_are_left_rows_with_a_partner() {
    let (left, right) = many_keys();
    let batches = join_collect(left, right, vec![(1, 1)], JoinType::Semi).unwrap();
    assert_eq!(batches[0].num_columns(), 3);
    assert_eq!(column_values(&batches, 0), vec![Some(2), Some(3), Some(5), Some(6)]);
    assert_eq!(column_values(&batches, 1), vec![Some(4), Some(4), Some(7), Some(7)]);
    assert_eq!(column_values(&batches, 2), vec![Some(20), Some(30), Some(50), Some(60)]);
}

#[test]
fn anti_join_rows_are_left_rows_without_a_partner() {
    let (left, right) = many_keys();
    let batches = join_collect(left, right, vec![(1, 1)], JoinType::Anti).unwrap();
    assert_eq!(batches[0].num_columns(), 3);
    assert_eq!(column_values(&batches, 0), vec![Some(1), Some(4), Some(7)]);
    assert_eq!(column_values(&batches, 1), vec![Some(2), Some(5), Some(9)]);
}

#[test]
fn output_follows_the_order_of_the_streamed_input() {
    let (left, right) = many_keys();
    for join_type in [JoinType::Inner, JoinType::Left, JoinType::Semi, JoinType::Anti] {
        let batches = join_collect_batches(
            split(&left, 2),
            split(&right, 4),
            vec![(1, 1)],
            join_type,
            vec![SortOptions::default()],
            false,
            3,
        )
        .unwrap();
        for batch in &batches {
            let keys = column_values(std::slice::from_ref(batch), 1);
            assert!(keys.windows(2).all(|w| w[0] <= w[1]));
        }
        let keys = column_values(&batches, 1);
        assert!(keys.windows(2).all(|w| w[0] <= w[1]));
    }
}

#[test]
fn descending_inputs_join_in_descending_order() {
    let left = build_table(
        ("a1", &vec![1, 2, 3]),
        ("b1", &vec![9, 5, 5]),
        ("c1", &vec![7, 8, 9]),
    );
    let right = build_table(
        ("a2", &vec![10, 20, 30]),
        ("b1", &vec![9, 7, 5]),
        ("c2", &vec![70, 80, 90]),
    );
    let batches = join_collect_with_options(
        left,
        right,
        vec![(1, 1)],
        JoinType::Full,
        vec![SortOptions { descending: true, nulls_first: true }],
        false,
    )
    .unwrap();
    assert_eq!(column_values(&batches, 0), vec![Some(1), None, Some(2), Some(3)]);
    assert_eq!(column_values(&batches, 3), vec![Some(10), Some(20), Some(30), Some(30)]);
}

#[test]
fn buffered_null_keys_form_runs_of_one() {
    // with nulls that match, a streamed null key meets the first buffered null key only
    let left = build_table_i32_nullable(
        ("a1", &vec![Some(1)]),
        ("b1", &vec![None]),
        ("c1", &vec![Some(7)]),
    );
    let right = build_table_i32_nullable(
        ("a2", &vec![Some(10), Some(20)]),
        ("b1", &vec![None, None]),
        ("c2", &vec![Some(70), Some(80)]),
    );
    let batches = join_collect_with_options(
        left.clone(),
        right.clone(),
        vec![(1, 1)],
        JoinType::Inner,
        vec![SortOptions::default()],
        true,
    )
    .unwrap();
    assert_eq!(column_values(&batches, 3), vec![Some(10)]);
    // with nulls that do not match, none joins
    let batches = join_collect(left, right, vec![(1, 1)], JoinType::Inner).unwrap();
    assert!(batches.is_empty());
}

#[test]
fn a_run_may_span_batches() {
    let left = build_table(
        ("a1", &vec![1, 2]),
        ("b1", &vec![5, 6]),
        ("c1", &vec![7, 8]),
    );
    let right = build_table(
        ("a2", &vec![10, 20, 30, 40, 50]),
        ("b1", &vec![5, 5, 5, 5, 6]),
        ("c2", &vec![70, 80, 90, 100, 110]),
    );
    let mut parts = split(&right, 2);
    parts.insert(1, right.slice(0, 0));
    let batches = join_collect_batches(
        vec![left],
        parts,
        vec![(1, 1)],
        JoinType::Inner,
        vec![SortOptions::default()],
        false,
        8192,
    )
    .unwrap();
    assert_eq!(
        column_values(&batches, 3),
        vec![Some(10), Some(20), Some(30), Some(40), Some(50)]
    );
    assert_eq!(column_values(&batches, 0), vec![Some(1), Some(1), Some(1), Some(1), Some(2)]);
}

#[test]
fn an_unsupported_key_type_fails_the_join() {
    let left = build_table(("a1", &vec![1]), ("b1", &vec![4]), ("c1", &vec![7]));
    let schema = left.schema();
    let plan = SortMergeJoinExec::try_new(
        vec![KeyType::Other; 3],
        vec![KeyType::Other; 3],
        vec![(1, 1)],
        JoinType::Inner,
        vec![SortOptions::default()],
        false,
    )
    .unwrap();
    let out = output_schema(&schema, &schema, JoinType::Inner);
    let mut stream = plan.execute(0, 10, out, schema.clone(), schema).unwrap();
    let keys = || vec![KeyColumn { data_type: KeyType::Other, values: vec![Some(KeyValue::Integer(4))] }];
    assert!(matches!(stream.poll_next(), Ok(JoinPoll::Pending(Side::Streamed))));
    assert!(stream.push_streamed(StreamInput::Batch(InputBatch::try_new(Batch(left.clone()), keys()).unwrap())));
    assert!(matches!(stream.poll_next(), Ok(JoinPoll::Pending(Side::Buffered))));
    assert!(stream.push_buffered(StreamInput::Batch(InputBatch::try_new(Batch(left), keys()).unwrap())));
    assert!(matches!(stream.poll_next(), Ok(JoinPoll::Pending(Side::Buffered))));
    assert!(stream.push_buffered(StreamInput::End));
    assert!(matches!(stream.poll_next(), Err(JoinError::UnsupportedType)));
    assert!(matches!(stream.poll_next(), Ok(JoinPoll::Finished)));
}

#[test]
fn an_output_schema_that_does_not_fit_fails_the_join() {
    let left = build_table(("a1", &vec![1]), ("b1", &vec![4]), ("c1", &vec![7]));
    let right = build_table(("a2", &vec![10]), ("b1", &vec![4]), ("c2", &vec![70]));
    let schema = left.schema();
    let plan = SortMergeJoinExec::try_new(
        vec![KeyType::Int32; 3],
        vec![KeyType::Int32; 3],
        vec![(1, 1)],
        JoinType::Inner,
        vec![SortOptions::default()],
        false,
    )
    .unwrap();
    // the output has six columns, this schema three
    let mut stream = plan.execute(0, 10, schema.clone(), schema.clone(), right.schema()).unwrap();
    let mut streamed = vec![left].into_iter();
    let mut buffered = vec![right].into_iter();
    let result = loop {
        match stream.poll_next() {
            Ok(JoinPoll::Pending(Side::Streamed)) => feed(&mut stream, Side::Streamed, &mut streamed, &[1]),
            Ok(JoinPoll::Pending(Side::Buffered)) => feed(&mut stream, Side::Buffered, &mut buffered, &[1]),
            other => break other,
        }
    };
    assert!(matches!(result, Err(JoinError::Arrow(_))));
    assert!(stream.has_failed());
}

#[test]
fn a_batch_with_a_column_the_join_cannot_carry_is_refused() {
    let item = Arc::new(Field::new("item", DataType::Int32, true));
    let schema = Arc::new(Schema::new(vec![
        Field::new("k", DataType::Int32, false),
        Field::new("l", DataType::List(item.clone()), true),
    ]));
    let lists = ListArray::new_null(item, 2);
    let batch = RecordBatch::try_new(
        schema,
        vec![Arc::new(Int32Array::from(vec![1, 2])), Arc::new(lists)],
    )
    .unwrap();
    let keys = join_arrays(&batch, &[0]);
    assert!(InputBatch::try_new(Batch(batch), keys).is_none());
    let plain = build_table(("a", &vec![1, 2]), ("b", &vec![3, 4]), ("c", &vec![5, 6]));
    let keys = join_arrays(&plain, &[1]);
    assert!(InputBatch::try_new(Batch(plain), keys).is_some());
}

#[test]
fn strings_and_booleans_are_carried_through_the_join() {
    let side = |name: &str, keys: Vec<i32>, words: Vec<Option<&str>>, flags: Vec<Option<bool>>| {
        let schema = Arc::new(Schema::new(vec![
            Field::new("k", DataType::Int32, false),
            Field::new(name, DataType::Utf8, true),
            Field::new("f", DataType::Boolean, true),
        ]));
        RecordBatch::try_new(
            schema,
            vec![
                Arc::new(Int32Array::from(keys)),
                Arc::new(StringArray::from(words)),
                Arc::new(BooleanArray::from(flags)),
            ],
        )
        .unwrap()
    };
    let left = side(
        "w",
        vec![1, 2, 4],
        vec![Some("one"), None, Some("four")],
        vec![Some(true), Some(false), None],
    );
    let right = side(
        "v",
        vec![2, 2, 3],
        vec![Some("zwei"), Some("deux"), Some("drei")],
        vec![None, Some(true), Some(false)],
    );
    let batches = join_collect_batches(
        vec![left],
        vec![right],
        vec![(0, 0)],
        JoinType::Full,
        vec![SortOptions::default()],
        false,
        2,
    )
    .unwrap();
    let sizes: Vec<usize> = batches.iter().map(|b| b.num_rows()).collect();
    assert_eq!(sizes, vec![2, 2, 1]);
    let all = arrow::compute::concat_batches(&batches[0].schema(), &batches).unwrap();
    let text = |c: usize| -> Vec<Option<String>> {
        let a = all.column(c).as_any().downcast_ref::<StringArray>().unwrap();
        (0..a.len()).map(|i| if a.is_null(i) { None } else { Some(a.value(i).to_string()) }).collect()
    };
    let flag = |c: usize| -> Vec<Option<bool>> {
        let a = all.column(c).as_any().downcast_ref::<BooleanArray>().unwrap();
        (0..a.len()).map(|i| if a.is_null(i) { None } else { Some(a.value(i)) }).collect()
    };
    let word = |w: &str| Some(w.to_string());
    assert_eq!(text(1), vec![word("one"), None, None, None, word("four")]);
    assert_eq!(flag(2), vec![Some(true), Some(false), Some(false), None, None]);
    assert_eq!(text(4), vec![None, word("zwei"), word("deux"), word("drei"), None]);
    assert_eq!(flag(5), vec![None, None, Some(true), Some(false), None]);
}

/// Two inputs sorted with nulls first whose keys repeat a null.
fn repeated_null_keys() -> (RecordBatch, RecordBatch) {
    let left = build_table_i32_nullable(
        ("a1", &vec![Some(1), Some(2), Some(3)]),
        ("b1", &vec![None, None, Some(5)]),
        ("c1", &vec![Some(7), Some(8), Some(9)]),
    );
    let right = build_table_i32_nullable(
        ("a2", &vec![Some(10), Some(20), Some(30), Some(40)]),
        ("b1", &vec![None, None, Some(5), Some(5)]),
        ("c2", &vec![Some(70), Some(80), Some(90), Some(100)]),
    );
    (left, right)
}

#[test]
fn with_nulls_that_match_a_row_is_joined_with_the_first_null_run() {
    let (left, right) = repeated_null_keys();
    let joined = |join_type: JoinType, batch_size: usize| {
        join_collect_batches(
            vec![left.clone()],
            vec![right.clone()],
            vec![(1, 1)],
            join_type,
            vec![SortOptions::default()],
            true,
            batch_size,
        )
        .unwrap()
    };
    // each left null meets the first right null; the second right null has no partner
    let full = joined(JoinType::Full, 100);
    assert_eq!(column_values(&full, 0), vec![Some(1), Some(2), None, Some(3), Some(3)]);
    assert_eq!(column_values(&full, 3), vec![Some(10), Some(10), Some(20), Some(30), Some(40)]);
    let inner = joined(JoinType::Inner, 100);
    assert_eq!(column_values(&inner, 0), vec![Some(1), Some(2), Some(3), Some(3)]);
    assert_eq!(column_values(&inner, 3), vec![Some(10), Some(10), Some(30), Some(40)]);
    // every left row has a right row with an equal key: each comes out once, in order
    let semi = joined(JoinType::Semi, 100);
    assert_eq!(column_values(&semi, 0), vec![Some(1), Some(2), Some(3)]);
    assert!(joined(JoinType::Anti, 100).is_empty());
    // the size of the batches changes nothing
    for join_type in [JoinType::Inner, JoinType::Left, JoinType::Full, JoinType::Semi] {
        let whole = joined(join_type, 100);
        for batch_size in 1..4 {
            let parts = joined(join_type, batch_size);
            assert!(parts.iter().all(|b| b.num_rows() <= batch_size));
            for c in 0..whole[0].num_columns() {
                assert_eq!(column_values(&parts, c), column_values(&whole, c));
            }
        }
    }
}

#[test]
fn an_input_without_columns_is_joined_by_its_rows() {
    // without join columns every row meets every row
    let rows = RecordBatchOptions::new().with_row_count(Some(2));
    let left =
        RecordBatch::try_new_with_options(Arc::new(Schema::empty()), vec![], &rows).unwrap();
    let right = RecordBatch::try_new(
        Arc::new(Schema::new(vec![Field::new("a", DataType::Int32, false)])),
        vec![Arc::new(Int32Array::from(vec![1, 2, 3]))],
    )
    .unwrap();
    let batches = join_collect_batches(
        vec![left.clone()],
        vec![right.clone()],
        vec![],
        JoinType::Inner,
        vec![],
        false,
        4,
    )
    .unwrap();
    let sizes: Vec<usize> = batches.iter().map(|b| b.num_rows()).collect();
    assert_eq!(sizes, vec![4, 2]);
    assert_eq!(
        column_values(&batches, 0),
        vec![Some(1), Some(2), Some(3), Some(1), Some(2), Some(3)]
    );
    // a semi join of the rows without columns puts out rows without columns
    let batches =
        join_collect_batches(vec![left], vec![right], vec![], JoinType::Semi, vec![], false, 4)
            .unwrap();
    let sizes: Vec<usize> = batches.iter().map(|b| b.num_rows()).collect();
    assert_eq!(sizes, vec![2]);
    assert_eq!(batches[0].num_columns(), 0);
}
