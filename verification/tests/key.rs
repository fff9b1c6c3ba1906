use sort_merge_join::key::{
    compare_bytes, compare_cells, compare_join_arrays, compare_values, is_join_arrays_equal,
    KeyColumn, KeyError, KeyOrder, KeyType, KeyValue, SortOptions, TimeUnit,
};

fn int_column(data_type: KeyType, values: Vec<Option<i128>>) -> KeyColumn {
    KeyColumn { data_type, values: values.into_iter().map(|v| v.map(KeyValue::Integer)).collect() }
}

fn text_column(values: Vec<Option<&str>>) -> KeyColumn {
    KeyColumn {
        data_type: KeyType::Utf8,
        values: values.into_iter().map(|v| v.map(|s| KeyValue::Text(s.as_bytes().to_vec()))).collect(),
    }
}

const ASC: SortOptions = SortOptions { descending: false, nulls_first: true };
const DESC_NULLS_LAST: SortOptions = SortOptions { descending: true, nulls_first: false };

#[test]
fn default_sort_options_are_ascending_nulls_first() {
    assert_eq!(SortOptions::default(), ASC);
}

#[test]
fn order_reverses() {
    assert_eq!(KeyOrder::Less.reverse(), KeyOrder::Greater);
    assert_eq!(KeyOrder::Greater.reverse(), KeyOrder::Less);
    assert_eq!(KeyOrder::Equal.reverse(), KeyOrder::Equal);
    assert!(KeyOrder::Equal.is_eq());
    assert!(!KeyOrder::Less.is_eq());
}

#[test]
fn bytes_compare_lexicographically() {
    let b = |s: &str| s.as_bytes().to_vec();
    assert_eq!(compare_bytes(&b("abc"), &b("abd")), KeyOrder::Less);
    assert_eq!(compare_bytes(&b("abd"), &b("abc")), KeyOrder::Greater);
    assert_eq!(compare_bytes(&b("ab"), &b("abc")), KeyOrder::Less);
    assert_eq!(compare_bytes(&b("abc"), &b("ab")), KeyOrder::Greater);
    assert_eq!(compare_bytes(&b("abc"), &b("abc")), KeyOrder::Equal);
    assert_eq!(compare_bytes(&b(""), &b("")), KeyOrder::Equal);
    assert_eq!(compare_bytes(&b(""), &b("a")), KeyOrder::Less);
}

#[test]
fn values_compare_within_their_kind() {
    assert_eq!(compare_values(&KeyValue::Boolean(false), &KeyValue::Boolean(true)), KeyOrder::Less);
    assert_eq!(compare_values(&KeyValue::Boolean(true), &KeyValue::Boolean(true)), KeyOrder::Equal);
    assert_eq!(compare_values(&KeyValue::Boolean(true), &KeyValue::Boolean(false)), KeyOrder::Greater);
    assert_eq!(compare_values(&KeyValue::Integer(-3), &KeyValue::Integer(2)), KeyOrder::Less);
    assert_eq!(compare_values(&KeyValue::Integer(i128::MAX), &KeyValue::Integer(i128::MIN)), KeyOrder::Greater);
    assert_eq!(
        compare_values(&KeyValue::Text(b"a".to_vec()), &KeyValue::Text(b"b".to_vec())),
        KeyOrder::Less
    );
}

#[test]
fn values_of_different_kinds_compare_by_kind() {
    let boolean = KeyValue::Boolean(true);
    let integer = KeyValue::Integer(0);
    let text = KeyValue::Text(vec![]);
    assert_eq!(compare_values(&boolean, &integer), KeyOrder::Less);
    assert_eq!(compare_values(&integer, &text), KeyOrder::Less);
    assert_eq!(compare_values(&text, &boolean), KeyOrder::Greater);
    assert_eq!(compare_values(&integer, &boolean), KeyOrder::Greater);
}

#[test]
fn cells_follow_the_null_matrix() {
    let one = Some(KeyValue::Integer(1));
    let two = Some(KeyValue::Integer(2));
    // both valid
    assert_eq!(compare_cells(&one, &two, ASC, false), KeyOrder::Less);
    assert_eq!(compare_cells(&one, &two, DESC_NULLS_LAST, false), KeyOrder::Greater);
    // left null only
    assert_eq!(compare_cells(&None, &two, ASC, false), KeyOrder::Less);
    assert_eq!(compare_cells(&None, &two, DESC_NULLS_LAST, false), KeyOrder::Greater);
    // right null only
    assert_eq!(compare_cells(&one, &None, ASC, false), KeyOrder::Greater);
    assert_eq!(compare_cells(&one, &None, DESC_NULLS_LAST, false), KeyOrder::Less);
    // both null
    assert_eq!(compare_cells(&None, &None, ASC, true), KeyOrder::Equal);
    assert_eq!(compare_cells(&None, &None, ASC, false), KeyOrder::Less);
    assert_eq!(compare_cells(&None, &None, DESC_NULLS_LAST, false), KeyOrder::Less);
}

#[test]
fn keys_compare_column_by_column() {
    let left = vec![
        int_column(KeyType::Int32, vec![Some(1), Some(1), Some(2)]),
        text_column(vec![Some("a"), Some("b"), None]),
    ];
    let right = vec![
        int_column(KeyType::Int32, vec![Some(1), Some(2)]),
        text_column(vec![Some("b"), Some("a")]),
    ];
    let options = vec![ASC, ASC];
    assert_eq!(compare_join_arrays(&left, 0, &right, 0, &options, false), Ok(KeyOrder::Less));
    assert_eq!(compare_join_arrays(&left, 1, &right, 0, &options, false), Ok(KeyOrder::Equal));
    assert_eq!(compare_join_arrays(&left, 2, &right, 0, &options, false), Ok(KeyOrder::Greater));
    assert_eq!(compare_join_arrays(&left, 2, &right, 1, &options, false), Ok(KeyOrder::Less));
    let descending = vec![DESC_NULLS_LAST, ASC];
    assert_eq!(compare_join_arrays(&left, 0, &right, 1, &descending, false), Ok(KeyOrder::Greater));
}

#[test]
fn keys_compare_over_the_columns_that_all_have() {
    let left = vec![
        int_column(KeyType::Int32, vec![Some(1)]),
        int_column(KeyType::Int32, vec![Some(5)]),
    ];
    let right = vec![
        int_column(KeyType::Int32, vec![Some(1)]),
        int_column(KeyType::Int32, vec![Some(9)]),
    ];
    assert_eq!(compare_join_arrays(&left, 0, &right, 0, &vec![ASC], false), Ok(KeyOrder::Equal));
    assert_eq!(compare_join_arrays(&left, 0, &right, 0, &vec![ASC, ASC], false), Ok(KeyOrder::Less));
    assert_eq!(compare_join_arrays(&left, 0, &right, 0, &vec![], false), Ok(KeyOrder::Equal));
}

#[test]
fn null_typed_columns_are_passed_over() {
    let left = vec![
        KeyColumn { data_type: KeyType::Null, values: vec![None] },
        int_column(KeyType::Int64, vec![Some(3)]),
    ];
    let right = vec![
        KeyColumn { data_type: KeyType::Null, values: vec![None] },
        int_column(KeyType::Int64, vec![Some(4)]),
    ];
    assert_eq!(compare_join_arrays(&left, 0, &right, 0, &vec![ASC, ASC], false), Ok(KeyOrder::Less));
    assert_eq!(is_join_arrays_equal(&left, 0, &right, 0), Ok(false));
    assert_eq!(is_join_arrays_equal(&left, 0, &left, 0), Ok(true));
}

#[test]
fn unsupported_types_are_errors_where_they_are_reached() {
    let left = vec![
        int_column(KeyType::Int32, vec![Some(1), Some(2)]),
        int_column(KeyType::Other, vec![Some(1), Some(1)]),
    ];
    let right = vec![
        int_column(KeyType::Int32, vec![Some(1)]),
        int_column(KeyType::Other, vec![Some(1)]),
    ];
    let options = vec![ASC, ASC];
    assert_eq!(compare_join_arrays(&left, 0, &right, 0, &options, false), Err(KeyError::UnsupportedType));
    assert_eq!(compare_join_arrays(&left, 1, &right, 0, &options, false), Ok(KeyOrder::Greater));
    assert_eq!(is_join_arrays_equal(&left, 0, &right, 0), Err(KeyError::UnsupportedType));
    assert_eq!(is_join_arrays_equal(&left, 1, &right, 0), Ok(false));
    let zoned = vec![int_column(KeyType::Timestamp(TimeUnit::Second, true), vec![Some(1)])];
    assert_eq!(compare_join_arrays(&zoned, 0, &zoned, 0, &vec![ASC], false), Err(KeyError::UnsupportedType));
    let plain = vec![int_column(KeyType::Timestamp(TimeUnit::Nanosecond, false), vec![Some(1)])];
    assert_eq!(compare_join_arrays(&plain, 0, &plain, 0, &vec![ASC], false), Ok(KeyOrder::Equal));
}

#[test]
fn every_type_but_zoned_timestamps_and_unknown_ones_is_supported() {
    let supported = [
        KeyType::Null,
        KeyType::Boolean,
        KeyType::Int8,
        KeyType::Int16,
        KeyType::Int32,
        KeyType::Int64,
        KeyType::UInt8,
        KeyType::UInt16,
        KeyType::UInt32,
        KeyType::UInt64,
        KeyType::Float32,
        KeyType::Float64,
        KeyType::Utf8,
        KeyType::LargeUtf8,
        KeyType::Decimal,
        KeyType::Timestamp(TimeUnit::Second, false),
        KeyType::Timestamp(TimeUnit::Millisecond, false),
        KeyType::Timestamp(TimeUnit::Microsecond, false),
        KeyType::Timestamp(TimeUnit::Nanosecond, false),
    ];
    for t in supported {
        assert!(t.is_supported());
        assert!(t.same_as(&t));
    }
    assert!(!KeyType::Other.is_supported());
    assert!(!KeyType::Timestamp(TimeUnit::Second, true).is_supported());
    assert!(!KeyType::Int8.same_as(&KeyType::Int16));
    assert!(!KeyType::Timestamp(TimeUnit::Second, false).same_as(&KeyType::Timestamp(TimeUnit::Second, true)));
    assert!(!KeyType::Timestamp(TimeUnit::Second, false)
        .same_as(&KeyType::Timestamp(TimeUnit::Millisecond, false)));
}

#[test]
fn run_equality_is_stricter_than_join_equality() {
    let keys = vec![int_column(KeyType::Int32, vec![None, None, Some(1), Some(1), Some(2)])];
    // two nulls are Equal for the join where nulls match, and never the same for a run
    assert_eq!(compare_join_arrays(&keys, 0, &keys, 1, &vec![ASC], true), Ok(KeyOrder::Equal));
    assert_eq!(is_join_arrays_equal(&keys, 0, &keys, 1), Ok(false));
    assert_eq!(is_join_arrays_equal(&keys, 0, &keys, 0), Ok(false));
    assert_eq!(is_join_arrays_equal(&keys, 0, &keys, 2), Ok(false));
    assert_eq!(is_join_arrays_equal(&keys, 2, &keys, 0), Ok(false));
    assert_eq!(is_join_arrays_equal(&keys, 2, &keys, 3), Ok(true));
    assert_eq!(is_join_arrays_equal(&keys, 3, &keys, 4), Ok(false));
}
