//! Join keys and their comparison.
//!
//! The key columns of a batch are held as plain values, so that the order the
//! join relies on is a mathematical fact rather than a promise: a cell is
//! either null or one of three kinds of value, and values of one kind order
//! as booleans, integers or byte strings do.

use vstd::prelude::*;

verus! {

/// The result of comparing two keys.
#[derive(Clone, Copy, Debug, PartialEq, Eq, Structural)]
pub enum KeyOrder {
    Less,
    Equal,
    Greater,
}

impl KeyOrder {
    /// The opposite order: what comparing the other way round gives.
    pub open spec fn reversed(self) -> KeyOrder {
        match self {
            KeyOrder::Less => KeyOrder::Greater,
            KeyOrder::Equal => KeyOrder::Equal,
            KeyOrder::Greater => KeyOrder::Less,
        }
    }

    /// Swaps `Less` and `Greater`.
    pub fn reverse(self) -> (r: KeyOrder)
        ensures
            r == self.reversed(),
    {
        match self {
            KeyOrder::Less => KeyOrder::Greater,
            KeyOrder::Equal => KeyOrder::Equal,
            KeyOrder::Greater => KeyOrder::Less,
        }
    }

    /// Whether this is `Equal`.
    pub fn is_eq(self) -> (r: bool)
        ensures
            r == (self == KeyOrder::Equal),
    {
        match self {
            KeyOrder::Equal => true,
            _ => false,
        }
    }
}

/// How one key column is sorted in both inputs.
#[derive(Clone, Copy, Debug, PartialEq, Eq, Structural)]
pub struct SortOptions {
    /// Larger values come first.
    pub descending: bool,
    /// Nulls come before every value (after, when false).
    pub nulls_first: bool,
}

impl Default for SortOptions {
    /// Ascending, nulls first.
    fn default() -> (r: SortOptions)
        ensures
            r == (SortOptions { descending: false, nulls_first: true }),
    {
        SortOptions { descending: false, nulls_first: true }
    }
}

/// The unit of a timestamp column.
#[derive(Clone, Copy, Debug, PartialEq, Eq, Structural)]
pub enum TimeUnit {
    Second,
    Millisecond,
    Microsecond,
    Nanosecond,
}

/// The element type of a column, as far as the join tells types apart.
#[derive(Clone, Copy, Debug, PartialEq, Eq, Structural)]
pub enum KeyType {
    Null,
    Boolean,
    Int8,
    Int16,
    Int32,
    Int64,
    UInt8,
    UInt16,
    UInt32,
    UInt64,
    Float32,
    Float64,
    Utf8,
    LargeUtf8,
    Decimal,
    /// A timestamp of the given unit; the flag says whether it carries a time zone.
    Timestamp(TimeUnit, bool),
    /// Any other element type.
    Other,
}

impl KeyType {
    /// The element types that the comparator accepts: all but timestamps
    /// with a time zone and the types it does not know.
    pub open spec fn supported(self) -> bool {
        match self {
            KeyType::Timestamp(_, with_zone) => !with_zone,
            KeyType::Other => false,
            _ => true,
        }
    }

    /// Whether the comparator accepts this element type.
    pub fn is_supported(&self) -> (r: bool)
        ensures
            r == self.supported(),
    {
        match self {
            KeyType::Timestamp(_, with_zone) => !*with_zone,
            KeyType::Other => false,
            _ => true,
        }
    }

    /// Whether two element types are the same.
    pub fn same_as(&self, other: &KeyType) -> (r: bool)
        ensures
            r == (*self == *other),
    {
        match (self, other) {
            (KeyType::Null, KeyType::Null) => true,
            (KeyType::Boolean, KeyType::Boolean) => true,
            (KeyType::Int8, KeyType::Int8) => true,
            (KeyType::Int16, KeyType::Int16) => true,
            (KeyType::Int32, KeyType::Int32) => true,
            (KeyType::Int64, KeyType::Int64) => true,
            (KeyType::UInt8, KeyType::UInt8) => true,
            (KeyType::UInt16, KeyType::UInt16) => true,
            (KeyType::UInt32, KeyType::UInt32) => true,
            (KeyType::UInt64, KeyType::UInt64) => true,
            (KeyType::Float32, KeyType::Float32) => true,
            (KeyType::Float64, KeyType::Float64) => true,
            (KeyType::Utf8, KeyType::Utf8) => true,
            (KeyType::LargeUtf8, KeyType::LargeUtf8) => true,
            (KeyType::Decimal, KeyType::Decimal) => true,
            (KeyType::Timestamp(u1, z1), KeyType::Timestamp(u2, z2)) => {
                let same_unit = match (u1, u2) {
                    (TimeUnit::Second, TimeUnit::Second) => true,
                    (TimeUnit::Millisecond, TimeUnit::Millisecond) => true,
                    (TimeUnit::Microsecond, TimeUnit::Microsecond) => true,
                    (TimeUnit::Nanosecond, TimeUnit::Nanosecond) => true,
                    _ => false,
                };
                same_unit && *z1 == *z2
            },
            (KeyType::Other, KeyType::Other) => true,
            _ => false,
        }
    }
}

/// A key value as mathematics sees it.
pub enum Scalar {
    Boolean(bool),
    Integer(int),
    Text(Seq<u8>),
}

/// One cell of a key column: `None` for a null.
pub type KeyCell = Option<Scalar>;

/// The key of one row: a cell per key column.
pub type KeyRow = Seq<KeyCell>;

/// A non-null key value.
///
/// Booleans are held as they are. Integers of every width, decimals (by their
/// unscaled number) and timestamps are held as `Integer`. Strings are held by
/// their UTF-8 bytes. A floating-point key is handed over as an integer that
/// orders as the number does.
#[derive(Clone, Debug)]
pub enum KeyValue {
    Boolean(bool),
    Integer(i128),
    Text(Vec<u8>),
}

impl View for KeyValue {
    type V = Scalar;

    open spec fn view(&self) -> Scalar {
        match self {
            KeyValue::Boolean(b) => Scalar::Boolean(*b),
            KeyValue::Integer(i) => Scalar::Integer(*i as int),
            KeyValue::Text(t) => Scalar::Text(t@),
        }
    }
}

/// One key column of a batch: its element type and a cell per row.
#[derive(Clone, Debug)]
pub struct KeyColumn {
    pub data_type: KeyType,
    pub values: Vec<Option<KeyValue>>,
}

impl KeyColumn {
    /// The cell at `row`.
    pub open spec fn cell(&self, row: int) -> KeyCell {
        match self.values@[row] {
            Some(v) => Some(v@),
            None => None,
        }
    }

    /// The number of rows.
    pub fn len(&self) -> (n: usize)
        ensures
            n == self.values@.len(),
    {
        self.values.len()
    }
}

/// The element types of a list of key columns.
pub open spec fn key_types(arrays: Seq<KeyColumn>) -> Seq<KeyType> {
    Seq::new(arrays.len(), |c: int| arrays[c].data_type)
}

/// The key of row `row`: its cell in each key column.
pub open spec fn key_row(arrays: Seq<KeyColumn>, row: int) -> KeyRow {
    Seq::new(arrays.len(), |c: int| arrays[c].cell(row))
}

/// Whether every key column has at least `rows` rows.
pub open spec fn columns_cover(arrays: Seq<KeyColumn>, rows: int) -> bool {
    forall|c: int| 0 <= c < arrays.len() ==> rows <= (#[trigger] arrays[c]).values@.len()
}

/// The order of two integers.
pub open spec fn int_order(a: int, b: int) -> KeyOrder {
    if a < b {
        KeyOrder::Less
    } else if a == b {
        KeyOrder::Equal
    } else {
        KeyOrder::Greater
    }
}

/// The order of two byte strings from position `from` on, given that they
/// agree before it: the first position at which they differ decides, and a
/// string that ends first is the smaller.
pub open spec fn bytes_order_from(a: Seq<u8>, b: Seq<u8>, from: int) -> KeyOrder
    decreases a.len() - from,
{
    if from >= a.len() {
        if from >= b.len() {
            KeyOrder::Equal
        } else {
            KeyOrder::Less
        }
    } else if from >= b.len() {
        KeyOrder::Greater
    } else if a[from] != b[from] {
        int_order(a[from] as int, b[from] as int)
    } else {
        bytes_order_from(a, b, from + 1)
    }
}

/// The lexicographic order of two byte strings.
pub open spec fn bytes_order(a: Seq<u8>, b: Seq<u8>) -> KeyOrder {
    bytes_order_from(a, b, 0)
}

/// The rank of a kind of value: booleans before integers before strings.
pub open spec fn kind_rank(v: Scalar) -> int {
    match v {
        Scalar::Boolean(_) => 0,
        Scalar::Integer(_) => 1,
        Scalar::Text(_) => 2,
    }
}

/// The order of two values. Within a kind: `false` before `true`, integers by
/// size, byte strings lexicographically. Values of different kinds, which no
/// well-typed pair of columns holds, order by kind.
pub open spec fn value_order(a: Scalar, b: Scalar) -> KeyOrder {
    match (a, b) {
        (Scalar::Boolean(x), Scalar::Boolean(y)) => int_order(
            if x { 1int } else { 0int },
            if y { 1int } else { 0int },
        ),
        (Scalar::Integer(x), Scalar::Integer(y)) => int_order(x, y),
        (Scalar::Text(x), Scalar::Text(y)) => bytes_order(x, y),
        _ => int_order(kind_rank(a), kind_rank(b)),
    }
}

/// The order of two cells of one key column under its sort options: values
/// compare by `value_order`, reversed when descending; a null stands before
/// or after every value as `nulls_first` says; two nulls are `Equal` when
/// nulls match each other and `Less` when they do not.
pub open spec fn cell_order(
    left: KeyCell,
    right: KeyCell,
    options: SortOptions,
    null_equals_null: bool,
) -> KeyOrder {
    match (left, right) {
        (Some(l), Some(r)) => if options.descending {
            value_order(l, r).reversed()
        } else {
            value_order(l, r)
        },
        (None, Some(_)) => if options.nulls_first {
            KeyOrder::Less
        } else {
            KeyOrder::Greater
        },
        (Some(_), None) => if options.nulls_first {
            KeyOrder::Greater
        } else {
            KeyOrder::Less
        },
        (None, None) => if null_equals_null {
            KeyOrder::Equal
        } else {
            KeyOrder::Less
        },
    }
}

/// The number of key columns that a comparison looks at: as many as both
/// rows and the sort options have.
pub open spec fn compared_columns(left: KeyRow, right: KeyRow, options: Seq<SortOptions>) -> int {
    let n = if left.len() <= right.len() {
        left.len()
    } else {
        right.len()
    };
    if n <= options.len() {
        n as int
    } else {
        options.len() as int
    }
}

/// The order of two keys from column `from` on, or `None` where a column of
/// an unsupported type is reached before the order is decided. Columns are
/// taken in turn: one of type `Null` is passed over, and the first whose
/// cells are not `Equal` decides.
pub open spec fn key_order_from(
    types: Seq<KeyType>,
    left: KeyRow,
    right: KeyRow,
    options: Seq<SortOptions>,
    null_equals_null: bool,
    from: int,
) -> Option<KeyOrder>
    decreases compared_columns(left, right, options) - from,
{
    if from < 0 || from >= compared_columns(left, right, options) {
        Some(KeyOrder::Equal)
    } else if !types[from].supported() {
        None
    } else if types[from] == KeyType::Null {
        key_order_from(types, left, right, options, null_equals_null, from + 1)
    } else {
        let o = cell_order(left[from], right[from], options[from], null_equals_null);
        if o != KeyOrder::Equal {
            Some(o)
        } else {
            key_order_from(types, left, right, options, null_equals_null, from + 1)
        }
    }
}

/// The order of two keys; `types` are the element types of the left key's columns.
pub open spec fn key_order(
    types: Seq<KeyType>,
    left: KeyRow,
    right: KeyRow,
    options: Seq<SortOptions>,
    null_equals_null: bool,
) -> Option<KeyOrder> {
    key_order_from(types, left, right, options, null_equals_null, 0)
}

/// Whether two cells hold the same value. A null equals nothing, not even
/// another null.
pub open spec fn cell_same(left: KeyCell, right: KeyCell) -> bool {
    match (left, right) {
        (Some(l), Some(r)) => value_order(l, r) == KeyOrder::Equal,
        _ => false,
    }
}

/// Whether two keys hold the same values from column `from` on, or `None`
/// where a column of an unsupported type is reached before a difference.
/// Columns of type `Null` are passed over.
pub open spec fn key_same_from(types: Seq<KeyType>, left: KeyRow, right: KeyRow, from: int) -> Option<
    bool,
>
    decreases left.len() - from,
{
    if from < 0 || from >= left.len() || from >= right.len() {
        Some(true)
    } else if !types[from].supported() {
        None
    } else if types[from] == KeyType::Null || cell_same(left[from], right[from]) {
        key_same_from(types, left, right, from + 1)
    } else {
        Some(false)
    }
}

/// Whether two keys belong to one run: every column holds the same non-null
/// value in both.
pub open spec fn key_same(types: Seq<KeyType>, left: KeyRow, right: KeyRow) -> Option<bool> {
    key_same_from(types, left, right, 0)
}

/// Compares two byte strings lexicographically.
pub fn compare_bytes(a: &Vec<u8>, b: &Vec<u8>) -> (r: KeyOrder)
    ensures
        r == bytes_order(a@, b@),
{
    let mut i: usize = 0;
    while i < a.len() && i < b.len()
        invariant
            0 <= i <= a@.len(),
            i <= b@.len(),
            bytes_order(a@, b@) == bytes_order_from(a@, b@, i as int),
        decreases a@.len() - i,
    {
        if a[i] < b[i] {
            return KeyOrder::Less;
        }
        if a[i] > b[i] {
            return KeyOrder::Greater;
        }
        i += 1;
    }
    if i < b.len() {
        KeyOrder::Less
    } else if i < a.len() {
        KeyOrder::Greater
    } else {
        KeyOrder::Equal
    }
}

/// Compares two key values.
pub fn compare_values(a: &KeyValue, b: &KeyValue) -> (r: KeyOrder)
    ensures
        r == value_order(a@, b@),
{
    match (a, b) {
        (KeyValue::Boolean(x), KeyValue::Boolean(y)) => {
            if *x == *y {
                KeyOrder::Equal
            } else if *y {
                KeyOrder::Less
            } else {
                KeyOrder::Greater
            }
        },
        (KeyValue::Integer(x), KeyValue::Integer(y)) => {
            if *x < *y {
                KeyOrder::Less
            } else if *x == *y {
                KeyOrder::Equal
            } else {
                KeyOrder::Greater
            }
        },
        (KeyValue::Text(x), KeyValue::Text(y)) => compare_bytes(x, y),
        (KeyValue::Boolean(_), _) => KeyOrder::Less,
        (KeyValue::Integer(_), KeyValue::Boolean(_)) => KeyOrder::Greater,
        (KeyValue::Integer(_), KeyValue::Text(_)) => KeyOrder::Less,
        (KeyValue::Text(_), _) => KeyOrder::Greater,
    }
}

/// Compares two cells of one key column under its sort options.
pub fn compare_cells(
    left: &Option<KeyValue>,
    right: &Option<KeyValue>,
    options: SortOptions,
    null_equals_null: bool,
) -> (r: KeyOrder)
    ensures
        r == cell_order(
            match *left {
                Some(v) => Some(v@),
                None => None,
            },
            match *right {
                Some(v) => Some(v@),
                None => None,
            },
            options,
            null_equals_null,
        ),
{
    match (left, right) {
        (Some(l), Some(r)) => {
            let o = compare_values(l, r);
            if options.descending {
                o.reverse()
            } else {
                o
            }
        },
        (None, Some(_)) => {
            if options.nulls_first {
                KeyOrder::Less
            } else {
                KeyOrder::Greater
            }
        },
        (Some(_), None) => {
            if options.nulls_first {
                KeyOrder::Greater
            } else {
                KeyOrder::Less
            }
        },
        (None, None) => {
            if null_equals_null {
                KeyOrder::Equal
            } else {
                KeyOrder::Less
            }
        },
    }
}

/// What a comparison of keys can fail with.
#[derive(Clone, Copy, Debug, PartialEq, Eq, Structural)]
pub enum KeyError {
    /// A key column has an element type that the comparator does not accept.
    UnsupportedType,
}

/// Compares row `left` of `left_arrays` with row `right` of `right_arrays`,
/// key column by key column, dispatching on the left column's element type.
pub fn compare_join_arrays(
    left_arrays: &Vec<KeyColumn>,
    left: usize,
    right_arrays: &Vec<KeyColumn>,
    right: usize,
    sort_options: &Vec<SortOptions>,
    null_equals_null: bool,
) -> (r: Result<KeyOrder, KeyError>)
    requires
        columns_cover(left_arrays@, left + 1),
        columns_cover(right_arrays@, right + 1),
    ensures
        match key_order(
            key_types(left_arrays@),
            key_row(left_arrays@, left as int),
            key_row(right_arrays@, right as int),
            sort_options@,
            null_equals_null,
        ) {
            Some(o) => r == Ok::<KeyOrder, KeyError>(o),
            None => r == Err::<KeyOrder, KeyError>(KeyError::UnsupportedType),
        },
{
    let ghost types = key_types(left_arrays@);
    let ghost lrow = key_row(left_arrays@, left as int);
    let ghost rrow = key_row(right_arrays@, right as int);
    let mut n: usize = left_arrays.len();
    if right_arrays.len() < n {
        n = right_arrays.len();
    }
    if sort_options.len() < n {
        n = sort_options.len();
    }
    let mut c: usize = 0;
    while c < n
        invariant
            0 <= c <= n,
            n == compared_columns(lrow, rrow, sort_options@),
            types == key_types(left_arrays@),
            lrow == key_row(left_arrays@, left as int),
            rrow == key_row(right_arrays@, right as int),
            columns_cover(left_arrays@, left + 1),
            columns_cover(right_arrays@, right + 1),
            key_order(types, lrow, rrow, sort_options@, null_equals_null) == key_order_from(
                types,
                lrow,
                rrow,
                sort_options@,
                null_equals_null,
                c as int,
            ),
        decreases n - c,
    {
        let left_array = &left_arrays[c];
        let right_array = &right_arrays[c];
        if !left_array.data_type.is_supported() {
            return Err(KeyError::UnsupportedType);
        }
        match left_array.data_type {
            KeyType::Null => {},
            _ => {
                let res = compare_cells(
                    &left_array.values[left],
                    &right_array.values[right],
                    sort_options[c],
                    null_equals_null,
                );
                if !res.is_eq() {
                    return Ok(res);
                }
            },
        }
        c += 1;
    }
    Ok(KeyOrder::Equal)
}

/// A cheaper test than `compare_join_arrays`, used to find where a run of
/// equal keys ends: whether row `left` of `left_arrays` and row `right` of
/// `right_arrays` hold the same non-null value in every key column.
pub fn is_join_arrays_equal(
    left_arrays: &Vec<KeyColumn>,
    left: usize,
    right_arrays: &Vec<KeyColumn>,
    right: usize,
) -> (r: Result<bool, KeyError>)
    requires
        columns_cover(left_arrays@, left + 1),
        columns_cover(right_arrays@, right + 1),
    ensures
        match key_same(
            key_types(left_arrays@),
            key_row(left_arrays@, left as int),
            key_row(right_arrays@, right as int),
        ) {
            Some(b) => r == Ok::<bool, KeyError>(b),
            None => r == Err::<bool, KeyError>(KeyError::UnsupportedType),
        },
{
    let ghost types = key_types(left_arrays@);
    let ghost lrow = key_row(left_arrays@, left as int);
    let ghost rrow = key_row(right_arrays@, right as int);
    let mut n: usize = left_arrays.len();
    if right_arrays.len() < n {
        n = right_arrays.len();
    }
    let mut c: usize = 0;
    while c < n
        invariant
            0 <= c <= n,
            n <= left_arrays@.len(),
            n <= right_arrays@.len(),
            n == left_arrays@.len() || n == right_arrays@.len(),
            types == key_types(left_arrays@),
            lrow == key_row(left_arrays@, left as int),
            rrow == key_row(right_arrays@, right as int),
            columns_cover(left_arrays@, left + 1),
            columns_cover(right_arrays@, right + 1),
            key_same(types, lrow, rrow) == key_same_from(types, lrow, rrow, c as int),
        decreases n - c,
    {
        let left_array = &left_arrays[c];
        let right_array = &right_arrays[c];
        if !left_array.data_type.is_supported() {
            return Err(KeyError::UnsupportedType);
        }
        match left_array.data_type {
            KeyType::Null => {},
            _ => {
                match (&left_array.values[left], &right_array.values[right]) {
                    (Some(l), Some(r)) => {
                        if !compare_values(l, r).is_eq() {
                            return Ok(false);
                        }
                    },
                    _ => {
                        return Ok(false);
                    },
                }
            },
        }
        c += 1;
    }
    Ok(true)
}

} // verus!
