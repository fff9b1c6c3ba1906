//! Record batches as the join sees them.
//!
//! The join never looks inside an Arrow record batch: it counts rows, gathers
//! rows by index, fills rows with nulls and puts batches side by side or one
//! after another. Each of these is done by Arrow; what it is trusted to do is
//! stated here over a mathematical model of a batch, its rows.

use crate::key::KeyColumn;
use arrow::array::{new_null_array, Array, UInt64Array};
use arrow::compute::{concat_batches, take_arrays};
use arrow::datatypes::{DataType, Field, Schema};
use arrow::error::ArrowError;
use arrow::record_batch::{RecordBatch, RecordBatchOptions};
use std::sync::Arc;
use vstd::prelude::*;

verus! {

/// An Arrow record batch, carried through the join without looking inside.
#[verifier::external_body]
pub struct Batch(pub RecordBatch);

/// Arrow's schema, of which only the number of fields and the kinds of
/// their element types are spoken of.
#[verifier::external_type_specification]
#[verifier::external_body]
pub struct ExSchema(Schema);

/// Arrow's error, handed on as it came.
#[verifier::external_type_specification]
#[verifier::external_body]
pub struct ExArrowError(ArrowError);

/// One cell of a row: `None` for a null, otherwise a number that stands for
/// the value held.
pub type Cell = Option<int>;

/// One row of a batch: a cell per column.
pub type Row = Seq<Cell>;

/// The rows of a record batch, in order.
pub uninterp spec fn batch_rows(batch: Batch) -> Seq<Seq<Option<int>>>;

/// The number of columns of a record batch.
pub uninterp spec fn batch_width(batch: Batch) -> nat;

/// The number of fields of a schema.
pub uninterp spec fn schema_width(schema: Schema) -> nat;

/// The rows at `indices` of `rows`, in the order of the indices.
pub open spec fn gather(rows: Seq<Row>, indices: Seq<usize>) -> Seq<Row> {
    Seq::new(indices.len(), |k: int| rows[indices[k] as int])
}

/// A row of `width` nulls.
pub open spec fn null_row(width: nat) -> Row {
    Seq::new(width, |c: int| None::<int>)
}

/// `count` rows of `width` nulls.
pub open spec fn null_rows_of(width: nat, count: nat) -> Seq<Row> {
    Seq::new(count, |i: int| null_row(width))
}

/// Two lists of rows side by side: row by row, the cells of `left` followed by those of `right`.
pub open spec fn side_by_side(left: Seq<Row>, right: Seq<Row>) -> Seq<Row> {
    Seq::new(left.len(), |i: int| left[i] + right[i])
}

/// The rows of a list of batches, one batch after another.
pub open spec fn all_rows(batches: Seq<Batch>) -> Seq<Row>
    decreases batches.len(),
{
    if batches.len() == 0 {
        Seq::empty()
    } else {
        all_rows(batches.drop_last()) + batch_rows(batches.last())
    }
}

/// The schema that a record batch carries.
pub uninterp spec fn batch_schema(batch: Batch) -> Schema;

/// Whether Arrow calls the element type of the field primitive: a number, a
/// decimal, a date, a time, a timestamp, a duration or an interval.
pub uninterp spec fn field_primitive(schema: Schema, column: int) -> bool;

/// Whether the element type of the field is a time of day, of 32 or of 64
/// bits.
pub uninterp spec fn field_time(schema: Schema, column: int) -> bool;

/// Whether the element type of the field is a string with offsets of 32 or
/// of 64 bits.
pub uninterp spec fn field_string(schema: Schema, column: int) -> bool;

/// Whether the element type of the field is Arrow's boolean.
pub uninterp spec fn field_boolean(schema: Schema, column: int) -> bool;

/// The batch that gathering the rows at `indices` of `batch` gives, or
/// `None` where Arrow fails at it.
pub uninterp spec fn taken(batch: Batch, indices: Seq<usize>) -> Option<Batch>;

/// The batch of `count` rows of nulls under `schema`, or `None` where Arrow
/// fails at making it.
pub uninterp spec fn null_batch(schema: Schema, count: nat) -> Option<Batch>;

/// The batch under `schema` of the columns of `first` followed by those of
/// `second`, or `None` where Arrow refuses them.
pub uninterp spec fn assembled(schema: Schema, first: Batch, second: Option<Batch>) -> Option<
    Batch,
>;

/// The batch under `schema` of the batches one after another, or `None`
/// where Arrow fails at it.
pub uninterp spec fn concatenated(schema: Schema, batches: Seq<Batch>) -> Option<Batch>;

/// The batch that a reference stands for, if there is one.
pub open spec fn held(batch: Option<&Batch>) -> Option<Batch> {
    match batch {
        Some(b) => Some(*b),
        None => None,
    }
}

/// Whether the join can carry the column: its element type is primitive
/// and no time of day, or a string, or a boolean. Of columns of these types
/// Arrow gathers, fills and concatenates any number of rows; of nested and
/// run-end encoded types it may not, and a type of times of day can name a
/// unit that no array has. Strings are those with offsets; views are not
/// among them.
pub open spec fn field_flat(schema: Schema, column: int) -> bool {
    (field_primitive(schema, column) && !field_time(schema, column)) || field_string(
        schema,
        column,
    ) || field_boolean(schema, column)
}

/// Whether the join can carry every column of the schema.
pub open spec fn schema_flat(schema: Schema) -> bool {
    forall|c: int| 0 <= c < schema_width(schema) ==> #[trigger] field_flat(schema, c)
}

/// Whether the join can carry every column of the batch.
pub open spec fn batch_flat(batch: Batch) -> bool {
    schema_flat(batch_schema(batch))
}

/// `RecordBatch::num_rows`: the number of rows of the batch.
#[verifier::external_body]
pub(crate) fn num_rows(batch: &Batch) -> (n: usize)
    ensures
        n == batch_rows(*batch).len(),
{
    batch.0.num_rows()
}

/// `RecordBatch::schema`: the schema of the batch, which has a field for
/// each of its columns.
#[verifier::external_body]
pub(crate) fn schema_of(batch: &Batch) -> (r: Arc<Schema>)
    ensures
        *r == batch_schema(*batch),
        schema_width(*r) == batch_width(*batch),
{
    batch.0.schema()
}

/// `Schema::fields` and the length of what it gives: the number of fields.
#[verifier::external_body]
pub(crate) fn field_count(schema: &Arc<Schema>) -> (n: usize)
    ensures
        n == schema_width(**schema),
{
    schema.fields().len()
}

/// `DataType::is_primitive` on the element type of a field.
#[verifier::external_body]
pub(crate) fn field_is_primitive(schema: &Arc<Schema>, column: usize) -> (r: bool)
    requires
        column < schema_width(**schema),
    ensures
        r == field_primitive(**schema, column as int),
{
    schema.field(column).data_type().is_primitive()
}

/// Whether the element type of a field is `DataType::Time32` or
/// `DataType::Time64`.
#[verifier::external_body]
pub(crate) fn field_is_time(schema: &Arc<Schema>, column: usize) -> (r: bool)
    requires
        column < schema_width(**schema),
    ensures
        r == field_time(**schema, column as int),
{
    matches!(schema.field(column).data_type(), DataType::Time32(_) | DataType::Time64(_))
}

/// Whether the element type of a field is `DataType::Utf8` or
/// `DataType::LargeUtf8`.
#[verifier::external_body]
pub(crate) fn field_is_string(schema: &Arc<Schema>, column: usize) -> (r: bool)
    requires
        column < schema_width(**schema),
    ensures
        r == field_string(**schema, column as int),
{
    matches!(schema.field(column).data_type(), DataType::Utf8 | DataType::LargeUtf8)
}

/// The equality of `DataType` on the element type of a field and
/// `DataType::Boolean`.
#[verifier::external_body]
pub(crate) fn field_is_boolean(schema: &Arc<Schema>, column: usize) -> (r: bool)
    requires
        column < schema_width(**schema),
    ensures
        r == field_boolean(**schema, column as int),
{
    schema.field(column).data_type() == &DataType::Boolean
}

/// `arrow::compute::take_arrays` on the columns of the batch, with the
/// indices as a `UInt64Array`, made into a batch of as many rows as there are
/// indices by `RecordBatch::try_new_with_options` under the schema of the
/// batch. It succeeds where `taken` says so, and the result is then that
/// batch: it holds the rows of `batch` at `indices`, in that order, in as
/// many columns.
/// With every index inside the batch and columns that the join can carry it
/// does not panic.
#[verifier::external_body]
pub(crate) fn take_rows(batch: &Batch, indices: &Vec<usize>) -> (r: Result<Batch, ArrowError>)
    requires
        batch_flat(*batch),
        forall|k: int| 0 <= k < indices@.len() ==> (#[trigger] indices@[k]) < batch_rows(*batch).len(),
    ensures
        match r {
            Ok(b) => taken(*batch, indices@) == Some(b) && batch_rows(b) == gather(
                batch_rows(*batch),
                indices@,
            ) && batch_width(b) == batch_width(*batch),
            Err(_) => taken(*batch, indices@) is None,
        },
{
    let indices = UInt64Array::from_iter_values(indices.iter().map(|i| *i as u64));
    let columns = take_arrays(batch.0.columns(), &indices, None)?;
    let rows = RecordBatchOptions::new().with_row_count(Some(indices.len()));
    Ok(Batch(RecordBatch::try_new_with_options(batch.0.schema(), columns, &rows)?))
}

/// `arrow::array::new_null_array` for each field of `schema`, made into a
/// batch of `count` rows by `RecordBatch::try_new_with_options` under that
/// schema with every field nullable. It succeeds where `null_batch` says so, and the result is then
/// that batch: `count` rows of nulls, a column per field. With columns that
/// the join can carry it does not panic.
#[verifier::external_body]
pub(crate) fn null_rows(schema: &Arc<Schema>, count: usize) -> (r: Result<Batch, ArrowError>)
    requires
        schema_flat(**schema),
    ensures
        match r {
            Ok(b) => null_batch(**schema, count as nat) == Some(b) && batch_rows(b)
                == null_rows_of(schema_width(**schema), count as nat) && batch_width(b)
                == schema_width(**schema),
            Err(_) => null_batch(**schema, count as nat) is None,
        },
{
    let fields: Vec<Field> =
        schema.fields().iter().map(|f| f.as_ref().clone().with_nullable(true)).collect();
    let columns = fields.iter().map(|f| new_null_array(f.data_type(), count)).collect();
    let rows = RecordBatchOptions::new().with_row_count(Some(count));
    Ok(Batch(RecordBatch::try_new_with_options(Arc::new(Schema::new(fields)), columns, &rows)?))
}

/// `RecordBatch::try_new_with_options` under `schema` on the columns of
/// `first` followed by those of `second`, with the number of rows of `first`. It succeeds where `assembled` says so, and the
/// result is then that batch: it carries `schema`, has a column per field of
/// it, and its rows are those of the two batches side by side.
#[verifier::external_body]
pub(crate) fn assemble(schema: &Arc<Schema>, first: &Batch, second: Option<&Batch>) -> (r: Result<
    Batch,
    ArrowError,
>)
    requires
        second matches Some(s) ==> batch_rows(*s).len() == batch_rows(*first).len(),
    ensures
        match r {
            Ok(b) => {
                &&& assembled(**schema, *first, held(second)) == Some(b)
                &&& batch_schema(b) == **schema
                &&& batch_width(b) == schema_width(**schema)
                &&& batch_rows(b) == (match second {
                    Some(s) => side_by_side(batch_rows(*first), batch_rows(*s)),
                    None => batch_rows(*first),
                })
            },
            Err(_) => assembled(**schema, *first, held(second)) is None,
        },
{
    let mut columns = first.0.columns().to_vec();
    if let Some(s) = second {
        columns.extend_from_slice(s.0.columns());
    }
    let rows = RecordBatchOptions::new().with_row_count(Some(first.0.num_rows()));
    Ok(Batch(RecordBatch::try_new_with_options(schema.clone(), columns, &rows)?))
}

/// `arrow::compute::concat_batches` under `schema`. It succeeds where
/// `concatenated` says so, and the result is then that batch: it carries
/// `schema` and holds the rows of the batches one batch after another. With a schema and batches
/// of columns that the join can carry, and a column per field of the schema
/// in every batch, it does not panic.
#[verifier::external_body]
pub(crate) fn concat_rows(schema: &Arc<Schema>, batches: &Vec<Batch>) -> (r: Result<Batch, ArrowError>)
    requires
        schema_flat(**schema),
        forall|k: int|
            0 <= k < batches@.len() ==> batch_width(#[trigger] batches@[k]) == schema_width(**schema)
                && batch_flat(batches@[k]),
    ensures
        match r {
            Ok(b) => concatenated(**schema, batches@) == Some(b) && batch_rows(b) == all_rows(
                batches@,
            ) && batch_width(b) == schema_width(**schema) && batch_schema(b) == **schema,
            Err(_) => concatenated(**schema, batches@) is None,
        },
{
    Ok(Batch(concat_batches(schema, batches.iter().map(|b| &b.0))?))
}

/// Whether the join can carry every column of the schema.
pub fn is_schema_flat(schema: &Arc<Schema>) -> (r: bool)
    ensures
        r == schema_flat(**schema),
{
    let count = field_count(schema);
    let mut c: usize = 0;
    while c < count
        invariant
            0 <= c <= count,
            count == schema_width(**schema),
            forall|d: int| 0 <= d < c ==> #[trigger] field_flat(**schema, d),
        decreases count - c,
    {
        let number = field_is_primitive(schema, c) && !field_is_time(schema, c);
        if !(number || field_is_string(schema, c) || field_is_boolean(schema, c)) {
            assert(!field_flat(**schema, c as int));
            return false;
        }
        c += 1;
    }
    true
}

/// A batch of one input together with its join key columns.
pub struct InputBatch {
    batch: Batch,
    join_arrays: Vec<KeyColumn>,
}

impl InputBatch {
    /// Every key column has a cell for each row of the batch, and the join
    /// can carry every column of the batch.
    #[verifier::type_invariant]
    pub closed spec fn well_formed(&self) -> bool {
        &&& batch_flat(self.batch)
        &&& forall|c: int|
            0 <= c < self.join_arrays@.len() ==> (#[trigger] self.join_arrays@[c]).values@.len()
                == batch_rows(self.batch).len()
    }

    /// The record batch.
    pub closed spec fn batch_view(&self) -> Batch {
        self.batch
    }

    /// The join key columns.
    pub closed spec fn keys_view(&self) -> Seq<KeyColumn> {
        self.join_arrays@
    }

    /// Whether `join_arrays` can be the key columns of `batch`: each has as
    /// many cells as the batch has rows.
    pub open spec fn fits(batch: Batch, join_arrays: Seq<KeyColumn>) -> bool {
        forall|c: int|
            0 <= c < join_arrays.len() ==> (#[trigger] join_arrays[c]).values@.len() == batch_rows(
                batch,
            ).len()
    }

    /// Pairs a batch with its join key columns, or gives `None` where a key
    /// column has another number of cells than the batch has rows, or the
    /// batch has a column that the join cannot carry.
    pub fn try_new(batch: Batch, join_arrays: Vec<KeyColumn>) -> (r: Option<InputBatch>)
        ensures
            r is Some <==> Self::fits(batch, join_arrays@) && batch_flat(batch),
            r matches Some(b) ==> b.batch_view() == batch && b.keys_view() == join_arrays@,
    {
        if !is_schema_flat(&schema_of(&batch)) {
            return None;
        }
        let rows = num_rows(&batch);
        let mut c: usize = 0;
        while c < join_arrays.len()
            invariant
                0 <= c <= join_arrays@.len(),
                rows == batch_rows(batch).len(),
                forall|d: int|
                    0 <= d < c ==> (#[trigger] join_arrays@[d]).values@.len() == batch_rows(
                        batch,
                    ).len(),
            decreases join_arrays@.len() - c,
        {
            if join_arrays[c].len() != rows {
                return None;
            }
            c += 1;
        }
        Some(InputBatch { batch, join_arrays })
    }

    /// The number of rows.
    pub fn num_rows(&self) -> (n: usize)
        ensures
            n == batch_rows(self.batch_view()).len(),
    {
        num_rows(&self.batch)
    }

    /// The join key columns.
    pub fn join_arrays(&self) -> (r: &Vec<KeyColumn>)
        ensures
            r@ == self.keys_view(),
    {
        &self.join_arrays
    }

    /// Takes the input batch apart.
    pub fn into_parts(self) -> (r: (Batch, Vec<KeyColumn>))
        ensures
            r.0 == self.batch_view(),
            r.1@ == self.keys_view(),
            Self::fits(r.0, r.1@),
            batch_flat(r.0),
    {
        proof {
            use_type_invariant(&self);
        }
        (self.batch, self.join_arrays)
    }
}

} // verus!
