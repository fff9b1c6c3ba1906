//! The plan of a sort-merge join: what is joined on what, checked when the
//! plan is made, and the stream that carries the plan out.

use crate::batch::{schema_flat, schema_width};
use crate::error::JoinError;
use crate::key::{KeyType, SortOptions};
use crate::model::JoinType;
use crate::stream::{SMJStream, SortMergeJoinMetrics};
use crate::view::JoinView;
use arrow::datatypes::Schema;
use std::sync::Arc;
use vstd::prelude::*;

verus! {

/// One of the two inputs of a plan.
#[derive(Clone, Copy, Debug, PartialEq, Eq, Structural)]
pub enum Child {
    Left,
    Right,
}

/// Whether every pair of join columns names a column of the left input and
/// a column of the right input of one element type.
pub open spec fn join_is_valid(left: Seq<KeyType>, right: Seq<KeyType>, on: Seq<(usize, usize)>) -> bool {
    forall|i: int|
        0 <= i < on.len() ==> {
            &&& (#[trigger] on[i]).0 < left.len()
            &&& on[i].1 < right.len()
            &&& left[on[i].0 as int] == right[on[i].1 as int]
        }
}

/// The element types of the output's columns: the left input's columns, and
/// after them the right input's unless the join puts out left columns only.
pub open spec fn join_schema(left: Seq<KeyType>, right: Seq<KeyType>, join_type: JoinType) -> Seq<
    KeyType,
> {
    if join_type.streamed_columns_only() {
        left
    } else {
        left + right
    }
}

/// The element types of the join columns, pair by pair.
pub open spec fn on_types(left: Seq<KeyType>, on: Seq<(usize, usize)>) -> Seq<KeyType> {
    Seq::new(on.len(), |i: int| left[on[i].0 as int])
}

/// The join columns of the streamed input: the right input's for a right
/// join, the left input's otherwise.
pub open spec fn streamed_columns(on: Seq<(usize, usize)>, join_type: JoinType) -> Seq<usize> {
    Seq::new(
        on.len(),
        |i: int|
            if join_type.streams_right() {
                on[i].1
            } else {
                on[i].0
            },
    )
}

/// The join columns of the buffered input: the left input's for a right
/// join, the right input's otherwise.
pub open spec fn buffered_columns(on: Seq<(usize, usize)>, join_type: JoinType) -> Seq<usize> {
    Seq::new(
        on.len(),
        |i: int|
            if join_type.streams_right() {
                on[i].0
            } else {
                on[i].1
            },
    )
}

/// A copy of a list of plain values.
fn copy_types(types: &Vec<KeyType>) -> (r: Vec<KeyType>)
    ensures
        r@ == types@,
{
    let mut r: Vec<KeyType> = Vec::new();
    let mut i: usize = 0;
    while i < types.len()
        invariant
            0 <= i <= types@.len(),
            r@ == types@.take(i as int),
        decreases types@.len() - i,
    {
        r.push(types[i]);
        assert(r@ =~= types@.take(i + 1));
        i += 1;
    }
    assert(types@.take(types@.len() as int) =~= types@);
    r
}

/// A join of two sorted inputs on pairs of their columns.
pub struct SortMergeJoinExec {
    /// The element types of the left input's columns.
    left: Vec<KeyType>,
    /// The element types of the right input's columns.
    right: Vec<KeyType>,
    /// The pairs of columns, left and right, whose values must be equal.
    on: Vec<(usize, usize)>,
    /// The kind of join.
    join_type: JoinType,
    /// The element types of the output's columns.
    schema: Vec<KeyType>,
    /// How each pair of join columns is sorted in both inputs.
    sort_options: Vec<SortOptions>,
    /// Whether a null matches a null.
    null_equals_null: bool,
}

impl SortMergeJoinExec {
    /// The join columns fit the inputs, each has its sort options, and the
    /// output's columns are those of the inputs.
    #[verifier::type_invariant]
    pub closed spec fn well_formed(&self) -> bool {
        &&& join_is_valid(self.left@, self.right@, self.on@)
        &&& self.sort_options@.len() == self.on@.len()
        &&& self.schema@ == join_schema(self.left@, self.right@, self.join_type)
    }

    /// The element types of the left input's columns.
    pub closed spec fn left_view(&self) -> Seq<KeyType> {
        self.left@
    }

    /// The element types of the right input's columns.
    pub closed spec fn right_view(&self) -> Seq<KeyType> {
        self.right@
    }

    /// The pairs of join columns.
    pub closed spec fn on_view(&self) -> Seq<(usize, usize)> {
        self.on@
    }

    /// The kind of join.
    pub closed spec fn join_type_view(&self) -> JoinType {
        self.join_type
    }

    /// The sort options of the join columns.
    pub closed spec fn sort_options_view(&self) -> Seq<SortOptions> {
        self.sort_options@
    }

    /// Whether a null matches a null.
    pub closed spec fn null_equals_null_view(&self) -> bool {
        self.null_equals_null
    }

    /// Makes the plan of a join of the inputs `left` and `right`, given by
    /// the element types of their columns, on the pairs of columns `on`.
    /// The plan is refused where a join column is absent from its input or
    /// the two columns of a pair differ in element type, and else where the
    /// number of sort options is not the number of pairs.
    pub fn try_new(
        left: Vec<KeyType>,
        right: Vec<KeyType>,
        on: Vec<(usize, usize)>,
        join_type: JoinType,
        sort_options: Vec<SortOptions>,
        null_equals_null: bool,
    ) -> (r: Result<SortMergeJoinExec, JoinError>)
        ensures
            match r {
                Ok(plan) => {
                    &&& join_is_valid(left@, right@, on@)
                    &&& sort_options@.len() == on@.len()
                    &&& plan.left_view() == left@
                    &&& plan.right_view() == right@
                    &&& plan.on_view() == on@
                    &&& plan.join_type_view() == join_type
                    &&& plan.sort_options_view() == sort_options@
                    &&& plan.null_equals_null_view() == null_equals_null
                },
                Err(e) => if !join_is_valid(left@, right@, on@) {
                    e is InvalidJoinColumns
                } else {
                    &&& sort_options@.len() != on@.len()
                    &&& e == (JoinError::SortOptionsMismatch {
                        expected: on@.len() as usize,
                        actual: sort_options@.len() as usize,
                    })
                },
            },
    {
        if !check_join_is_valid(&left, &right, &on) {
            return Err(JoinError::InvalidJoinColumns);
        }
        if sort_options.len() != on.len() {
            return Err(
                JoinError::SortOptionsMismatch { expected: on.len(), actual: sort_options.len() },
            );
        }
        let schema = build_join_schema(&left, &right, join_type);
        Ok(SortMergeJoinExec { left, right, on, join_type, schema, sort_options, null_equals_null })
    }

    /// The element types of the output's columns.
    pub fn schema(&self) -> (r: &Vec<KeyType>)
        ensures
            r@ == join_schema(self.left_view(), self.right_view(), self.join_type_view()),
    {
        proof {
            use_type_invariant(self);
        }
        &self.schema
    }

    /// The kind of join.
    pub fn join_type(&self) -> (r: JoinType)
        ensures
            r == self.join_type_view(),
    {
        self.join_type
    }

    /// The input whose partitioning the output has: the right one.
    pub fn output_partitioning(&self) -> (r: Child)
        ensures
            r == Child::Right,
    {
        Child::Right
    }

    /// The input whose ordering the plan reports for its output: the right
    /// one, whatever the kind of join.
    pub fn output_ordering(&self) -> (r: Child)
        ensures
            r == Child::Right,
    {
        Child::Right
    }

    /// The input that the join streams row by row: the right one for a right
    /// join, the left one for every other kind. The other input is buffered
    /// run by run.
    pub fn streamed_child(&self) -> (r: Child)
        ensures
            r == if self.join_type_view().streams_right() {
                Child::Right
            } else {
                Child::Left
            },
    {
        match self.join_type {
            JoinType::Right => Child::Right,
            _ => Child::Left,
        }
    }

    /// The two inputs, left and right, by the element types of their columns.
    pub fn children(&self) -> (r: Vec<Vec<KeyType>>)
        ensures
            r@.len() == 2,
            r@[0]@ == self.left_view(),
            r@[1]@ == self.right_view(),
    {
        let mut r: Vec<Vec<KeyType>> = Vec::new();
        r.push(copy_types(&self.left));
        r.push(copy_types(&self.right));
        r
    }

    /// The same join over other inputs. Refused where `children` are not
    /// two, and where the join columns do not fit the new inputs.
    pub fn with_new_children(&self, children: Vec<Vec<KeyType>>) -> (r: Result<
        SortMergeJoinExec,
        JoinError,
    >)
        ensures
            match r {
                Ok(plan) => {
                    &&& children@.len() == 2
                    &&& join_is_valid(children@[0]@, children@[1]@, self.on_view())
                    &&& plan.left_view() == children@[0]@
                    &&& plan.right_view() == children@[1]@
                    &&& plan.on_view() == self.on_view()
                    &&& plan.join_type_view() == self.join_type_view()
                    &&& plan.sort_options_view() == self.sort_options_view()
                    &&& plan.null_equals_null_view() == self.null_equals_null_view()
                },
                Err(e) => if children@.len() != 2 {
                    e is WrongNumberOfChildren
                } else {
                    !join_is_valid(children@[0]@, children@[1]@, self.on_view())
                        && e is InvalidJoinColumns
                },
            },
    {
        proof {
            use_type_invariant(self);
        }
        if children.len() != 2 {
            return Err(JoinError::WrongNumberOfChildren);
        }
        let mut on: Vec<(usize, usize)> = Vec::new();
        let mut i: usize = 0;
        while i < self.on.len()
            invariant
                0 <= i <= self.on@.len(),
                on@ == self.on@.take(i as int),
            decreases self.on@.len() - i,
        {
            on.push(self.on[i]);
            assert(on@ =~= self.on@.take(i + 1));
            i += 1;
        }
        assert(self.on@.take(self.on@.len() as int) =~= self.on@);
        let mut sort_options: Vec<SortOptions> = Vec::new();
        let mut i: usize = 0;
        while i < self.sort_options.len()
            invariant
                0 <= i <= self.sort_options@.len(),
                sort_options@ == self.sort_options@.take(i as int),
            decreases self.sort_options@.len() - i,
        {
            sort_options.push(self.sort_options[i]);
            assert(sort_options@ =~= self.sort_options@.take(i + 1));
            i += 1;
        }
        assert(self.sort_options@.take(self.sort_options@.len() as int) =~= self.sort_options@);
        let left = copy_types(&children[0]);
        let right = copy_types(&children[1]);
        SortMergeJoinExec::try_new(
            left,
            right,
            on,
            self.join_type,
            sort_options,
            self.null_equals_null,
        )
    }

    /// The join columns of the streamed input, pair by pair: the right
    /// input's for a right join, the left input's otherwise.
    pub fn on_streamed(&self) -> (r: Vec<usize>)
        ensures
            r@ == streamed_columns(self.on_view(), self.join_type_view()),
    {
        let right = match self.join_type {
            JoinType::Right => true,
            _ => false,
        };
        let mut r: Vec<usize> = Vec::new();
        let mut i: usize = 0;
        while i < self.on.len()
            invariant
                0 <= i <= self.on@.len(),
                right == self.join_type.streams_right(),
                r@ == streamed_columns(self.on@, self.join_type).take(i as int),
            decreases self.on@.len() - i,
        {
            let pair = self.on[i];
            r.push(
                if right {
                    pair.1
                } else {
                    pair.0
                },
            );
            assert(r@ =~= streamed_columns(self.on@, self.join_type).take(i + 1));
            i += 1;
        }
        assert(r@ =~= streamed_columns(self.on@, self.join_type));
        r
    }

    /// The join columns of the buffered input, pair by pair: the left
    /// input's for a right join, the right input's otherwise.
    pub fn on_buffered(&self) -> (r: Vec<usize>)
        ensures
            r@ == buffered_columns(self.on_view(), self.join_type_view()),
    {
        let right = match self.join_type {
            JoinType::Right => true,
            _ => false,
        };
        let mut r: Vec<usize> = Vec::new();
        let mut i: usize = 0;
        while i < self.on.len()
            invariant
                0 <= i <= self.on@.len(),
                right == self.join_type.streams_right(),
                r@ == buffered_columns(self.on@, self.join_type).take(i as int),
            decreases self.on@.len() - i,
        {
            let pair = self.on[i];
            r.push(
                if right {
                    pair.0
                } else {
                    pair.1
                },
            );
            assert(r@ =~= buffered_columns(self.on@, self.join_type).take(i + 1));
            i += 1;
        }
        assert(r@ =~= buffered_columns(self.on@, self.join_type));
        r
    }

    /// Begins the join for one partition: a stream that is handed the
    /// batches of the two inputs and hands out the joined batches, `schema`
    /// being the Arrow schema of the output and the two others those of the
    /// inputs. A right join streams the right input and buffers the left;
    /// every other join streams the left. Refused where the batch size is
    /// zero, and where a schema holds a column that the join cannot carry.
    pub fn execute(
        &self,
        partition: usize,
        batch_size: usize,
        schema: Arc<Schema>,
        left_schema: Arc<Schema>,
        right_schema: Arc<Schema>,
    ) -> (r: Result<SMJStream, JoinError>)
        ensures
            match r {
                Ok(stream) => {
                    &&& batch_size >= 1
                    &&& schema_flat(*schema)
                    &&& schema_flat(*left_schema)
                    &&& schema_flat(*right_schema)
                    &&& stream.wf()
                    &&& stream.metrics_view() == SortMergeJoinMetrics::new_spec(partition)
                    &&& stream@ == JoinView::initial(
                        self.join_type_view(),
                        on_types(self.left_view(), self.on_view()),
                        self.sort_options_view(),
                        self.null_equals_null_view(),
                        batch_size as int,
                        *schema,
                        if self.join_type_view().streams_right() {
                            schema_width(*right_schema)
                        } else {
                            schema_width(*left_schema)
                        },
                        if self.join_type_view().streams_right() {
                            schema_width(*left_schema)
                        } else {
                            schema_width(*right_schema)
                        },
                    )
                },
                Err(e) => if batch_size == 0 {
                    e is InvalidBatchSize
                } else {
                    &&& !(schema_flat(*schema) && schema_flat(*left_schema) && schema_flat(
                        *right_schema,
                    ))
                    &&& e is UnsupportedColumns
                },
            },
    {
        proof {
            use_type_invariant(self);
        }
        let mut key_types: Vec<KeyType> = Vec::new();
        let mut i: usize = 0;
        while i < self.on.len()
            invariant
                0 <= i <= self.on@.len(),
                join_is_valid(self.left@, self.right@, self.on@),
                key_types@ == on_types(self.left@, self.on@).take(i as int),
            decreases self.on@.len() - i,
        {
            let pair = self.on[i];
            key_types.push(self.left[pair.0]);
            assert(key_types@ =~= on_types(self.left@, self.on@).take(i + 1));
            i += 1;
        }
        assert(key_types@ =~= on_types(self.left@, self.on@));
        let mut sort_options: Vec<SortOptions> = Vec::new();
        let mut i: usize = 0;
        while i < self.sort_options.len()
            invariant
                0 <= i <= self.sort_options@.len(),
                sort_options@ == self.sort_options@.take(i as int),
            decreases self.sort_options@.len() - i,
        {
            sort_options.push(self.sort_options[i]);
            assert(sort_options@ =~= self.sort_options@.take(i + 1));
            i += 1;
        }
        assert(self.sort_options@.take(self.sort_options@.len() as int) =~= self.sort_options@);
        let (streamed_schema, buffered_schema) = match self.join_type {
            JoinType::Right => (right_schema, left_schema),
            _ => (left_schema, right_schema),
        };
        SMJStream::try_new(
            schema,
            sort_options,
            self.null_equals_null,
            streamed_schema,
            buffered_schema,
            key_types,
            self.join_type,
            batch_size,
            SortMergeJoinMetrics::new(partition),
        )
    }
}

/// Whether every pair of join columns names a column of the left input and
/// a column of the right input of one element type.
pub fn check_join_is_valid(left: &Vec<KeyType>, right: &Vec<KeyType>, on: &Vec<(usize, usize)>) -> (r:
    bool)
    ensures
        r == join_is_valid(left@, right@, on@),
{
    let mut i: usize = 0;
    while i < on.len()
        invariant
            0 <= i <= on@.len(),
            forall|j: int|
                0 <= j < i ==> {
                    &&& (#[trigger] on@[j]).0 < left@.len()
                    &&& on@[j].1 < right@.len()
                    &&& left@[on@[j].0 as int] == right@[on@[j].1 as int]
                },
        decreases on@.len() - i,
    {
        let pair = on[i];
        if pair.0 >= left.len() || pair.1 >= right.len() {
            return false;
        }
        if !left[pair.0].same_as(&right[pair.1]) {
            return false;
        }
        i += 1;
    }
    true
}

/// The element types of the output's columns: the left input's columns, and
/// after them the right input's unless the join puts out left columns only.
pub fn build_join_schema(left: &Vec<KeyType>, right: &Vec<KeyType>, join_type: JoinType) -> (r: Vec<
    KeyType,
>)
    ensures
        r@ == join_schema(left@, right@, join_type),
{
    let mut r = copy_types(left);
    match join_type {
        JoinType::Semi | JoinType::Anti => {},
        _ => {
            let mut i: usize = 0;
            while i < right.len()
                invariant
                    0 <= i <= right@.len(),
                    r@ == left@ + right@.take(i as int),
                decreases right@.len() - i,
            {
                r.push(right[i]);
                assert(r@ =~= left@ + right@.take(i + 1));
                i += 1;
            }
            assert(right@.take(right@.len() as int) =~= right@);
        },
    }
    r
}

} // verus!
