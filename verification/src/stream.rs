//! The join as a stream: a state machine that is handed the batches of its
//! two sorted inputs as it asks for them and hands out the joined batches.

use crate::batch::{
    all_rows, assemble, batch_flat, batch_rows, batch_schema, concat_rows, concatenated,
    is_schema_flat, null_rows, num_rows, schema_flat, schema_width, take_rows, Batch, InputBatch,
    Row,
};
use crate::buffered::{rows_before, run_rows_before, BufferedBatch, BufferedData};
use crate::error::JoinError;
use crate::key::{
    compare_join_arrays, key_types, KeyColumn, KeyOrder, KeyRow, KeyType, SortOptions,
};
use crate::laws::{
    lemma_after_init_merged, lemma_buffered_step_merged, lemma_compare_merged,
    lemma_initial_merged, lemma_join_output_init_merged, lemma_join_partial_merged,
    lemma_merged_same, lemma_streamed_step_merged,
};
use crate::link::{
    buffered_link, buffered_slot, lemma_buffered_link_at, lemma_buffered_link_drop,
    lemma_buffered_link_len, lemma_buffered_link_push, lemma_buffered_link_same,
    lemma_output_link_decide, lemma_output_link_extend, lemma_output_link_stage,
    lemma_rows_before_drop, lemma_rows_before_monotone, lemma_rows_before_same, lemma_run_len,
    lemma_run_span, lemma_run_stop_skip, lemma_scan_slot, lemma_streamed_link_at,
    lemma_streamed_link_move, lemma_streamed_link_row, lemma_streamed_link_take, output_link,
    streamed_link,
};
use crate::model::{joined_rows, JoinType, JoinedRow};
use crate::output::{batch_of, begins_stretch, buffered_of, streamed_of, Sources};
use crate::view::{batch_keys, rows_same, run_stop, JoinView, Round};
use arrow::datatypes::Schema;
use arrow::error::ArrowError;
use std::sync::Arc;
use vstd::prelude::*;

verus! {

/// The state of the join.
#[derive(Clone, Copy, Debug, PartialEq, Eq, Structural)]
pub enum SMJState {
    /// About to move to a new streamed row or a new buffered run.
    Init,
    /// Fetching a streamed row, a buffered run, or both.
    Polling,
    /// Joining what was fetched and making output.
    JoinOutput,
    /// No more output.
    Exhausted,
}

/// The state of the streamed input.
#[derive(Clone, Copy, Debug, PartialEq, Eq, Structural)]
pub enum StreamedState {
    /// About to move to the next row.
    Init,
    /// Waiting for the next batch.
    Polling,
    /// Standing at a row.
    Ready,
    /// No more rows.
    Exhausted,
}

/// The state of the buffered input.
#[derive(Clone, Copy, Debug, PartialEq, Eq, Structural)]
pub enum BufferedState {
    /// About to move to the next run.
    Init,
    /// Waiting for the batch that holds the first row of the next run.
    PollingFirst,
    /// Collecting the rest of the run.
    PollingRest,
    /// Holding a whole run.
    Ready,
    /// No more runs.
    Exhausted,
}

/// One of the two inputs of the join.
#[derive(Clone, Copy, Debug, PartialEq, Eq, Structural)]
pub enum Side {
    Streamed,
    Buffered,
}

/// What an input hands to the join when asked.
pub enum StreamInput {
    /// The next batch.
    Batch(InputBatch),
    /// The input has ended.
    End,
    /// The input has failed.
    Failed(ArrowError),
}

/// What the join answers when polled.
pub enum JoinPoll {
    /// The join cannot go on before the named input has handed it something.
    Pending(Side),
    /// The next batch of output.
    Batch(Batch),
    /// The output has ended.
    Finished,
}

/// What one input's cursor answers when polled.
#[derive(Clone, Copy, Debug, PartialEq, Eq, Structural)]
pub enum RowPoll {
    /// The input has to hand over something first.
    Pending,
    /// The cursor stands at a row or a run.
    Ready,
    /// The input has no more.
    Exhausted,
}

/// One output row by the places of its two halves: the row of the current
/// streamed batch, and the buffered batch and the row in it.
#[derive(Clone, Copy, Debug)]
pub struct OutputIndex {
    /// The streamed row, or `None` for nulls.
    pub streamed_idx: Option<usize>,
    /// The buffered batch and the row in it, or `None` for nulls.
    pub buffered_idx: Option<(usize, usize)>,
}

impl OutputIndex {
    /// Whether the index names a streamed row and a row of the given buffered batch.
    pub open spec fn pairs_with(self, buffered_batch_idx: usize) -> bool {
        self.streamed_idx is Some && match self.buffered_idx {
            Some(b) => b.0 == buffered_batch_idx,
            None => false,
        }
    }

    /// Whether the index names a row of the given buffered batch alone.
    pub open spec fn alone_in(self, buffered_batch_idx: usize) -> bool {
        self.streamed_idx is None && match self.buffered_idx {
            Some(b) => b.0 == buffered_batch_idx,
            None => false,
        }
    }

    /// Whether the index names a streamed row and a buffered row.
    pub open spec fn is_pair(self) -> bool {
        self.streamed_idx is Some && self.buffered_idx is Some
    }

    /// Whether the index names a streamed row alone.
    pub open spec fn is_streamed_only(self) -> bool {
        self.streamed_idx is Some && self.buffered_idx is None
    }

    /// Whether the index names a buffered row alone.
    pub open spec fn is_buffered_only(self) -> bool {
        self.streamed_idx is None && self.buffered_idx is Some
    }
}

/// Counts of what the join has taken in and put out.
#[derive(Clone, Copy, Debug)]
pub struct SortMergeJoinMetrics {
    /// The partition that the join works on.
    pub partition: usize,
    /// Batches taken in that held rows.
    pub input_batches: usize,
    /// Rows taken in.
    pub input_rows: usize,
    /// Batches put out.
    pub output_batches: usize,
    /// Rows put out.
    pub output_rows: usize,
}

impl SortMergeJoinMetrics {
    /// Counters at zero for the given partition.
    pub open spec fn new_spec(partition: usize) -> SortMergeJoinMetrics {
        SortMergeJoinMetrics {
            partition,
            input_batches: 0,
            input_rows: 0,
            output_batches: 0,
            output_rows: 0,
        }
    }

    /// Counters at zero for the given partition.
    pub fn new(partition: usize) -> (r: SortMergeJoinMetrics)
        ensures
            r == Self::new_spec(partition),
    {
        SortMergeJoinMetrics {
            partition,
            input_batches: 0,
            input_rows: 0,
            output_batches: 0,
            output_rows: 0,
        }
    }
}

/// What the join has seen and decided since it began.
pub struct History {
    /// The keys of the streamed rows taken in, in order.
    pub streamed_keys: Seq<KeyRow>,
    /// The streamed rows taken in.
    pub streamed_rows: Seq<Row>,
    /// The keys of the buffered rows taken in, in order.
    pub buffered_keys: Seq<KeyRow>,
    /// The buffered rows taken in.
    pub buffered_rows: Seq<Row>,
    /// The output rows decided, in order.
    pub joined: Seq<JoinedRow>,
    /// The rows of the batches handed out, in order.
    pub emitted: Seq<Row>,
}

/// The join stream.
pub struct SMJStream {
    state: SMJState,
    schema: Arc<Schema>,
    sort_options: Vec<SortOptions>,
    null_equals_null: bool,
    key_types: Vec<KeyType>,
    streamed_schema: Arc<Schema>,
    buffered_schema: Arc<Schema>,
    streamed: Option<StreamInput>,
    buffered: Option<StreamInput>,
    streamed_batch: Option<Batch>,
    streamed_join_arrays: Vec<KeyColumn>,
    streamed_idx: usize,
    buffered_data: BufferedData,
    streamed_joined: bool,
    buffered_joined: bool,
    streamed_state: StreamedState,
    buffered_state: BufferedState,
    current_ordering: KeyOrder,
    output_record_batches: Vec<Batch>,
    output_size: usize,
    batch_size: usize,
    join_type: JoinType,
    join_metrics: SortMergeJoinMetrics,
    failed: bool,
    history: Ghost<History>,
    streamed_base: Ghost<int>,
    buffered_base: Ghost<int>,
}

impl View for SMJStream {
    type V = JoinView;

    closed spec fn view(&self) -> JoinView {
        let batches = self.buffered_data.batches@;
        JoinView {
            join_type: self.join_type,
            key_types: self.key_types@,
            sort_options: self.sort_options@,
            null_equals_null: self.null_equals_null,
            batch_size: self.batch_size as int,
            schema: *self.schema,
            streamed_width: schema_width(*self.streamed_schema),
            buffered_width: schema_width(*self.buffered_schema),
            streamed_keys: self.history@.streamed_keys,
            streamed_rows: self.history@.streamed_rows,
            buffered_keys: self.history@.buffered_keys,
            buffered_rows: self.history@.buffered_rows,
            streamed_input: self.streamed,
            buffered_input: self.buffered,
            state: self.state,
            streamed_state: self.streamed_state,
            buffered_state: self.buffered_state,
            current_ordering: self.current_ordering,
            streamed_joined: self.streamed_joined,
            buffered_joined: self.buffered_joined,
            streamed_pos: if self.streamed_batch is Some {
                self.streamed_base@ + self.streamed_idx
            } else {
                -1
            },
            run_start: if batches.len() > 0 {
                self.buffered_base@ + batches[0].range.start
            } else {
                self.buffered_base@
            },
            run_end: if batches.len() > 0 {
                buffered_slot(
                    self.buffered_base@,
                    batches,
                    batches.len() - 1,
                    batches.last().range.end as int,
                )
            } else {
                self.buffered_base@
            },
            scanned: self.buffered_data.scanned(),
            failed: self.failed,
            joined: self.history@.joined,
            emitted: self.history@.emitted,
            staged: self.output_size as int,
        }
    }
}

impl SMJStream {
    /// The number of columns of the streamed input.
    pub closed spec fn streamed_width(&self) -> nat {
        schema_width(*self.streamed_schema)
    }

    /// The number of columns of the buffered input.
    pub closed spec fn buffered_width(&self) -> nat {
        schema_width(*self.buffered_schema)
    }

    /// The number of columns of the output.
    pub closed spec fn output_width(&self) -> nat {
        schema_width(*self.schema)
    }

    /// The current streamed batch is the last stretch of the streamed rows taken in.
    pub closed spec fn streamed_linked(&self) -> bool {
        streamed_link(
            self.history@.streamed_keys,
            self.history@.streamed_rows,
            self.streamed_batch,
            self.streamed_join_arrays@,
            self.streamed_idx as int,
            self.streamed_base@,
            self.key_types@,
        )
    }

    /// The buffered batches are the last stretch of the buffered rows taken in.
    pub closed spec fn buffered_linked(&self) -> bool {
        buffered_link(
            self.history@.buffered_keys,
            self.history@.buffered_rows,
            self.buffered_data.batches@,
            self.buffered_base@,
            self.key_types@,
        )
    }

    /// The batches that wait to be handed out hold the rows decided and not
    /// yet handed out, but for the last `pending` of them.
    pub closed spec fn output_linked(&self, pending: int) -> bool {
        &&& output_link(
            self.join_type,
            self.history@.streamed_rows,
            self.history@.buffered_rows,
            self.streamed_width(),
            self.buffered_width(),
            self.history@.joined,
            self.history@.emitted,
            self.output_record_batches@,
            self.output_width(),
            pending,
        )
        &&& all_rows(self.output_record_batches@).len() + pending == self.output_size
    }

    /// The join can carry every column of its schemas and of the streamed
    /// batch it holds, and the batches that wait carry the output schema.
    pub closed spec fn carries(&self) -> bool {
        &&& schema_flat(*self.schema)
        &&& schema_flat(*self.streamed_schema)
        &&& schema_flat(*self.buffered_schema)
        &&& self.streamed_batch matches Some(b) ==> batch_flat(b)
        &&& forall|k: int|
            0 <= k < self.output_record_batches@.len() ==> batch_schema(
                #[trigger] self.output_record_batches@[k],
            ) == *self.schema
    }

    /// What the output batches are made from.
    pub closed spec fn sources(&self) -> Sources {
        Sources {
            schema: *self.schema,
            streamed_schema: *self.streamed_schema,
            buffered_schema: *self.buffered_schema,
            join_type: self.join_type,
            streamed: self.streamed_batch,
            buffered: self.buffered_data.batches@,
        }
    }

    /// Where the batches held begin among the rows taken in: the streamed
    /// batch and the first buffered batch.
    pub closed spec fn bases(&self) -> (int, int) {
        (self.streamed_base@, self.buffered_base@)
    }

    /// Whether the output indices name the given output rows, one by one.
    pub closed spec fn names(&self, indices: Seq<OutputIndex>, rows: Seq<JoinedRow>) -> bool {
        &&& indices.len() == rows.len()
        &&& forall|t: int|
            0 <= t < indices.len() ==> self.index_valid(#[trigger] indices[t]) && self.global_row(
                indices[t],
            ) == rows[t]
    }

    /// The output indices that name the rows that the next step of making
    /// output decides.
    pub closed spec fn decided(&self) -> Seq<OutputIndex> {
        choose|indices: Seq<OutputIndex>| self.names(indices, self@.partial_rows())
    }

    /// Whether Arrow gives what the next step of making output asks of it:
    /// the batches for the rows that the step decides and, where as many
    /// rows wait then as a batch holds, the batch of all that wait.
    pub closed spec fn arrow_gives(&self) -> bool {
        match self.sources().materialized(self.decided()) {
            Some(made) => self@.after_join_partial().staged >= self.batch_size ==> concatenated(
                *self.schema,
                self.output_record_batches@ + made,
            ) is Some,
            None => false,
        }
    }

    /// Output indices that name the same rows are the same.
    proof fn lemma_names_unique(
        &self,
        one: Seq<OutputIndex>,
        other: Seq<OutputIndex>,
        rows: Seq<JoinedRow>,
    )
        requires
            self.names(one, rows),
            self.names(other, rows),
        ensures
            one == other,
    {
        let batches = self.buffered_data.batches@;
        assert forall|t: int| 0 <= t < one.len() implies one[t] == other[t] by {
            let x = one[t];
            let y = other[t];
            assert(self.index_valid(x) && self.index_valid(y));
            assert(self.global_row(x) == rows[t] && self.global_row(y) == rows[t]);
            if x.buffered_idx is Some {
                let (k, r) = x.buffered_idx->0;
                let (l, q) = y.buffered_idx->0;
                if k < l {
                    lemma_rows_before_monotone(batches, k + 1, l as int);
                }
                if l < k {
                    lemma_rows_before_monotone(batches, l + 1, k as int);
                }
            }
        }
        assert(one =~= other);
    }

    /// The batches that wait to be handed out.
    pub closed spec fn waiting(&self) -> Seq<Batch> {
        self.output_record_batches@
    }

    /// What holds of the join between the calls of its public functions,
    /// unless it has failed.
    pub closed spec fn inv(&self) -> bool {
        &&& self.carries()
        &&& self.streamed_linked()
        &&& self.buffered_linked()
        &&& self.buffered_data.batches_wf()
        &&& self.buffered_data.scan_wf()
        &&& self.queue_fits_state()
        &&& self@.valid()
    }

    /// Whether an output index names a row of the current streamed batch
    /// and a row of a buffered batch held, where it names one at all.
    pub closed spec fn index_valid(&self, index: OutputIndex) -> bool {
        &&& index.streamed_idx matches Some(i) ==> self.streamed_batch is Some && i < batch_rows(
            self.streamed_batch->0,
        ).len()
        &&& index.buffered_idx matches Some((k, r)) ==> k < self.buffered_data.batches@.len() && r
            < self.buffered_data.batches@[k as int].rows()
    }

    /// The output row that an output index stands for, by the positions of
    /// its halves among the rows taken in.
    pub closed spec fn global_row(&self, index: OutputIndex) -> JoinedRow {
        JoinedRow {
            streamed: match index.streamed_idx {
                Some(i) => Some(self.streamed_base@ + i),
                None => None,
            },
            buffered: match index.buffered_idx {
                Some((k, r)) => Some(
                    buffered_slot(
                        self.buffered_base@,
                        self.buffered_data.batches@,
                        k as int,
                        r as int,
                    ),
                ),
                None => None,
            },
        }
    }

    /// Whether the output indices stand for the last rows decided, in order.
    pub closed spec fn indices_pending(&self, indices: Seq<OutputIndex>) -> bool {
        &&& indices.len() <= self.history@.joined.len()
        &&& forall|t: int|
            0 <= t < indices.len() ==> self.index_valid(#[trigger] indices[t]) && self.global_row(
                indices[t],
            ) == self.history@.joined[self.history@.joined.len() - indices.len() + t]
    }

    /// The buffered batches held fit the state of the buffered input, and
    /// the scan stands at the start while no output is made.
    pub closed spec fn queue_fits_state(&self) -> bool {
        let batches = self.buffered_data.batches@;
        &&& match self.buffered_state {
            BufferedState::Init => true,
            BufferedState::PollingFirst | BufferedState::Exhausted => batches.len() == 0,
            BufferedState::PollingRest | BufferedState::Ready => batches.len() > 0
                && batches[0].range_len() > 0,
        }
        &&& self.state == SMJState::Init || self.state == SMJState::Polling ==> {
            &&& self.buffered_data.scanning_batch_idx == 0
            &&& self.buffered_data.scanning_offset == 0
        }
    }

    /// What holds of a join that has not failed, between the calls of its
    /// public functions.
    pub closed spec fn live(&self) -> bool {
        self.inv() && self.output_linked(0) && self.output_size < self.batch_size
    }

    /// What holds of a join that has not failed, between the rounds of its
    /// work: while it fetches, an input has still to settle.
    pub closed spec fn steady(&self) -> bool {
        &&& self.live()
        &&& self.state == SMJState::Polling ==> !self@.settled()
        &&& self@.merged()
    }

    /// What a join that is well formed and has not failed is known to be.
    pub proof fn lemma_wf(&self)
        requires
            self.wf(),
        ensures
            self@.failed || (self@.valid() && self@.merged() && self@.staged < self@.batch_size),
    {
    }

    /// What holds of the join between the calls of its public functions.
    pub closed spec fn wf(&self) -> bool {
        self.failed || self.steady()
    }
}

/// Adds to a counter, stopping at the largest number it can hold.
fn count_up(counter: usize, by: usize) -> (r: usize)
    ensures
        r == if counter + by <= usize::MAX {
            counter + by
        } else {
            usize::MAX as int
        },
{
    if by <= usize::MAX - counter {
        counter + by
    } else {
        usize::MAX
    }
}

/// Whether the key columns have the given element types, column by column.
fn key_columns_match(join_arrays: &Vec<KeyColumn>, types: &Vec<KeyType>) -> (r: bool)
    ensures
        r == (key_types(join_arrays@) == types@),
{
    if join_arrays.len() != types.len() {
        return false;
    }
    let mut c: usize = 0;
    while c < join_arrays.len()
        invariant
            0 <= c <= join_arrays@.len(),
            join_arrays@.len() == types@.len(),
            forall|d: int| 0 <= d < c ==> (#[trigger] join_arrays@[d]).data_type == types@[d],
        decreases join_arrays@.len() - c,
    {
        if !join_arrays[c].data_type.same_as(&types[c]) {
            assert(key_types(join_arrays@)[c as int] != types@[c as int]);
            return false;
        }
        c += 1;
    }
    assert(key_types(join_arrays@) =~= types@);
    true
}

impl SMJStream {
    /// Makes a join of the given kind over inputs whose key columns have the
    /// element types `key_types` and are sorted as `sort_options` say. Rows
    /// are put out under `schema`, in batches of `batch_size` rows; the two
    /// other schemas are those of the inputs.
    pub fn try_new(
        schema: Arc<Schema>,
        sort_options: Vec<SortOptions>,
        null_equals_null: bool,
        streamed_schema: Arc<Schema>,
        buffered_schema: Arc<Schema>,
        key_types: Vec<KeyType>,
        join_type: JoinType,
        batch_size: usize,
        join_metrics: SortMergeJoinMetrics,
    ) -> (r: Result<SMJStream, JoinError>)
        ensures
            match r {
                Ok(s) => {
                    &&& batch_size >= 1
                    &&& sort_options@.len() == key_types@.len()
                    &&& s.wf()
                    &&& schema_flat(*schema)
                    &&& schema_flat(*streamed_schema)
                    &&& schema_flat(*buffered_schema)
                    &&& s.wf()
                    &&& s.metrics_view() == join_metrics
                    &&& s@ == JoinView::initial(
                        join_type,
                        key_types@,
                        sort_options@,
                        null_equals_null,
                        batch_size as int,
                        *schema,
                        schema_width(*streamed_schema),
                        schema_width(*buffered_schema),
                    )
                },
                Err(e) => if batch_size == 0 {
                    e is InvalidBatchSize
                } else if sort_options@.len() != key_types@.len() {
                    e == (JoinError::SortOptionsMismatch {
                        expected: key_types@.len() as usize,
                        actual: sort_options@.len() as usize,
                    })
                } else {
                    &&& !(schema_flat(*schema) && schema_flat(*streamed_schema) && schema_flat(
                        *buffered_schema,
                    ))
                    &&& e is UnsupportedColumns
                },
            },
    {
        if batch_size == 0 {
            return Err(JoinError::InvalidBatchSize);
        }
        if sort_options.len() != key_types.len() {
            return Err(
                JoinError::SortOptionsMismatch {
                    expected: key_types.len(),
                    actual: sort_options.len(),
                },
            );
        }
        if !(is_schema_flat(&schema) && is_schema_flat(&streamed_schema) && is_schema_flat(
            &buffered_schema,
        )) {
            return Err(JoinError::UnsupportedColumns);
        }
        let s = SMJStream {
            state: SMJState::Init,
            schema,
            sort_options,
            null_equals_null,
            key_types,
            streamed_schema,
            buffered_schema,
            streamed: None,
            buffered: None,
            streamed_batch: None,
            streamed_join_arrays: Vec::new(),
            streamed_idx: 0,
            buffered_data: BufferedData::default(),
            streamed_joined: false,
            buffered_joined: false,
            streamed_state: StreamedState::Init,
            buffered_state: BufferedState::Init,
            current_ordering: KeyOrder::Equal,
            output_record_batches: Vec::new(),
            output_size: 0,
            batch_size,
            join_type,
            join_metrics,
            failed: false,
            history: Ghost(
                History {
                    streamed_keys: Seq::empty(),
                    streamed_rows: Seq::empty(),
                    buffered_keys: Seq::empty(),
                    buffered_rows: Seq::empty(),
                    joined: Seq::empty(),
                    emitted: Seq::empty(),
                },
            ),
            streamed_base: Ghost(0),
            buffered_base: Ghost(0),
        };
        proof {
            reveal(streamed_link);
            reveal(buffered_link);
            reveal(output_link);
            lemma_initial_merged(s@);
            let h = s.history@;
            assert(joined_rows(
                s.join_type,
                h.streamed_rows,
                h.buffered_rows,
                s.streamed_width(),
                s.buffered_width(),
                h.joined.take(0),
            ) =~= h.emitted + all_rows(s.output_record_batches@));
        }
        Ok(s)
    }

    /// Whether the join waits for the streamed input to hand it something.
    pub open spec fn wants_streamed(&self) -> bool {
        !self@.failed && self@.streamed_input is None
    }

    /// Whether the join waits for the buffered input to hand it something.
    pub open spec fn wants_buffered(&self) -> bool {
        !self@.failed && self@.buffered_input is None
    }

    /// Hands the join the next item of the streamed input. The join takes it
    /// where it holds none from that input, and says whether it did.
    pub fn push_streamed(&mut self, input: StreamInput) -> (accepted: bool)
        requires
            old(self).wf(),
        ensures
            final(self).wf(),
            accepted == old(self).wants_streamed(),
            accepted ==> final(self)@ == (JoinView { streamed_input: Some(input), ..old(self)@ }),
            !accepted ==> final(self)@ == old(self)@,
    {
        if self.failed || self.streamed.is_some() {
            return false;
        }
        let ghost before = self@;
        self.streamed = Some(input);
        proof {
            lemma_merged_same(before, self@);
        }
        true
    }

    /// Hands the join the next item of the buffered input. The join takes it
    /// where it holds none from that input, and says whether it did.
    pub fn push_buffered(&mut self, input: StreamInput) -> (accepted: bool)
        requires
            old(self).wf(),
        ensures
            final(self).wf(),
            accepted == old(self).wants_buffered(),
            accepted ==> final(self)@ == (JoinView { buffered_input: Some(input), ..old(self)@ }),
            !accepted ==> final(self)@ == old(self)@,
    {
        if self.failed || self.buffered.is_some() {
            return false;
        }
        let ghost before = self@;
        self.buffered = Some(input);
        proof {
            lemma_merged_same(before, self@);
        }
        true
    }
    /// Takes in a batch of the streamed input that has rows, and stands at
    /// the first of them.
    fn take_streamed_batch(&mut self, batch: Batch, join_arrays: Vec<KeyColumn>)
        requires
            old(self).live(),
            old(self)@.state == SMJState::Polling,
            old(self)@.streamed_state == StreamedState::Polling,
            InputBatch::fits(batch, join_arrays@),
            batch_flat(batch),
            key_types(join_arrays@) == old(self)@.key_types,
            batch_rows(batch).len() > 0,
        ensures
            final(self).live(),
            final(self).streamed == old(self).streamed,
            final(self)@ == (JoinView {
                streamed_keys: old(self)@.streamed_keys + batch_keys(batch, join_arrays@),
                streamed_rows: old(self)@.streamed_rows + batch_rows(batch),
                streamed_state: StreamedState::Ready,
                streamed_pos: old(self)@.streamed_keys.len() as int,
                ..old(self)@
            }),
    {
        proof {
            let h = self.history@;
            lemma_streamed_link_at(
                h.streamed_keys,
                h.streamed_rows,
                self.streamed_batch,
                self.streamed_join_arrays@,
                self.streamed_idx as int,
                self.streamed_base@,
                self.key_types@,
            );
            lemma_streamed_link_take(
                h.streamed_keys,
                h.streamed_rows,
                batch,
                join_arrays@,
                self.key_types@,
            );
            lemma_output_link_extend(
                self.join_type,
                h.streamed_rows,
                h.buffered_rows,
                self.streamed_width(),
                self.buffered_width(),
                h.joined,
                h.emitted,
                self.output_record_batches@,
                self.output_width(),
                0,
                batch_rows(batch),
                Seq::empty(),
            );
            assert(h.buffered_rows + Seq::<Row>::empty() =~= h.buffered_rows);
            self.streamed_base@ = h.streamed_keys.len() as int;
            self.history@ = History {
                streamed_keys: h.streamed_keys + batch_keys(batch, join_arrays@),
                streamed_rows: h.streamed_rows + batch_rows(batch),
                ..h
            };
        }
        self.join_metrics.input_batches = count_up(self.join_metrics.input_batches, 1);
        self.join_metrics.input_rows = count_up(
            self.join_metrics.input_rows,
            num_rows(&batch),
        );
        self.streamed_batch = Some(batch);
        self.streamed_join_arrays = join_arrays;
        self.streamed_idx = 0;
        self.streamed_state = StreamedState::Ready;
    }

    /// What the streamed cursor does when it is about to move on: it moves
    /// to the next row of the current batch, or turns to its input.
    fn streamed_next(&mut self) -> (r: Option<RowPoll>)
        requires
            old(self).live(),
            old(self)@.state == SMJState::Polling,
            old(self)@.streamed_state == StreamedState::Init,
        ensures
            final(self).live(),
            final(self)@.state == SMJState::Polling,
            match r {
                Some(p) => old(self)@.streamed_step() == Ok::<(JoinView, RowPoll), JoinError>(
                    (final(self)@, p),
                ),
                None => {
                    &&& final(self)@.streamed_step() == old(self)@.streamed_step()
                    &&& final(self)@.streamed_poll_effort() < old(self)@.streamed_poll_effort()
                },
            },
    {
        proof {
            reveal(JoinView::streamed_step);
        }
        let rows = match &self.streamed_batch {
            Some(batch) => num_rows(batch),
            None => 0,
        };
        proof {
            lemma_streamed_link_at(
                self.history@.streamed_keys,
                self.history@.streamed_rows,
                self.streamed_batch,
                self.streamed_join_arrays@,
                self.streamed_idx as int,
                self.streamed_base@,
                self.key_types@,
            );
        }
        if rows > 0 && self.streamed_idx + 1 < rows {
            proof {
                lemma_streamed_link_move(
                    self.history@.streamed_keys,
                    self.history@.streamed_rows,
                    self.streamed_batch->0,
                    self.streamed_join_arrays@,
                    self.streamed_idx as int,
                    self.streamed_base@,
                    self.key_types@,
                    self.streamed_idx + 1,
                );
            }
            self.streamed_idx += 1;
            self.streamed_state = StreamedState::Ready;
            Some(RowPoll::Ready)
        } else {
            self.streamed_state = StreamedState::Polling;
            None
        }
    }

    /// What the streamed cursor does while it waits for its input. Gives
    /// the cursor's answer, or `None` where the cursor has to go on.
    fn streamed_wait(&mut self) -> (r: Result<Option<RowPoll>, JoinError>)
        requires
            old(self).live(),
            old(self)@.state == SMJState::Polling,
            old(self)@.streamed_state == StreamedState::Polling,
        ensures
            match r {
                Ok(Some(p)) => final(self).live() && old(self)@.streamed_step() == Ok::<
                    (JoinView, RowPoll),
                    JoinError,
                >((final(self)@, p)),
                Ok(None) => {
                    &&& final(self).live()
                    &&& final(self)@.state == SMJState::Polling
                    &&& final(self)@.streamed_step() == old(self)@.streamed_step()
                    &&& final(self)@.streamed_poll_effort() < old(self)@.streamed_poll_effort()
                },
                Err(e) => old(self)@.streamed_step() == Err::<(JoinView, RowPoll), JoinError>(e),
            },
    {
        proof {
            reveal(JoinView::streamed_step);
        }
        match self.streamed.take() {
            None => Ok(Some(RowPoll::Pending)),
            Some(StreamInput::End) => {
                self.streamed = Some(StreamInput::End);
                self.streamed_state = StreamedState::Exhausted;
                Ok(None)
            },
            Some(StreamInput::Failed(e)) => Err(JoinError::Arrow(e)),
            Some(StreamInput::Batch(batch)) => {
                if batch.num_rows() > 0 {
                    let (batch, join_arrays) = batch.into_parts();
                    if !key_columns_match(&join_arrays, &self.key_types) {
                        return Err(JoinError::KeyColumnsMismatch);
                    }
                    self.take_streamed_batch(batch, join_arrays);
                }
                Ok(None)
            },
        }
    }

    /// Moves the streamed cursor to the next row, taking in the next batch
    /// of the streamed input where the current one is used up.
    fn poll_streamed_row(&mut self) -> (r: Result<RowPoll, JoinError>)
        requires
            old(self).live(),
            old(self)@.state == SMJState::Polling,
        ensures
            match r {
                Ok(p) => final(self).live() && old(self)@.streamed_step() == Ok::<
                    (JoinView, RowPoll),
                    JoinError,
                >((final(self)@, p)),
                Err(e) => old(self)@.streamed_step() == Err::<(JoinView, RowPoll), JoinError>(e),
            },
    {
        proof {
            reveal(JoinView::streamed_step);
        }
        loop
            invariant
                self.live(),
                self@.state == SMJState::Polling,
                self@.streamed_step() == old(self)@.streamed_step(),
            decreases self@.streamed_poll_effort(),
        {
            proof {
                reveal(JoinView::streamed_step);
            }
            match self.streamed_state {
                StreamedState::Init => {
                    match self.streamed_next() {
                        Some(p) => {
                            return Ok(p);
                        },
                        None => {},
                    }
                },
                StreamedState::Polling => {
                    match self.streamed_wait() {
                        Err(e) => {
                            return Err(e);
                        },
                        Ok(Some(p)) => {
                            return Ok(p);
                        },
                        Ok(None) => {},
                    }
                },
                StreamedState::Ready => {
                    return Ok(RowPoll::Ready);
                },
                StreamedState::Exhausted => {
                    return Ok(RowPoll::Exhausted);
                },
            }
        }
    }

    /// Lets go of the buffered batches that the last run used up and begins
    /// the next run with the row after it, if that row was taken in.
    fn buffered_init(&mut self)
        requires
            old(self).live(),
            old(self)@.state == SMJState::Polling,
            old(self)@.buffered_state == BufferedState::Init,
        ensures
            final(self).live(),
            final(self)@.buffered_step() == old(self)@.buffered_step(),
            final(self)@ == (JoinView {
                buffered_state: if old(self)@.run_end < old(self)@.buffered_keys.len() {
                    BufferedState::PollingRest
                } else {
                    BufferedState::PollingFirst
                },
                run_start: old(self)@.run_end,
                run_end: if old(self)@.run_end < old(self)@.buffered_keys.len() {
                    old(self)@.run_end + 1
                } else {
                    old(self)@.run_end
                },
                ..old(self)@
            }),
    {
        proof {
            reveal(JoinView::buffered_step);
        }
        let ghost before = self.buffered_data.batches@;
        let ghost h = self.history@;
        let ghost base = self.buffered_base@;
        proof {
            lemma_buffered_link_len(h.buffered_keys, h.buffered_rows, before, base, self.key_types@);
        }
        let n = self.buffered_data.pop_consumed();
        proof {
            lemma_buffered_link_drop(
                h.buffered_keys,
                h.buffered_rows,
                before,
                base,
                self.key_types@,
                n@,
            );
            lemma_rows_before_monotone(before, 0, n@);
            self.buffered_base@ = base + rows_before(before, n@);
            if n@ < before.len() {
                lemma_rows_before_drop(before, n@, 1);
                assert(rows_before(before, n@ + 1) == rows_before(before, n@) + before[n@].rows());
            } else if n@ > 0 {
                assert(rows_before(before, n@) == rows_before(before, n@ - 1) + before[n@
                    - 1].rows());
            }
        }
        if self.buffered_data.batches.len() == 0 {
            self.buffered_state = BufferedState::PollingFirst;
        } else {
            let ghost rest = self.buffered_data.batches@;
            assert(rest[0] == before[n@]);
            self.buffered_data.start_next_run();
            proof {
                lemma_buffered_link_same(
                    h.buffered_keys,
                    h.buffered_rows,
                    rest,
                    self.buffered_base@,
                    self.key_types@,
                    self.buffered_data.batches@,
                );
                lemma_buffered_link_len(
                    h.buffered_keys,
                    h.buffered_rows,
                    self.buffered_data.batches@,
                    self.buffered_base@,
                    self.key_types@,
                );
                lemma_rows_before_same(rest, self.buffered_data.batches@, 1);
                assert(rows_before(rest, 1) == rows_before(rest, 0) + rest[0].rows());
                assert(rows_before(self.buffered_data.batches@, 0) == 0);
                assert(run_rows_before(self.buffered_data.batches@, 0) == 0);
            }
            self.buffered_state = BufferedState::PollingRest;
        }
        proof {
            assert(run_rows_before(self.buffered_data.batches@, 0) == 0);
            assert(rows_before(self.buffered_data.batches@, 0) == 0);
        }
    }

    /// Takes in a batch of the buffered input that has rows. Where no run
    /// was begun, its first row begins one.
    fn take_buffered_batch(&mut self, batch: InputBatch)
        requires
            old(self).live(),
            old(self)@.state == SMJState::Polling,
            old(self)@.buffered_state == BufferedState::PollingFirst || old(self)@.buffered_state
                == BufferedState::PollingRest,
            old(self)@.run_end == old(self)@.buffered_keys.len(),
            key_types(batch.keys_view()) == old(self)@.key_types,
            batch_rows(batch.batch_view()).len() > 0,
        ensures
            final(self).live(),
            final(self).buffered == old(self).buffered,
            final(self)@ == (JoinView {
                buffered_keys: old(self)@.buffered_keys + batch_keys(
                    batch.batch_view(),
                    batch.keys_view(),
                ),
                buffered_rows: old(self)@.buffered_rows + batch_rows(batch.batch_view()),
                buffered_state: BufferedState::PollingRest,
                run_end: if old(self)@.buffered_state == BufferedState::PollingFirst {
                    old(self)@.run_end + 1
                } else {
                    old(self)@.run_end
                },
                ..old(self)@
            }),
    {
        let ghost before = self.buffered_data.batches@;
        let ghost h = self.history@;
        let ghost base = self.buffered_base@;
        let ghost types = self.key_types@;
        let ghost run_start = self@.run_start;
        let ghost run_end = self@.run_end;
        let rows = batch.num_rows();
        let end: usize = match self.buffered_state {
            BufferedState::PollingFirst => 1,
            _ => 0,
        };
        let buffered_batch = BufferedBatch::new(batch, 0..end);
        proof {
            lemma_buffered_link_len(h.buffered_keys, h.buffered_rows, before, base, types);
            if before.len() > 0 {
                assert(rows_before(before, before.len() as int) == rows_before(
                    before,
                    before.len() - 1,
                ) + before.last().rows());
            } else {
                assert(rows_before(before, 0) == 0);
            }
            lemma_buffered_link_push(
                h.buffered_keys,
                h.buffered_rows,
                before,
                base,
                types,
                buffered_batch,
            );
            lemma_output_link_extend(
                self.join_type,
                h.streamed_rows,
                h.buffered_rows,
                self.streamed_width(),
                self.buffered_width(),
                h.joined,
                h.emitted,
                self.output_record_batches@,
                self.output_width(),
                0,
                Seq::empty(),
                batch_rows(buffered_batch.batch),
            );
            assert(h.streamed_rows + Seq::<Row>::empty() =~= h.streamed_rows);
            self.history@ = History {
                buffered_keys: h.buffered_keys + batch_keys(
                    buffered_batch.batch,
                    buffered_batch.join_arrays@,
                ),
                buffered_rows: h.buffered_rows + batch_rows(buffered_batch.batch),
                ..h
            };
        }
        self.join_metrics.input_batches = count_up(self.join_metrics.input_batches, 1);
        self.join_metrics.input_rows = count_up(self.join_metrics.input_rows, rows);
        self.buffered_data.batches.push_back(buffered_batch);
        self.buffered_state = BufferedState::PollingRest;
        proof {
            let after = self.buffered_data.batches@;
            let more = self.history@.buffered_keys;
            lemma_rows_before_same(before, after, before.len() as int);
            assert(rows_before(after, 0) == 0);
            assert(run_rows_before(after, 0) == 0);
            assert forall|k: int| 0 <= k < after.len() implies (#[trigger] after[k]).wf() by {
                if k < before.len() {
                    assert(after[k] == before[k]);
                }
            }
            assert forall|k: int| 0 <= k < after.len() - 1 implies (#[trigger] after[k]).range.end
                == after[k].rows() by {
                assert(after[k] == before[k]);
            }
            assert forall|k: int| 1 <= k < after.len() implies (#[trigger] after[k]).range.start
                == 0 by {
                if k < before.len() {
                    assert(after[k] == before[k]);
                }
            }
            assert forall|j: int| run_start < j < self@.run_end implies #[trigger] rows_same(
                types,
                more,
                run_start,
                j,
            ) by {
                if j < run_end {
                    assert(rows_same(types, h.buffered_keys, run_start, j));
                    assert(more[j] == h.buffered_keys[j]);
                    assert(more[run_start] == h.buffered_keys[run_start]);
                }
            }
        }
    }

    /// Grows the run through the rows taken in, as far as they have the
    /// key of the run. Says whether a row with another key closed the run.
    fn grow_run(&mut self) -> (r: Result<bool, JoinError>)
        requires
            old(self).live(),
            old(self)@.state == SMJState::Polling,
            old(self)@.buffered_state == BufferedState::PollingRest,
        ensures
            match r {
                Ok(met) => {
                    &&& final(self).live()
                    &&& met == (final(self)@.run_end < old(self)@.buffered_keys.len())
                    &&& final(self)@.buffered_step() == old(self)@.buffered_step()
                    &&& final(self)@ == (JoinView {
                        run_end: run_stop(
                            old(self)@.key_types,
                            old(self)@.buffered_keys,
                            old(self)@.run_start,
                            old(self)@.run_end,
                        ),
                        buffered_state: if met {
                            BufferedState::Ready
                        } else {
                            BufferedState::PollingRest
                        },
                        ..old(self)@
                    })
                },
                Err(e) => old(self)@.buffered_step() == Err::<(JoinView, RowPoll), JoinError>(e),
            },
    {
        proof {
            reveal(JoinView::buffered_step);
        }
        let ghost before = self.buffered_data;
        let ghost batches = self.buffered_data.batches@;
        let ghost h = self.history@;
        let ghost base = self.buffered_base@;
        let ghost types = self.key_types@;
        let ghost view = self@;
        let ghost last = batches.len() - 1;
        let ghost offset = base + rows_before(batches, last);
        proof {
            lemma_buffered_link_len(h.buffered_keys, h.buffered_rows, batches, base, types);
            lemma_buffered_link_at(
                h.buffered_keys,
                h.buffered_rows,
                batches,
                base,
                types,
                0,
                batches[0].range.start as int,
            );
            assert(rows_before(batches, 0) == 0);
            assert(rows_before(batches, last + 1) == rows_before(batches, last)
                + batches.last().rows());
            assert(batches.last().wf());
        }
        let met = self.buffered_data.extend_run();
        proof {
            let after = self.buffered_data.batches@;
            let stop = offset + after.last().range.end;
            lemma_buffered_link_same(h.buffered_keys, h.buffered_rows, batches, base, types, after);
            lemma_rows_before_same(batches, after, last);
            assert(rows_before(after, 0) == 0);
            assert(run_rows_before(after, 0) == 0);
            assert forall|j: int| view.run_end <= j < stop implies #[trigger] rows_same(
                types,
                h.buffered_keys,
                view.run_start,
                j,
            ) by {
                let row = j - offset;
                assert(before.has_run_key(row) == Some(true));
                lemma_buffered_link_at(h.buffered_keys, h.buffered_rows, batches, base, types, last, row);
            }
            lemma_run_stop_skip(types, h.buffered_keys, view.run_start, view.run_end, stop);
            if stop < h.buffered_keys.len() {
                lemma_buffered_link_at(
                    h.buffered_keys,
                    h.buffered_rows,
                    batches,
                    base,
                    types,
                    last,
                    after.last().range.end as int,
                );
            }
        }
        match met {
            Err(e) => Err(JoinError::from_key_error(e)),
            Ok(met) => {
                if met {
                    self.buffered_state = BufferedState::Ready;
                }
                Ok(met)
            },
        }
    }

    /// What the cursor does while it waits for the batch that holds the
    /// first row of the next run. Gives the cursor's answer, or `None` where
    /// the cursor has to go on.
    fn buffered_first(&mut self) -> (r: Result<Option<RowPoll>, JoinError>)
        requires
            old(self).live(),
            old(self)@.state == SMJState::Polling,
            old(self)@.buffered_state == BufferedState::PollingFirst,
        ensures
            match r {
                Ok(Some(p)) => final(self).live() && old(self)@.buffered_step() == Ok::<
                    (JoinView, RowPoll),
                    JoinError,
                >((final(self)@, p)),
                Ok(None) => {
                    &&& final(self).live()
                    &&& final(self)@.state == SMJState::Polling
                    &&& final(self)@.buffered_step() == old(self)@.buffered_step()
                    &&& final(self)@.buffered_effort() < old(self)@.buffered_effort()
                },
                Err(e) => old(self)@.buffered_step() == Err::<(JoinView, RowPoll), JoinError>(e),
            },
    {
        proof {
            reveal(JoinView::buffered_step);
        }
        match self.buffered.take() {
            None => Ok(Some(RowPoll::Pending)),
            Some(StreamInput::End) => {
                self.buffered = Some(StreamInput::End);
                self.buffered_state = BufferedState::Exhausted;
                Ok(Some(RowPoll::Exhausted))
            },
            Some(StreamInput::Failed(e)) => Err(JoinError::Arrow(e)),
            Some(StreamInput::Batch(batch)) => {
                if batch.num_rows() > 0 {
                    if !key_columns_match(batch.join_arrays(), &self.key_types) {
                        return Err(JoinError::KeyColumnsMismatch);
                    }
                    self.take_buffered_batch(batch);
                }
                Ok(None)
            },
        }
    }

    /// What the cursor does while it collects the rest of a run. Gives the
    /// cursor's answer, or `None` where the cursor has to go on.
    fn buffered_rest(&mut self) -> (r: Result<Option<RowPoll>, JoinError>)
        requires
            old(self).live(),
            old(self)@.state == SMJState::Polling,
            old(self)@.buffered_state == BufferedState::PollingRest,
        ensures
            match r {
                Ok(Some(p)) => final(self).live() && old(self)@.buffered_step() == Ok::<
                    (JoinView, RowPoll),
                    JoinError,
                >((final(self)@, p)),
                Ok(None) => {
                    &&& final(self).live()
                    &&& final(self)@.state == SMJState::Polling
                    &&& final(self)@.buffered_step() == old(self)@.buffered_step()
                    &&& final(self)@.buffered_effort() < old(self)@.buffered_effort()
                },
                Err(e) => old(self)@.buffered_step() == Err::<(JoinView, RowPoll), JoinError>(e),
            },
    {
        proof {
            reveal(JoinView::buffered_step);
        }
        proof {
            let batches = self.buffered_data.batches@;
            lemma_buffered_link_len(
                self.history@.buffered_keys,
                self.history@.buffered_rows,
                batches,
                self.buffered_base@,
                self.key_types@,
            );
            assert(rows_before(batches, batches.len() as int) == rows_before(
                batches,
                batches.len() - 1,
            ) + batches.last().rows());
        }
        if self.buffered_data.tail_batch().range.end < num_rows(
            &self.buffered_data.tail_batch().batch,
        ) {
            match self.grow_run() {
                Err(e) => Err(e),
                Ok(true) => Ok(Some(RowPoll::Ready)),
                Ok(false) => Ok(None),
            }
        } else {
            match self.buffered.take() {
                None => Ok(Some(RowPoll::Pending)),
                Some(StreamInput::End) => {
                    self.buffered = Some(StreamInput::End);
                    self.buffered_state = BufferedState::Ready;
                    Ok(None)
                },
                Some(StreamInput::Failed(e)) => Err(JoinError::Arrow(e)),
                Some(StreamInput::Batch(batch)) => {
                    if batch.num_rows() > 0 {
                        if !key_columns_match(batch.join_arrays(), &self.key_types) {
                            return Err(JoinError::KeyColumnsMismatch);
                        }
                        self.take_buffered_batch(batch);
                    }
                    Ok(None)
                },
            }
        }
    }

    /// Collects the next run of the buffered input, taking in the next
    /// batches of the input as far as the run needs them.
    fn poll_buffered_batches(&mut self) -> (r: Result<RowPoll, JoinError>)
        requires
            old(self).live(),
            old(self)@.state == SMJState::Polling,
        ensures
            match r {
                Ok(p) => final(self).live() && old(self)@.buffered_step() == Ok::<
                    (JoinView, RowPoll),
                    JoinError,
                >((final(self)@, p)),
                Err(e) => old(self)@.buffered_step() == Err::<(JoinView, RowPoll), JoinError>(e),
            },
    {
        proof {
            reveal(JoinView::buffered_step);
        }
        loop
            invariant
                self.live(),
                self@.state == SMJState::Polling,
                self@.buffered_step() == old(self)@.buffered_step(),
            decreases self@.buffered_effort(),
        {
            proof {
                reveal(JoinView::buffered_step);
            }
            match self.buffered_state {
                BufferedState::Init => {
                    self.buffered_init();
                },
                BufferedState::PollingFirst => {
                    match self.buffered_first() {
                        Err(e) => {
                            return Err(e);
                        },
                        Ok(Some(p)) => {
                            return Ok(p);
                        },
                        Ok(None) => {},
                    }
                },
                BufferedState::PollingRest => {
                    match self.buffered_rest() {
                        Err(e) => {
                            return Err(e);
                        },
                        Ok(Some(p)) => {
                            return Ok(p);
                        },
                        Ok(None) => {},
                    }
                },
                BufferedState::Ready => {
                    return Ok(RowPoll::Ready);
                },
                BufferedState::Exhausted => {
                    return Ok(RowPoll::Exhausted);
                },
            }
        }
    }

    /// Compares the current streamed row with the current buffered run.
    fn compare_streamed_buffered(&self) -> (r: Result<KeyOrder, JoinError>)
        requires
            self.live(),
            self@.settled(),
        ensures
            match self@.ordering() {
                Some(o) => r == Ok::<KeyOrder, JoinError>(o),
                None => r matches Err(e) && e is UnsupportedType,
            },
    {
        match self.streamed_state {
            StreamedState::Exhausted => {
                return Ok(KeyOrder::Greater);
            },
            _ => {},
        }
        proof {
            let batches = self.buffered_data.batches@;
            if batches.len() > 0 {
                lemma_run_span(self.buffered_data, batches.len() as int);
                BufferedData::lemma_run_rows_monotone(batches, 1, batches.len() as int);
                assert(run_rows_before(batches, 1) == run_rows_before(batches, 0)
                    + batches[0].range_len());
                assert(run_rows_before(batches, 0) == 0);
            }
        }
        if !self.buffered_data.has_buffered_rows() {
            return Ok(KeyOrder::Less);
        }
        proof {
            let batches = self.buffered_data.batches@;
            let h = self.history@;
            lemma_streamed_link_at(
                h.streamed_keys,
                h.streamed_rows,
                self.streamed_batch,
                self.streamed_join_arrays@,
                self.streamed_idx as int,
                self.streamed_base@,
                self.key_types@,
            );
            lemma_buffered_link_at(
                h.buffered_keys,
                h.buffered_rows,
                batches,
                self.buffered_base@,
                self.key_types@,
                0,
                batches[0].range.start as int,
            );
            assert(rows_before(batches, 0) == 0);
            assert(batches[0].wf());
        }
        let head_batch = self.buffered_data.head_batch();
        match compare_join_arrays(
            &self.streamed_join_arrays,
            self.streamed_idx,
            &head_batch.join_arrays,
            head_batch.range.start,
            &self.sort_options,
            self.null_equals_null,
        ) {
            Ok(o) => Ok(o),
            Err(e) => Err(JoinError::from_key_error(e)),
        }
    }

    /// Decides one output row: the row of the run at which the scan stands,
    /// beside the given streamed row or beside nulls. Moves the scan on, and
    /// notes what was joined when the scan has passed the run.
    fn scan_one(&mut self, streamed_idx: Option<usize>, join_streamed: bool, Ghost(pending): Ghost<
        int,
    >) -> (index: OutputIndex)
        requires
            old(self).inv(),
            old(self).output_linked(pending),
            old(self)@.state == SMJState::JoinOutput,
            old(self)@.scanned < old(self)@.run_end - old(self)@.run_start,
            old(self).output_size < old(self).batch_size,
            streamed_idx matches Some(i) ==> i == old(self).streamed_idx && old(self)@.streamed_pos
                >= 0,
        ensures
            final(self).sources() == old(self).sources(),
            final(self).bases() == old(self).bases(),
            final(self).waiting() == old(self).waiting(),
            final(self).inv(),
            final(self).output_linked(pending + 1),
            final(self).output_size == old(self).output_size + 1,
            final(self).batch_size == old(self).batch_size,
            final(self)@ == (JoinView {
                joined: old(self)@.joined.push(final(self).global_row(index)),
                staged: old(self)@.staged + 1,
                scanned: old(self)@.scanned + 1,
                streamed_joined: if old(self)@.scanned + 1 == old(self)@.run_end - old(self)@.run_start {
                    join_streamed
                } else {
                    old(self)@.streamed_joined
                },
                buffered_joined: if old(self)@.scanned + 1 == old(self)@.run_end - old(self)@.run_start {
                    true
                } else {
                    old(self)@.buffered_joined
                },
                ..old(self)@
            }),
            final(self).index_valid(index),
            final(self).global_row(index) == (JoinedRow {
                streamed: match streamed_idx {
                    Some(i) => Some(old(self)@.streamed_pos),
                    None => None,
                },
                buffered: Some(old(self)@.run_start + old(self)@.scanned),
            }),
            index.streamed_idx == streamed_idx,
            index.buffered_idx is Some,
            forall|x: OutputIndex| #[trigger]
                final(self).index_valid(x) == old(self).index_valid(x),
            forall|x: OutputIndex| #[trigger] final(self).global_row(x) == old(self).global_row(x),
    {
        let ghost h = self.history@;
        let ghost data = self.buffered_data;
        proof {
            data.lemma_scanned();
            if data.batches@.len() > 0 {
                lemma_run_len(data);
            }
            lemma_scan_slot(data, self.buffered_base@);
            lemma_buffered_link_at(
                h.buffered_keys,
                h.buffered_rows,
                data.batches@,
                self.buffered_base@,
                self.key_types@,
                data.scanning_batch_idx as int,
                data.batches@[data.scanning_batch_idx as int].range.start + data.scanning_offset,
            );
            lemma_streamed_link_at(
                h.streamed_keys,
                h.streamed_rows,
                self.streamed_batch,
                self.streamed_join_arrays@,
                self.streamed_idx as int,
                self.streamed_base@,
                self.key_types@,
            );
        }
        let index = OutputIndex {
            streamed_idx,
            buffered_idx: Some(
                (self.buffered_data.scanning_batch_idx, self.buffered_data.scanning_idx()),
            ),
        };
        proof {
            let row = self.global_row(index);
            lemma_output_link_decide(
                self.join_type,
                h.streamed_rows,
                h.buffered_rows,
                self.streamed_width(),
                self.buffered_width(),
                h.joined,
                h.emitted,
                self.output_record_batches@,
                self.output_width(),
                pending,
                row,
            );
            self.history@ = History { joined: h.joined.push(row), ..h };
        }
        self.output_size += 1;
        self.buffered_data.scanning_advance();
        if self.buffered_data.scanning_finished() {
            self.streamed_joined = join_streamed;
            self.buffered_joined = true;
        }
        proof {
            self.buffered_data.lemma_scanned();
        }
        index
    }

    /// Decides the next output rows for the current streamed row and the
    /// current buffered run, until the output batch is full or the run is
    /// scanned through.
    #[verifier::rlimit(40)]
    fn join_partial(&mut self) -> (output_indices: Vec<OutputIndex>)
        requires
            old(self).live(),
            old(self)@.state == SMJState::JoinOutput,
        ensures
            final(self).sources() == old(self).sources(),
            final(self).bases() == old(self).bases(),
            final(self).waiting() == old(self).waiting(),
            final(self).inv(),
            final(self).output_linked(output_indices@.len() as int),
            final(self).output_size <= final(self).batch_size,
            final(self)@ == old(self)@.after_join_partial(),
            final(self)@.follows(old(self)@),
            final(self)@.effort() == old(self)@.effort(),
            final(self)@.emitted == old(self)@.emitted,
            final(self)@.state == SMJState::JoinOutput,
            final(self)@.batch_size == old(self)@.batch_size,
            final(self).output_size < final(self).batch_size ==> final(self)@.scanned
                == final(self)@.run_end - final(self)@.run_start,
            output_indices@.len() > 0 ==> (old(self)@.joins_streamed()
                || old(self)@.joins_buffered()),
            final(self).indices_pending(output_indices@),
            output_indices@.len() == old(self)@.partial_rows().len(),
            forall|t: int|
                0 <= t < output_indices@.len() ==> ((#[trigger] output_indices@[t]).streamed_idx
                    is Some) == old(self)@.joins_streamed() && (output_indices@[t].buffered_idx
                    is Some) == old(self)@.joins_buffered(),
    {
        proof {
            reveal(JoinView::after_join_partial);
            reveal(JoinView::partial_rows);
        }
        let ghost pre = self@;
        proof {
            reveal(JoinView::follows);
        }
        let mut join_streamed = false;
        let mut join_buffered = false;
        match self.current_ordering {
            KeyOrder::Less => {
                match self.join_type {
                    JoinType::Left | JoinType::Right | JoinType::Full | JoinType::Anti => {
                        join_streamed = !self.streamed_joined;
                    },
                    _ => {},
                }
            },
            KeyOrder::Equal => {
                match self.join_type {
                    JoinType::Semi => {
                        join_streamed = !self.streamed_joined;
                    },
                    _ => {},
                }
                match self.join_type {
                    JoinType::Inner | JoinType::Left | JoinType::Right | JoinType::Full => {
                        join_streamed = true;
                        join_buffered = true;
                    },
                    _ => {},
                }
            },
            KeyOrder::Greater => {
                match self.join_type {
                    JoinType::Full => {
                        join_buffered = !self.buffered_joined;
                    },
                    _ => {},
                }
            },
        }
        assert(join_streamed == pre.joins_streamed());
        assert(join_buffered == pre.joins_buffered());
        proof {
            self.buffered_data.lemma_scanned();
            if self.buffered_data.batches@.len() > 0 {
                lemma_run_len(self.buffered_data);
            } else {
                assert(run_rows_before(self.buffered_data.batches@, 0) == 0);
            }
            reveal(output_link);
        }
        if !join_streamed && !join_buffered {
            self.buffered_data.scanning_finish();
            return Vec::new();
        }
        let mut output_indices: Vec<OutputIndex> = Vec::new();
        if join_buffered {
            let streamed_idx = if join_streamed {
                Some(self.streamed_idx)
            } else {
                None
            };
            let ghost rows = pre.partial_rows();
            assert(pre.joined + rows.take(0) =~= pre.joined);
            while !self.buffered_data.scanning_finished() && self.output_size < self.batch_size
                invariant
                    self.sources() == old(self).sources(),
                    self.bases() == old(self).bases(),
                    self.waiting() == old(self).waiting(),
                    self.inv(),
                    self.output_linked(output_indices@.len() as int),
                    self.output_size <= self.batch_size,
                    self@.state == SMJState::JoinOutput,
                    pre.valid(),
                    pre.joins_buffered(),
                    join_streamed == pre.joins_streamed(),
                    rows == pre.partial_rows(),
                    pre.staged < pre.batch_size,
                    streamed_idx matches Some(i) ==> i == self.streamed_idx && pre.streamed_pos >= 0,
                    streamed_idx is Some == join_streamed,
                    output_indices@.len() <= rows.len(),
                    self.indices_pending(output_indices@),
                    self.buffered_data.scanning_batch_idx == self.buffered_data.batches@.len()
                        <==> self@.scanned == pre.run_end - pre.run_start,
                    forall|t: int|
                        0 <= t < output_indices@.len() ==> (#[trigger] output_indices@[t]).streamed_idx
                            == streamed_idx && output_indices@[t].buffered_idx is Some,
                    self@ == (JoinView {
                        joined: pre.joined + rows.take(output_indices@.len() as int),
                        staged: pre.staged + output_indices@.len(),
                        scanned: pre.scanned + output_indices@.len(),
                        streamed_joined: if output_indices@.len() > 0 && pre.scanned
                            + output_indices@.len() == pre.run_end - pre.run_start {
                            join_streamed
                        } else {
                            pre.streamed_joined
                        },
                        buffered_joined: if output_indices@.len() > 0 && pre.scanned
                            + output_indices@.len() == pre.run_end - pre.run_start {
                            true
                        } else {
                            pre.buffered_joined
                        },
                        ..pre
                    }),
                decreases pre.run_end - pre.run_start - self@.scanned,
            {
                proof {
                    reveal(JoinView::after_join_partial);
                    reveal(JoinView::partial_rows);
                }
                let ghost before = *self;
                let ghost count = output_indices@.len() as int;
                let index = self.scan_one(streamed_idx, join_streamed, Ghost(count));
                output_indices.push(index);
                proof {
                    self.buffered_data.lemma_scanned();
                    if self.buffered_data.batches@.len() > 0 {
                        lemma_run_len(self.buffered_data);
                    }
                    assert(rows[count] == self.global_row(index));
                    assert(rows.take(count + 1) =~= rows.take(count).push(rows[count]));
                    assert(pre.joined + rows.take(count + 1) =~= (pre.joined + rows.take(
                        count,
                    )).push(rows[count]));
                    assert forall|t: int| 0 <= t < output_indices@.len() implies self.index_valid(
                        #[trigger] output_indices@[t],
                    ) && self.global_row(output_indices@[t]) == self.history@.joined[
                        self.history@.joined.len() - output_indices@.len() + t
                    ] by {
                        if t < count {
                            assert(before.index_valid(output_indices@[t]));
                            assert(before.global_row(output_indices@[t])
                                == before.history@.joined[before.history@.joined.len() - count
                                + t]);
                        }
                    }
                }
            }
            proof {
                assert(output_indices@.len() == rows.len());
                assert(rows.take(rows.len() as int) =~= rows);
            }
        } else {
            proof {
                let h = self.history@;
                lemma_streamed_link_at(
                    h.streamed_keys,
                    h.streamed_rows,
                    self.streamed_batch,
                    self.streamed_join_arrays@,
                    self.streamed_idx as int,
                    self.streamed_base@,
                    self.key_types@,
                );
            }
            let index = OutputIndex { streamed_idx: Some(self.streamed_idx), buffered_idx: None };
            output_indices.push(index);
            proof {
                let h = self.history@;
                let row = self.global_row(index);
                lemma_output_link_decide(
                    self.join_type,
                    h.streamed_rows,
                    h.buffered_rows,
                    self.streamed_width(),
                    self.buffered_width(),
                    h.joined,
                    h.emitted,
                    self.output_record_batches@,
                    self.output_width(),
                    0,
                    row,
                );
                self.history@ = History { joined: h.joined.push(row), ..h };
                assert(pre.joined + pre.partial_rows() =~= pre.joined.push(row));
            }
            self.output_size += 1;
            self.buffered_data.scanning_finish();
            self.streamed_joined = true;
        }
        output_indices
    }

    /// Whether the output indices stand for the next rows decided that
    /// are not yet in a batch, when `pending` rows are not.
    pub closed spec fn indices_next(&self, indices: Seq<OutputIndex>, pending: int) -> bool {
        &&& indices.len() <= pending <= self.history@.joined.len()
        &&& forall|t: int|
            0 <= t < indices.len() ==> self.index_valid(#[trigger] indices[t]) && self.global_row(
                indices[t],
            ) == self.history@.joined[self.history@.joined.len() - pending + t]
    }

    /// Adds to the batches that wait a batch of streamed rows beside rows of
    /// one buffered batch, a row for each of the indices.
    fn output_joined(
        &mut self,
        buffered_batch_idx: usize,
        indices: &Vec<OutputIndex>,
        Ghost(pending): Ghost<int>,
    ) -> (r: Result<(), JoinError>)
        requires
            old(self).inv(),
            old(self).output_linked(pending),
            old(self).indices_next(indices@, pending),
            !old(self)@.join_type.streamed_columns_only(),
            forall|t: int|
                0 <= t < indices@.len() ==> (#[trigger] indices@[t]).pairs_with(
                    buffered_batch_idx,
                ),
        ensures
            final(self).sources() == old(self).sources(),
            indices@.len() == 0 ==> r is Ok && final(self).waiting() == old(self).waiting(),
            indices@.len() > 0 ==> (r is Ok <==> old(self).sources().pair_batch(indices@) is Some),
            indices@.len() > 0 && r is Ok ==> final(self).waiting() == old(self).waiting().push(
                old(self).sources().pair_batch(indices@)->0,
            ),
            r matches Err(e) ==> e is Arrow,
            r is Ok ==> {
                &&& final(self).inv()
                &&& final(self).output_linked(pending - indices@.len())
                &&& final(self)@ == old(self)@
                &&& final(self).output_size == old(self).output_size
                &&& final(self).batch_size == old(self).batch_size
                &&& final(self).history@ == old(self).history@
                &&& forall|x: OutputIndex| #[trigger]
                    final(self).index_valid(x) == old(self).index_valid(x)
                &&& forall|x: OutputIndex| #[trigger]
                    final(self).global_row(x) == old(self).global_row(x)
            },
    {
        if indices.len() == 0 {
            return Ok(());
        }
        let mut streamed_indices: Vec<usize> = Vec::new();
        let mut buffered_indices: Vec<usize> = Vec::new();
        let mut t: usize = 0;
        while t < indices.len()
            invariant
                0 <= t <= indices@.len(),
                streamed_indices@.len() == t,
                buffered_indices@.len() == t,
                forall|u: int|
                    0 <= u < indices@.len() ==> (#[trigger] indices@[u]).pairs_with(
                        buffered_batch_idx,
                    ),
                forall|u: int|
                    0 <= u < t ==> indices@[u].streamed_idx == Some(#[trigger] streamed_indices@[u]),
                forall|u: int|
                    0 <= u < t ==> indices@[u].buffered_idx == Some(
                        (buffered_batch_idx, #[trigger] buffered_indices@[u]),
                    ),
            decreases indices@.len() - t,
        {
            let index = indices[t];
            match (index.streamed_idx, index.buffered_idx) {
                (Some(i), Some(b)) => {
                    streamed_indices.push(i);
                    buffered_indices.push(b.1);
                },
                _ => {},
            }
            t += 1;
        }
        proof {
            assert(streamed_indices@ =~= streamed_of(indices@));
            assert(buffered_indices@ =~= buffered_of(indices@));
            assert(batch_of(indices@[0]) == buffered_batch_idx);
        }
        let ghost h = self.history@;
        let ghost batches = self.buffered_data.batches@;
        let ghost start = h.joined.len() - pending;
        let ghost rows = h.joined.subrange(start, start + indices@.len());
        assert(self.index_valid(indices@[0]));
        match &self.streamed_batch {
            None => Ok(()),
            Some(streamed_batch) => {
                proof {
                    assert forall|u: int| 0 <= u < streamed_indices@.len() implies (
                    #[trigger] streamed_indices@[u]) < batch_rows(*streamed_batch).len() by {
                        assert(self.index_valid(indices@[u]));
                    }
                    assert forall|u: int| 0 <= u < buffered_indices@.len() implies (
                    #[trigger] buffered_indices@[u]) < batch_rows(
                        batches[buffered_batch_idx as int].batch,
                    ).len() by {
                        assert(self.index_valid(indices@[u]));
                    }
                }
                let streamed_columns = match take_rows(streamed_batch, &streamed_indices) {
                    Ok(b) => b,
                    Err(e) => {
                        return Err(JoinError::Arrow(e));
                    },
                };
                let buffered_columns = match take_rows(
                    &self.buffered_data.batches[buffered_batch_idx].batch,
                    &buffered_indices,
                ) {
                    Ok(b) => b,
                    Err(e) => {
                        return Err(JoinError::Arrow(e));
                    },
                };
                let assembled = match self.join_type {
                    JoinType::Right => assemble(
                        &self.schema,
                        &buffered_columns,
                        Some(&streamed_columns),
                    ),
                    _ => assemble(&self.schema, &streamed_columns, Some(&buffered_columns)),
                };
                let record_batch = match assembled {
                    Ok(b) => b,
                    Err(e) => {
                        return Err(JoinError::Arrow(e));
                    },
                };
                proof {
                    let expected = joined_rows(
                        self.join_type,
                        h.streamed_rows,
                        h.buffered_rows,
                        self.streamed_width(),
                        self.buffered_width(),
                        rows,
                    );
                    assert forall|u: int| 0 <= u < indices@.len() implies #[trigger] batch_rows(
                        record_batch,
                    )[u] == expected[u] by {
                        let index = indices@[u];
                        assert(self.index_valid(index));
                        assert(self.global_row(index) == h.joined[start + u]);
                        assert(rows[u] == h.joined[start + u]);
                        lemma_streamed_link_row(
                            h.streamed_keys,
                            h.streamed_rows,
                            *streamed_batch,
                            self.streamed_join_arrays@,
                            self.streamed_idx as int,
                            self.streamed_base@,
                            self.key_types@,
                            streamed_indices@[u] as int,
                        );
                        lemma_buffered_link_at(
                            h.buffered_keys,
                            h.buffered_rows,
                            batches,
                            self.buffered_base@,
                            self.key_types@,
                            buffered_batch_idx as int,
                            buffered_indices@[u] as int,
                        );
                    }
                    assert(batch_rows(record_batch) =~= expected);
                    lemma_output_link_stage(
                        self.join_type,
                        h.streamed_rows,
                        h.buffered_rows,
                        self.streamed_width(),
                        self.buffered_width(),
                        h.joined,
                        h.emitted,
                        self.output_record_batches@,
                        self.output_width(),
                        pending,
                        record_batch,
                        indices@.len() as int,
                    );
                }
                self.output_record_batches.push(record_batch);
                Ok(())
            },
        }
    }

    /// Adds to the batches that wait the rows that pair a streamed row with
    /// a buffered row: a batch for each stretch of indices that name one
    /// buffered batch. Indices of another kind are passed over.
    fn output_partial_streamed_joining_buffered(
        &mut self,
        output_indices: &Vec<OutputIndex>,
        Ghost(pending): Ghost<int>,
    ) -> (r: Result<(), JoinError>)
        requires
            old(self).inv(),
            old(self).output_linked(pending),
            0 <= pending <= old(self).history@.joined.len(),
            !old(self)@.join_type.streamed_columns_only(),
            (forall|t: int| 0 <= t < output_indices@.len() ==> !(#[trigger] output_indices@[t]).is_pair())
                || (pending == output_indices@.len() && old(self).indices_next(
                output_indices@,
                pending,
            ) && forall|t: int|
                0 <= t < output_indices@.len() ==> (#[trigger] output_indices@[t]).is_pair()),
        ensures
            final(self).sources() == old(self).sources(),
            !(output_indices@.len() > 0 && output_indices@[0].is_pair()) ==> r is Ok
                && final(self).waiting() == old(self).waiting(),
            output_indices@.len() > 0 && output_indices@[0].is_pair() ==> (r is Ok
                <==> old(self).sources().batches_from(true, output_indices@, 0) is Some),
            output_indices@.len() > 0 && output_indices@[0].is_pair() && r is Ok
                ==> final(self).waiting() == old(self).waiting() + old(
                self,
            ).sources().batches_from(true, output_indices@, 0)->0,
            r matches Err(e) ==> e is Arrow,
            r is Ok ==> {
                &&& final(self).inv()
                &&& final(self).output_linked(
                    if output_indices@.len() > 0 && output_indices@[0].is_pair() {
                        0
                    } else {
                        pending
                    },
                )
                &&& final(self)@ == old(self)@
                &&& final(self).output_size == old(self).output_size
                &&& final(self).batch_size == old(self).batch_size
                &&& final(self).history@ == old(self).history@
                &&& forall|x: OutputIndex| #[trigger]
                    final(self).index_valid(x) == old(self).index_valid(x)
                &&& forall|x: OutputIndex| #[trigger]
                    final(self).global_row(x) == old(self).global_row(x)
            },
    {
        let ghost pairs = output_indices@.len() > 0 && output_indices@[0].is_pair();
        let mut buffered_batch_idx: usize = 0;
        let mut indices: Vec<OutputIndex> = Vec::new();
        let mut t: usize = 0;
        while t < output_indices.len()
            invariant
                0 <= t <= output_indices@.len(),
                indices@.len() <= t,
                self.inv(),
                0 <= pending <= self.history@.joined.len(),
                !self@.join_type.streamed_columns_only(),
                pairs == (output_indices@.len() > 0 && output_indices@[0].is_pair()),
                !pairs ==> indices@.len() == 0 && self.output_linked(pending) && forall|u: int|
                    0 <= u < output_indices@.len() ==> !(#[trigger] output_indices@[u]).is_pair(),
                pairs ==> {
                    &&& pending == output_indices@.len()
                    &&& self.indices_next(output_indices@, pending)
                    &&& forall|u: int|
                        0 <= u < output_indices@.len() ==> (#[trigger] output_indices@[u]).is_pair()
                    &&& self.output_linked(pending - (t - indices@.len()))
                    &&& indices@ == output_indices@.subrange(t - indices@.len(), t as int)
                    &&& forall|u: int|
                        0 <= u < indices@.len() ==> (#[trigger] indices@[u]).pairs_with(
                            buffered_batch_idx,
                        )
                },
                self.sources() == old(self).sources(),
                !pairs ==> self.waiting() == old(self).waiting(),
                pairs ==> {
                    let src = old(self).sources();
                    let held = t - indices@.len();
                    &&& t > 0 ==> indices@.len() > 0
                    &&& begins_stretch(output_indices@, held)
                    &&& src.batches_from(true, output_indices@, 0) is Some <==> src.batches_from(
                        true,
                        output_indices@,
                        held,
                    ) is Some
                    &&& src.batches_from(true, output_indices@, 0) matches Some(all) ==> old(
                        self,
                    ).waiting() + all == self.waiting() + src.batches_from(
                        true,
                        output_indices@,
                        held,
                    )->0
                },
                self@ == old(self)@,
                self.output_size == old(self).output_size,
                self.batch_size == old(self).batch_size,
                self.history@ == old(self).history@,
                forall|x: OutputIndex| #[trigger] self.index_valid(x) == old(self).index_valid(x),
                forall|x: OutputIndex| #[trigger] self.global_row(x) == old(self).global_row(x),
            decreases output_indices@.len() - t,
        {
            let index = output_indices[t];
            match (index.streamed_idx, index.buffered_idx) {
                (Some(_), Some(buffered_idx)) => {
                    if buffered_idx.0 != buffered_batch_idx {
                        let ghost left = pending - (t - indices@.len());
                        proof {
                            self.lemma_indices_next_part(
                                output_indices@,
                                pending,
                                t - indices@.len(),
                                t as int,
                            );
                        }
                        let ghost waited = self.waiting();
                        proof {
                            if indices@.len() > 0 {
                                assert forall|u: int| t - indices@.len() <= u < t implies batch_of(
                                    #[trigger] output_indices@[u],
                                ) == buffered_batch_idx by {
                                    let held = indices@[u - (t - indices@.len())];
                                    assert(output_indices@[u] == held);
                                    assert(held.pairs_with(buffered_batch_idx));
                                }
                                old(self).sources().lemma_stretch(
                                    true,
                                    output_indices@,
                                    t - indices@.len(),
                                    t as int,
                                );
                            }
                        }
                        match self.output_joined(buffered_batch_idx, &indices, Ghost(left)) {
                            Ok(()) => {},
                            Err(e) => {
                                return Err(e);
                            },
                        }
                        proof {
                            if indices@.len() > 0 {
                                let src = old(self).sources();
                                let rest = src.batches_from(true, output_indices@, t as int);
                                if rest is Some {
                                    let batch = src.stretch_batch(true, indices@)->0;
                                    assert(waited + (seq![batch] + rest->0) =~= waited.push(batch)
                                        + rest->0);
                                }
                            }
                        }
                        buffered_batch_idx = buffered_idx.0;
                        indices.clear();
                    }
                    let ghost held = indices@;
                    indices.push(index);
                    proof {
                        assert(indices@ =~= output_indices@.subrange(t - held.len(), t + 1));
                    }
                },
                _ => {},
            }
            t += 1;
        }
        proof {
            if pairs {
                self.lemma_indices_next_part(
                    output_indices@,
                    pending,
                    t - indices@.len(),
                    t as int,
                );
            } else {
                self.lemma_indices_next_none(pending);
                assert(indices@ =~= Seq::<OutputIndex>::empty());
            }
        }
        let ghost left = if pairs {
            pending - (t - indices@.len())
        } else {
            pending
        };
        let ghost waited = self.waiting();
        proof {
            if pairs {
                let src = old(self).sources();
                assert forall|u: int| t - indices@.len() <= u < t implies batch_of(
                    #[trigger] output_indices@[u],
                ) == buffered_batch_idx by {
                    let held = indices@[u - (t - indices@.len())];
                    assert(output_indices@[u] == held);
                    assert(held.pairs_with(buffered_batch_idx));
                }
                src.lemma_stretch(true, output_indices@, t - indices@.len(), t as int);
                let batch = src.stretch_batch(true, indices@);
                if batch is Some {
                    assert(waited + (seq![batch->0] + Seq::<Batch>::empty()) =~= waited.push(
                        batch->0,
                    ));
                }
            }
        }
        self.output_joined(buffered_batch_idx, &indices, Ghost(left))
    }

    /// A stretch of the indices that stand for the next rows stands for the
    /// next rows after those before the stretch.
    proof fn lemma_indices_next_part(
        &self,
        indices: Seq<OutputIndex>,
        pending: int,
        from: int,
        to: int,
    )
        requires
            self.indices_next(indices, pending),
            0 <= from <= to <= indices.len(),
        ensures
            self.indices_next(indices.subrange(from, to), pending - from),
    {
    }

    /// No indices stand for the next rows, whatever is pending.
    proof fn lemma_indices_next_none(&self, pending: int)
        requires
            0 <= pending <= self.history@.joined.len(),
        ensures
            self.indices_next(Seq::<OutputIndex>::empty(), pending),
    {
    }

    /// Adds to the batches that wait the streamed rows that go out beside
    /// nulls, or alone in a semi or anti join. Indices of another kind are
    /// passed over.
    fn output_partial_streamed_joining_null(
        &mut self,
        output_indices: &Vec<OutputIndex>,
        Ghost(pending): Ghost<int>,
    ) -> (r: Result<(), JoinError>)
        requires
            old(self).inv(),
            old(self).output_linked(pending),
            0 <= pending <= old(self).history@.joined.len(),
            old(self)@.join_type != JoinType::Inner,
            (forall|t: int|
                0 <= t < output_indices@.len() ==> !(
                #[trigger] output_indices@[t]).is_streamed_only()) || (pending
                == output_indices@.len() && old(self).indices_next(output_indices@, pending)
                && forall|t: int|
                0 <= t < output_indices@.len() ==> (
                #[trigger] output_indices@[t]).is_streamed_only()),
        ensures
            final(self).sources() == old(self).sources(),
            !(output_indices@.len() > 0 && output_indices@[0].is_streamed_only()) ==> r is Ok
                && final(self).waiting() == old(self).waiting(),
            output_indices@.len() > 0 && output_indices@[0].is_streamed_only() ==> (r is Ok
                <==> old(self).sources().alone_batch(output_indices@) is Some),
            output_indices@.len() > 0 && output_indices@[0].is_streamed_only() && r is Ok
                ==> final(self).waiting() == old(self).waiting().push(
                old(self).sources().alone_batch(output_indices@)->0,
            ),
            r matches Err(e) ==> e is Arrow,
            r is Ok ==> {
                &&& final(self).inv()
                &&& final(self).output_linked(
                    if output_indices@.len() > 0 && output_indices@[0].is_streamed_only() {
                        0
                    } else {
                        pending
                    },
                )
                &&& final(self)@ == old(self)@
                &&& final(self).output_size == old(self).output_size
                &&& final(self).batch_size == old(self).batch_size
                &&& final(self).history@ == old(self).history@
                &&& forall|x: OutputIndex| #[trigger]
                    final(self).index_valid(x) == old(self).index_valid(x)
                &&& forall|x: OutputIndex| #[trigger]
                    final(self).global_row(x) == old(self).global_row(x)
            },
    {
        let ghost alone = output_indices@.len() > 0 && output_indices@[0].is_streamed_only();
        let mut streamed_indices: Vec<usize> = Vec::new();
        let mut t: usize = 0;
        while t < output_indices.len()
            invariant
                0 <= t <= output_indices@.len(),
                alone == (output_indices@.len() > 0 && output_indices@[0].is_streamed_only()),
                !alone ==> streamed_indices@.len() == 0 && forall|u: int|
                    0 <= u < output_indices@.len() ==> !(
                    #[trigger] output_indices@[u]).is_streamed_only(),
                alone ==> streamed_indices@.len() == t && forall|u: int|
                    0 <= u < output_indices@.len() ==> (
                    #[trigger] output_indices@[u]).is_streamed_only(),
                forall|u: int|
                    0 <= u < streamed_indices@.len() ==> output_indices@[u].streamed_idx == Some(
                        #[trigger] streamed_indices@[u],
                    ),
            decreases output_indices@.len() - t,
        {
            let index = output_indices[t];
            match (index.streamed_idx, index.buffered_idx) {
                (Some(i), None) => {
                    streamed_indices.push(i);
                },
                _ => {},
            }
            t += 1;
        }
        if streamed_indices.len() == 0 {
            return Ok(());
        }
        proof {
            assert(streamed_indices@ =~= streamed_of(output_indices@));
        }
        let ghost h = self.history@;
        let ghost start = h.joined.len() - pending;
        let ghost rows = h.joined.subrange(start, start + output_indices@.len());
        assert(self.index_valid(output_indices@[0]));
        match &self.streamed_batch {
            None => Ok(()),
            Some(streamed_batch) => {
                proof {
                    assert forall|u: int| 0 <= u < streamed_indices@.len() implies (
                    #[trigger] streamed_indices@[u]) < batch_rows(*streamed_batch).len() by {
                        assert(self.index_valid(output_indices@[u]));
                    }
                }
                let streamed_columns = match take_rows(streamed_batch, &streamed_indices) {
                    Ok(b) => b,
                    Err(e) => {
                        return Err(JoinError::Arrow(e));
                    },
                };
                let assembled = match self.join_type {
                    JoinType::Anti | JoinType::Semi => assemble(
                        &self.schema,
                        &streamed_columns,
                        None,
                    ),
                    _ => {
                        let buffered_columns = match null_rows(
                            &self.buffered_schema,
                            streamed_indices.len(),
                        ) {
                            Ok(b) => b,
                            Err(e) => {
                                return Err(JoinError::Arrow(e));
                            },
                        };
                        match self.join_type {
                            JoinType::Right => assemble(
                                &self.schema,
                                &buffered_columns,
                                Some(&streamed_columns),
                            ),
                            _ => assemble(&self.schema, &streamed_columns, Some(&buffered_columns)),
                        }
                    },
                };
                let record_batch = match assembled {
                    Ok(b) => b,
                    Err(e) => {
                        return Err(JoinError::Arrow(e));
                    },
                };
                proof {
                    let expected = joined_rows(
                        self.join_type,
                        h.streamed_rows,
                        h.buffered_rows,
                        self.streamed_width(),
                        self.buffered_width(),
                        rows,
                    );
                    assert forall|u: int| 0 <= u < output_indices@.len() implies #[trigger] batch_rows(
                        record_batch,
                    )[u] == expected[u] by {
                        let index = output_indices@[u];
                        assert(self.index_valid(index));
                        assert(self.global_row(index) == h.joined[start + u]);
                        assert(rows[u] == h.joined[start + u]);
                        lemma_streamed_link_row(
                            h.streamed_keys,
                            h.streamed_rows,
                            *streamed_batch,
                            self.streamed_join_arrays@,
                            self.streamed_idx as int,
                            self.streamed_base@,
                            self.key_types@,
                            streamed_indices@[u] as int,
                        );
                    }
                    assert(batch_rows(record_batch) =~= expected);
                    lemma_output_link_stage(
                        self.join_type,
                        h.streamed_rows,
                        h.buffered_rows,
                        self.streamed_width(),
                        self.buffered_width(),
                        h.joined,
                        h.emitted,
                        self.output_record_batches@,
                        self.output_width(),
                        pending,
                        record_batch,
                        output_indices@.len() as int,
                    );
                }
                self.output_record_batches.push(record_batch);
                Ok(())
            },
        }
    }

    /// Adds to the batches that wait a batch of rows of one buffered batch
    /// beside nulls, a row for each of the indices.
    fn output_nulls_joined(
        &mut self,
        buffered_batch_idx: usize,
        indices: &Vec<OutputIndex>,
        Ghost(pending): Ghost<int>,
    ) -> (r: Result<(), JoinError>)
        requires
            old(self).inv(),
            old(self).output_linked(pending),
            old(self).indices_next(indices@, pending),
            old(self)@.join_type == JoinType::Full,
            forall|t: int|
                0 <= t < indices@.len() ==> (#[trigger] indices@[t]).alone_in(buffered_batch_idx),
        ensures
            final(self).sources() == old(self).sources(),
            indices@.len() == 0 ==> r is Ok && final(self).waiting() == old(self).waiting(),
            indices@.len() > 0 ==> (r is Ok <==> old(self).sources().padded_batch(indices@) is Some),
            indices@.len() > 0 && r is Ok ==> final(self).waiting() == old(self).waiting().push(
                old(self).sources().padded_batch(indices@)->0,
            ),
            r matches Err(e) ==> e is Arrow,
            r is Ok ==> {
                &&& final(self).inv()
                &&& final(self).output_linked(pending - indices@.len())
                &&& final(self)@ == old(self)@
                &&& final(self).output_size == old(self).output_size
                &&& final(self).batch_size == old(self).batch_size
                &&& final(self).history@ == old(self).history@
                &&& forall|x: OutputIndex| #[trigger]
                    final(self).index_valid(x) == old(self).index_valid(x)
                &&& forall|x: OutputIndex| #[trigger]
                    final(self).global_row(x) == old(self).global_row(x)
            },
    {
        if indices.len() == 0 {
            return Ok(());
        }
        let mut buffered_indices: Vec<usize> = Vec::new();
        let mut t: usize = 0;
        while t < indices.len()
            invariant
                0 <= t <= indices@.len(),
                buffered_indices@.len() == t,
                forall|u: int|
                    0 <= u < indices@.len() ==> (#[trigger] indices@[u]).alone_in(
                        buffered_batch_idx,
                    ),
                forall|u: int|
                    0 <= u < t ==> indices@[u].buffered_idx == Some(
                        (buffered_batch_idx, #[trigger] buffered_indices@[u]),
                    ),
            decreases indices@.len() - t,
        {
            let index = indices[t];
            match index.buffered_idx {
                Some(b) => {
                    buffered_indices.push(b.1);
                },
                None => {},
            }
            t += 1;
        }
        proof {
            assert(buffered_indices@ =~= buffered_of(indices@));
            assert(batch_of(indices@[0]) == buffered_batch_idx);
        }
        let ghost h = self.history@;
        let ghost batches = self.buffered_data.batches@;
        let ghost start = h.joined.len() - pending;
        let ghost rows = h.joined.subrange(start, start + indices@.len());
        assert(self.index_valid(indices@[0]));
        proof {
            assert forall|u: int| 0 <= u < buffered_indices@.len() implies (
            #[trigger] buffered_indices@[u]) < batch_rows(
                batches[buffered_batch_idx as int].batch,
            ).len() by {
                assert(self.index_valid(indices@[u]));
            }
        }
        let buffered_columns = match take_rows(
            &self.buffered_data.batches[buffered_batch_idx].batch,
            &buffered_indices,
        ) {
            Ok(b) => b,
            Err(e) => {
                return Err(JoinError::Arrow(e));
            },
        };
        let streamed_columns = match null_rows(&self.streamed_schema, buffered_indices.len()) {
            Ok(b) => b,
            Err(e) => {
                return Err(JoinError::Arrow(e));
            },
        };
        let record_batch = match assemble(
            &self.schema,
            &streamed_columns,
            Some(&buffered_columns),
        ) {
            Ok(b) => b,
            Err(e) => {
                return Err(JoinError::Arrow(e));
            },
        };
        proof {
            let expected = joined_rows(
                self.join_type,
                h.streamed_rows,
                h.buffered_rows,
                self.streamed_width(),
                self.buffered_width(),
                rows,
            );
            assert forall|u: int| 0 <= u < indices@.len() implies #[trigger] batch_rows(
                record_batch,
            )[u] == expected[u] by {
                let index = indices@[u];
                assert(self.index_valid(index));
                assert(self.global_row(index) == h.joined[start + u]);
                assert(rows[u] == h.joined[start + u]);
                lemma_buffered_link_at(
                    h.buffered_keys,
                    h.buffered_rows,
                    batches,
                    self.buffered_base@,
                    self.key_types@,
                    buffered_batch_idx as int,
                    buffered_indices@[u] as int,
                );
            }
            assert(batch_rows(record_batch) =~= expected);
            lemma_output_link_stage(
                self.join_type,
                h.streamed_rows,
                h.buffered_rows,
                self.streamed_width(),
                self.buffered_width(),
                h.joined,
                h.emitted,
                self.output_record_batches@,
                self.output_width(),
                pending,
                record_batch,
                indices@.len() as int,
            );
        }
        self.output_record_batches.push(record_batch);
        Ok(())
    }

    /// Adds to the batches that wait the buffered rows that go out beside
    /// nulls: a batch for each stretch of indices that name one buffered
    /// batch. Indices of another kind are passed over.
    fn output_partial_null_joining_buffered(
        &mut self,
        output_indices: &Vec<OutputIndex>,
        Ghost(pending): Ghost<int>,
    ) -> (r: Result<(), JoinError>)
        requires
            old(self).inv(),
            old(self).output_linked(pending),
            0 <= pending <= old(self).history@.joined.len(),
            old(self)@.join_type == JoinType::Full,
            (forall|t: int|
                0 <= t < output_indices@.len() ==> !(
                #[trigger] output_indices@[t]).is_buffered_only()) || (pending
                == output_indices@.len() && old(self).indices_next(output_indices@, pending)
                && forall|t: int|
                0 <= t < output_indices@.len() ==> (
                #[trigger] output_indices@[t]).is_buffered_only()),
        ensures
            final(self).sources() == old(self).sources(),
            !(output_indices@.len() > 0 && output_indices@[0].is_buffered_only()) ==> r is Ok
                && final(self).waiting() == old(self).waiting(),
            output_indices@.len() > 0 && output_indices@[0].is_buffered_only() ==> (r is Ok
                <==> old(self).sources().batches_from(false, output_indices@, 0) is Some),
            output_indices@.len() > 0 && output_indices@[0].is_buffered_only() && r is Ok
                ==> final(self).waiting() == old(self).waiting() + old(
                self,
            ).sources().batches_from(false, output_indices@, 0)->0,
            r matches Err(e) ==> e is Arrow,
            r is Ok ==> {
                &&& final(self).inv()
                &&& final(self).output_linked(
                    if output_indices@.len() > 0 && output_indices@[0].is_buffered_only() {
                        0
                    } else {
                        pending
                    },
                )
                &&& final(self)@ == old(self)@
                &&& final(self).output_size == old(self).output_size
                &&& final(self).batch_size == old(self).batch_size
                &&& final(self).history@ == old(self).history@
                &&& forall|x: OutputIndex| #[trigger]
                    final(self).index_valid(x) == old(self).index_valid(x)
                &&& forall|x: OutputIndex| #[trigger]
                    final(self).global_row(x) == old(self).global_row(x)
            },
    {
        let ghost alone = output_indices@.len() > 0 && output_indices@[0].is_buffered_only();
        let mut buffered_batch_idx: usize = 0;
        let mut indices: Vec<OutputIndex> = Vec::new();
        let mut t: usize = 0;
        while t < output_indices.len()
            invariant
                0 <= t <= output_indices@.len(),
                indices@.len() <= t,
                self.inv(),
                0 <= pending <= self.history@.joined.len(),
                self@.join_type == JoinType::Full,
                alone == (output_indices@.len() > 0 && output_indices@[0].is_buffered_only()),
                !alone ==> indices@.len() == 0 && self.output_linked(pending) && forall|u: int|
                    0 <= u < output_indices@.len() ==> !(
                    #[trigger] output_indices@[u]).is_buffered_only(),
                alone ==> {
                    &&& pending == output_indices@.len()
                    &&& self.indices_next(output_indices@, pending)
                    &&& forall|u: int|
                        0 <= u < output_indices@.len() ==> (
                        #[trigger] output_indices@[u]).is_buffered_only()
                    &&& self.output_linked(pending - (t - indices@.len()))
                    &&& indices@ == output_indices@.subrange(t - indices@.len(), t as int)
                    &&& forall|u: int|
                        0 <= u < indices@.len() ==> (#[trigger] indices@[u]).alone_in(
                            buffered_batch_idx,
                        )
                },
                self.sources() == old(self).sources(),
                !alone ==> self.waiting() == old(self).waiting(),
                alone ==> {
                    let src = old(self).sources();
                    let held = t - indices@.len();
                    &&& t > 0 ==> indices@.len() > 0
                    &&& begins_stretch(output_indices@, held)
                    &&& src.batches_from(false, output_indices@, 0) is Some <==> src.batches_from(
                        false,
                        output_indices@,
                        held,
                    ) is Some
                    &&& src.batches_from(false, output_indices@, 0) matches Some(all) ==> old(
                        self,
                    ).waiting() + all == self.waiting() + src.batches_from(
                        false,
                        output_indices@,
                        held,
                    )->0
                },
                self@ == old(self)@,
                self.output_size == old(self).output_size,
                self.batch_size == old(self).batch_size,
                self.history@ == old(self).history@,
                forall|x: OutputIndex| #[trigger] self.index_valid(x) == old(self).index_valid(x),
                forall|x: OutputIndex| #[trigger] self.global_row(x) == old(self).global_row(x),
            decreases output_indices@.len() - t,
        {
            let index = output_indices[t];
            match (index.streamed_idx, index.buffered_idx) {
                (None, Some(buffered_idx)) => {
                    if buffered_idx.0 != buffered_batch_idx {
                        let ghost left = pending - (t - indices@.len());
                        proof {
                            self.lemma_indices_next_part(
                                output_indices@,
                                pending,
                                t - indices@.len(),
                                t as int,
                            );
                        }
                        let ghost waited = self.waiting();
                        proof {
                            if indices@.len() > 0 {
                                assert forall|u: int| t - indices@.len() <= u < t implies batch_of(
                                    #[trigger] output_indices@[u],
                                ) == buffered_batch_idx by {
                                    let held = indices@[u - (t - indices@.len())];
                                    assert(output_indices@[u] == held);
                                    assert(held.alone_in(buffered_batch_idx));
                                }
                                old(self).sources().lemma_stretch(
                                    false,
                                    output_indices@,
                                    t - indices@.len(),
                                    t as int,
                                );
                            }
                        }
                        match self.output_nulls_joined(buffered_batch_idx, &indices, Ghost(left)) {
                            Ok(()) => {},
                            Err(e) => {
                                return Err(e);
                            },
                        }
                        proof {
                            if indices@.len() > 0 {
                                let src = old(self).sources();
                                let rest = src.batches_from(false, output_indices@, t as int);
                                if rest is Some {
                                    let batch = src.stretch_batch(false, indices@)->0;
                                    assert(waited + (seq![batch] + rest->0) =~= waited.push(batch)
                                        + rest->0);
                                }
                            }
                        }
                        buffered_batch_idx = buffered_idx.0;
                        indices.clear();
                    }
                    let ghost held = indices@;
                    indices.push(index);
                    proof {
                        assert(indices@ =~= output_indices@.subrange(t - held.len(), t + 1));
                    }
                },
                _ => {},
            }
            t += 1;
        }
        proof {
            if alone {
                self.lemma_indices_next_part(
                    output_indices@,
                    pending,
                    t - indices@.len(),
                    t as int,
                );
            } else {
                self.lemma_indices_next_none(pending);
                assert(indices@ =~= Seq::<OutputIndex>::empty());
            }
        }
        let ghost left = if alone {
            pending - (t - indices@.len())
        } else {
            pending
        };
        let ghost waited = self.waiting();
        proof {
            if alone {
                let src = old(self).sources();
                assert forall|u: int| t - indices@.len() <= u < t implies batch_of(
                    #[trigger] output_indices@[u],
                ) == buffered_batch_idx by {
                    let held = indices@[u - (t - indices@.len())];
                    assert(output_indices@[u] == held);
                    assert(held.alone_in(buffered_batch_idx));
                }
                src.lemma_stretch(false, output_indices@, t - indices@.len(), t as int);
                let batch = src.stretch_batch(false, indices@);
                if batch is Some {
                    assert(waited + (seq![batch->0] + Seq::<Batch>::empty()) =~= waited.push(
                        batch->0,
                    ));
                }
            }
        }
        self.output_nulls_joined(buffered_batch_idx, &indices, Ghost(left))
    }

    /// Adds to the batches that wait the rows that the output indices
    /// stand for, as the kind of join lays them out.
    fn output_partial(
        &mut self,
        output_indices: &Vec<OutputIndex>,
        Ghost(join_streamed): Ghost<bool>,
        Ghost(join_buffered): Ghost<bool>,
    ) -> (r: Result<(), JoinError>)
        requires
            old(self).inv(),
            old(self).output_linked(output_indices@.len() as int),
            old(self).indices_pending(output_indices@),
            output_indices@.len() > 0,
            forall|t: int|
                0 <= t < output_indices@.len() ==> ((#[trigger] output_indices@[t]).streamed_idx
                    is Some) == join_streamed && (output_indices@[t].buffered_idx is Some)
                    == join_buffered,
            join_streamed || join_buffered,
            join_streamed && join_buffered ==> !old(self)@.join_type.streamed_columns_only(),
            join_streamed && !join_buffered ==> old(self)@.join_type != JoinType::Inner,
            !join_streamed && join_buffered ==> old(self)@.join_type == JoinType::Full,
        ensures
            final(self).sources() == old(self).sources(),
            r is Ok <==> old(self).sources().materialized(output_indices@) is Some,
            r is Ok ==> final(self).waiting() == old(self).waiting() + old(
                self,
            ).sources().materialized(output_indices@)->0,
            r matches Err(e) ==> e is Arrow,
            r is Ok ==> {
                &&& final(self).inv()
                &&& final(self).output_linked(0)
                &&& final(self)@ == old(self)@
                &&& final(self).output_size == old(self).output_size
                &&& final(self).batch_size == old(self).batch_size
            },
    {
        let ghost pending = output_indices@.len() as int;
        assert(output_indices@[0].is_pair() == (join_streamed && join_buffered));
        assert(output_indices@[0].is_streamed_only() == (join_streamed && !join_buffered));
        assert(output_indices@[0].is_buffered_only() == (!join_streamed && join_buffered));
        match self.join_type {
            JoinType::Inner => {
                self.output_partial_streamed_joining_buffered(output_indices, Ghost(pending))
            },
            JoinType::Left | JoinType::Right => {
                match self.output_partial_streamed_joining_buffered(
                    output_indices,
                    Ghost(pending),
                ) {
                    Ok(()) => {},
                    Err(e) => {
                        return Err(e);
                    },
                }
                let ghost left = if join_buffered {
                    0
                } else {
                    pending
                };
                self.output_partial_streamed_joining_null(output_indices, Ghost(left))
            },
            JoinType::Full => {
                match self.output_partial_streamed_joining_buffered(
                    output_indices,
                    Ghost(pending),
                ) {
                    Ok(()) => {},
                    Err(e) => {
                        return Err(e);
                    },
                }
                let ghost left = if join_streamed && join_buffered {
                    0
                } else {
                    pending
                };
                match self.output_partial_streamed_joining_null(output_indices, Ghost(left)) {
                    Ok(()) => {},
                    Err(e) => {
                        return Err(e);
                    },
                }
                let ghost left = if join_streamed {
                    0
                } else {
                    pending
                };
                self.output_partial_null_joining_buffered(output_indices, Ghost(left))
            },
            JoinType::Semi | JoinType::Anti => {
                self.output_partial_streamed_joining_null(output_indices, Ghost(pending))
            },
        }
    }

    /// Hands out the rows that wait as one batch.
    fn output_record_batch_and_reset(&mut self) -> (r: Result<Batch, JoinError>)
        requires
            old(self).inv(),
            old(self).output_linked(0),
            old(self).output_size > 0,
        ensures
            match r {
                Ok(batch) => concatenated(old(self)@.schema, old(self).waiting()) == Some(batch)
                    && batch_schema(batch) == old(self)@.schema,
                Err(e) => concatenated(old(self)@.schema, old(self).waiting()) is None && e
                    is Arrow,
            },
            r matches Ok(batch) ==> {
                &&& final(self).inv()
                &&& final(self).output_linked(0)
                &&& final(self).output_size == 0
                &&& final(self).batch_size == old(self).batch_size
                &&& batch_rows(batch).len() == old(self).output_size
                &&& final(self)@ == (JoinView {
                    emitted: old(self)@.emitted + batch_rows(batch),
                    staged: 0,
                    ..old(self)@
                })
                &&& final(self)@.emitted == final(self)@.output_rows()
            },
    {
        proof {
            reveal(output_link);
        }
        let record_batch = match concat_rows(&self.schema, &self.output_record_batches) {
            Ok(b) => b,
            Err(e) => {
                return Err(JoinError::Arrow(e));
            },
        };
        self.join_metrics.output_batches = count_up(self.join_metrics.output_batches, 1);
        self.join_metrics.output_rows = count_up(
            self.join_metrics.output_rows,
            num_rows(&record_batch),
        );
        proof {
            let h = self.history@;
            assert(h.joined.take(h.joined.len() as int) =~= h.joined);
            self.history@ = History { emitted: h.emitted + batch_rows(record_batch), ..h };
        }
        self.output_size = 0;
        self.output_record_batches.clear();
        proof {
            let h = self.history@;
            assert(all_rows(self.output_record_batches@) =~= Seq::<Row>::empty());
            assert(h.emitted + all_rows(self.output_record_batches@) =~= h.emitted);
        }
        Ok(record_batch)
    }

    /// Chooses the input to move on, or ends the join where both inputs
    /// have ended.
    fn init_step(&mut self)
        requires
            old(self).steady(),
            old(self)@.state == SMJState::Init,
        ensures
            final(self).steady(),
            final(self)@ == old(self)@.after_init(),
            final(self)@.follows(old(self)@),
            final(self)@.emitted == old(self)@.emitted,
            final(self)@.effort() < old(self)@.effort() || (final(self)@.effort()
                == old(self)@.effort() && final(self)@.phase() < old(self)@.phase()),
    {
        proof {
            reveal(JoinView::after_init);
            reveal(JoinView::follows);
        }
        proof {
            lemma_after_init_merged(self@);
        }
        let streamed_exhausted = match self.streamed_state {
            StreamedState::Exhausted => true,
            _ => false,
        };
        let buffered_exhausted = match self.buffered_state {
            BufferedState::Exhausted => true,
            _ => false,
        };
        if streamed_exhausted && buffered_exhausted {
            self.state = SMJState::Exhausted;
        } else {
            match self.current_ordering {
                KeyOrder::Less | KeyOrder::Equal => {
                    if !streamed_exhausted {
                        self.streamed_joined = false;
                        self.streamed_state = StreamedState::Init;
                    }
                },
                KeyOrder::Greater => {
                    if !buffered_exhausted {
                        self.buffered_joined = false;
                        self.buffered_state = BufferedState::Init;
                    }
                },
            }
            self.state = SMJState::Polling;
        }
    }

    /// Polls the streamed cursor and the buffered cursor, each unless it
    /// stands at a row or a run or at its end. Names the input that the join
    /// has to wait for, if any.
    fn poll_inputs(&mut self) -> (r: Result<Option<Side>, JoinError>)
        requires
            old(self).live(),
            old(self)@.state == SMJState::Polling,
            old(self)@.merged(),
        ensures
            match r {
                Ok(side) => final(self).live() && final(self)@.merged() && old(self)@.fetched()
                    == Ok::<(JoinView, Option<Side>), JoinError>((final(self)@, side)),
                Err(e) => old(self)@.fetched() == Err::<(JoinView, Option<Side>), JoinError>(e),
            },
    {
        let ghost before = self@;
        proof {
            reveal(JoinView::fetched);
            before.lemma_streamed_step();
        }
        match self.streamed_state {
            StreamedState::Exhausted | StreamedState::Ready => {},
            _ => {
                let polled = self.poll_streamed_row();
                proof {
                    if polled is Ok {
                        lemma_streamed_step_merged(before);
                    }
                }
                match polled {
                    Err(e) => {
                        return Err(e);
                    },
                    Ok(RowPoll::Pending) => {
                        return Ok(Some(Side::Streamed));
                    },
                    Ok(_) => {},
                }
            },
        }
        let ghost streamed = self@;
        proof {
            streamed.lemma_buffered_step();
        }
        match self.buffered_state {
            BufferedState::Exhausted | BufferedState::Ready => {},
            _ => {
                let polled = self.poll_buffered_batches();
                proof {
                    if polled is Ok {
                        lemma_buffered_step_merged(streamed);
                    }
                }
                match polled {
                    Err(e) => {
                        return Err(e);
                    },
                    Ok(RowPoll::Pending) => {
                        return Ok(Some(Side::Buffered));
                    },
                    Ok(_) => {},
                }
            },
        }
        Ok(None)
    }

    /// Fetches the next streamed row and the next buffered run, as far as
    /// the join has chosen to move them on, and compares the two. Names the
    /// input that the join has to wait for, if any.
    fn polling_step(&mut self) -> (r: Result<Option<Side>, JoinError>)
        requires
            old(self).steady(),
            old(self)@.state == SMJState::Polling,
        ensures
            match r {
                Ok(side) => {
                    &&& final(self).steady()
                    &&& old(self)@.polled() == Ok::<(JoinView, Option<Side>), JoinError>(
                        (final(self)@, side),
                    )
                    &&& final(self)@.follows(old(self)@)
                    &&& final(self)@.emitted == old(self)@.emitted
                    &&& match side {
                        Some(Side::Streamed) => final(self)@.state == SMJState::Polling
                            && final(self)@.streamed_input is None,
                        Some(Side::Buffered) => final(self)@.state == SMJState::Polling
                            && final(self)@.buffered_input is None,
                        None => final(self)@.effort() < old(self)@.effort() && final(self)@.state
                            != SMJState::Polling,
                    }
                },
                Err(e) => old(self)@.polled() == Err::<(JoinView, Option<Side>), JoinError>(e),
            },
    {
        let ghost before = self@;
        proof {
            reveal(JoinView::polled);
            reveal(JoinView::follows);
            before.lemma_fetched();
        }
        match self.poll_inputs() {
            Err(e) => {
                return Err(e);
            },
            Ok(Some(side)) => {
                return Ok(Some(side));
            },
            Ok(None) => {},
        }
        let ghost both = self@;
        let streamed_exhausted = match self.streamed_state {
            StreamedState::Exhausted => true,
            _ => false,
        };
        let buffered_exhausted = match self.buffered_state {
            BufferedState::Exhausted => true,
            _ => false,
        };
        if streamed_exhausted && buffered_exhausted {
            self.state = SMJState::Exhausted;
            proof {
                lemma_compare_merged(both, self@);
            }
            return Ok(None);
        }
        match self.compare_streamed_buffered() {
            Err(e) => Err(e),
            Ok(o) => {
                self.current_ordering = o;
                self.state = SMJState::JoinOutput;
                proof {
                    lemma_compare_merged(both, self@);
                }
                Ok(None)
            },
        }
    }

    /// Joins the current streamed row with the current buffered run as the
    /// kind of join says, and hands out a batch when enough rows wait.
    fn join_output_step(&mut self) -> (r: Result<Option<Batch>, JoinError>)
        requires
            old(self).steady(),
            old(self)@.state == SMJState::JoinOutput,
        ensures
            r is Ok <==> old(self).arrow_gives(),
            r matches Err(e) ==> e is Arrow && old(self)@.asks_arrow(),
            r matches Ok(out) ==> {
                &&& final(self).steady()
                &&& final(self)@.follows(old(self)@)
                &&& match out {
                    Some(batch) => {
                        &&& batch_schema(batch) == old(self)@.schema
                        &&& final(self)@ == (JoinView {
                            emitted: old(self)@.emitted + batch_rows(batch),
                            staged: 0,
                            ..old(self)@.after_join_partial()
                        })
                        &&& final(self)@.emitted == old(self)@.emitted + batch_rows(batch)
                        &&& final(self)@.batch_size == old(self)@.batch_size
                        &&& batch_rows(batch).len() == old(self)@.batch_size
                        &&& final(self)@.emitted == final(self)@.output_rows()
                        &&& old(self)@.round() == Round::Out(final(self)@)
                    },
                    None => {
                        &&& old(self)@.round() == Round::Go(final(self)@)
                        &&& final(self)@ == (JoinView {
                            scanned: 0,
                            state: SMJState::Init,
                            ..old(self)@.after_join_partial()
                        })
                        &&& final(self)@.effort() == old(self)@.effort()
                        &&& final(self)@.emitted == old(self)@.emitted
                        &&& final(self)@.state == SMJState::Init
                    },
                }
            },
    {
        let ghost before = self@;
        proof {
            reveal(JoinView::follows);
            lemma_join_partial_merged(before);
        }
        let output_indices = self.join_partial();
        let ghost joined = self@;
        proof {
            reveal(JoinView::after_join_partial);
            let rows = before.partial_rows();
            assert(joined.joined == before.joined + rows);
            assert forall|t: int| 0 <= t < output_indices@.len() implies old(self).index_valid(
                #[trigger] output_indices@[t],
            ) && old(self).global_row(output_indices@[t]) == rows[t] by {
                assert(self.index_valid(output_indices@[t]));
                assert(self.global_row(output_indices@[t]) == joined.joined[before.joined.len()
                    + t]);
            }
            assert(old(self).names(output_indices@, rows));
            old(self).lemma_names_unique(output_indices@, old(self).decided(), rows);
        }
        if output_indices.len() > 0 {
            match self.output_partial(
                &output_indices,
                Ghost(before.joins_streamed()),
                Ghost(before.joins_buffered()),
            ) {
                Ok(()) => {},
                Err(e) => {
                    return Err(e);
                },
            }
        }
        if self.output_size < self.batch_size {
            proof {
                self.buffered_data.lemma_scanned();
                if self.buffered_data.batches@.len() > 0 {
                    lemma_run_len(self.buffered_data);
                } else {
                    assert(run_rows_before(self.buffered_data.batches@, 0) == 0);
                }
            }
            if self.buffered_data.scanning_finished() {
                self.buffered_data.scanning_reset();
                self.state = SMJState::Init;
            }
            proof {
                lemma_join_output_init_merged(joined, self@);
            }
            Ok(None)
        } else {
            let ghost staged = self@;
            let flushed = self.output_record_batch_and_reset();
            proof {
                if flushed is Ok {
                    lemma_merged_same(staged, self@);
                }
            }
            match flushed {
                Ok(batch) => Ok(Some(batch)),
                Err(e) => Err(e),
            }
        }
    }

    /// The schema of the batches that the join hands out: the one that the
    /// join was made with.
    pub fn schema(&self) -> (r: &Arc<Schema>)
        ensures
            **r == self@.schema,
            schema_width(**r) == self.output_width(),
    {
        &self.schema
    }

    /// Whether the join has failed.
    pub fn has_failed(&self) -> (r: bool)
        ensures
            r == self@.failed,
    {
        self.failed
    }

    /// The counts of the join.
    pub closed spec fn metrics_view(&self) -> SortMergeJoinMetrics {
        self.join_metrics
    }

    /// What the join has counted so far.
    pub fn metrics(&self) -> (r: SortMergeJoinMetrics)
        ensures
            r == self.metrics_view(),
    {
        self.join_metrics
    }

    /// Carries the join on until it has a batch of output, has to wait for
    /// an input, or is at its end. A join that has failed is at its end.
    pub fn poll_next(&mut self) -> (r: Result<JoinPoll, JoinError>)
        requires
            old(self).wf(),
        ensures
            final(self).wf(),
            old(self)@.failed ==> final(self)@ == old(self)@ && r matches Ok(JoinPoll::Finished),
            r matches Err(e) ==> final(self)@.failed && (e is Arrow || e is UnsupportedType || e
                is KeyColumnsMismatch),
            r is Ok && !old(self)@.failed ==> {
                &&& final(self)@.valid()
                &&& final(self)@.merged()
                &&& final(self)@.follows(old(self)@)
            },
            !old(self)@.failed ==> old(self)@.answers(r, final(self)@),
            !old(self)@.failed ==> match r {
                Ok(JoinPoll::Pending(Side::Streamed)) => final(self).wants_streamed()
                    && final(self)@.emitted == old(self)@.emitted,
                Ok(JoinPoll::Pending(Side::Buffered)) => final(self).wants_buffered()
                    && final(self)@.emitted == old(self)@.emitted,
                Ok(JoinPoll::Batch(batch)) => {
                    &&& batch_schema(batch) == final(self)@.schema
                    &&& final(self)@.emitted == old(self)@.emitted + batch_rows(batch)
                    &&& 0 < batch_rows(batch).len() <= final(self)@.batch_size
                    &&& batch_rows(batch).len() == final(self)@.batch_size || final(self)@.state
                        == SMJState::Exhausted
                    &&& final(self)@.emitted == final(self)@.output_rows()
                },
                Ok(JoinPoll::Finished) => {
                    &&& final(self)@.emitted == old(self)@.emitted
                    &&& final(self)@.emitted == final(self)@.output_rows()
                    &&& final(self)@.state == SMJState::Exhausted
                    &&& final(self)@.streamed_input == Some(StreamInput::End)
                    &&& final(self)@.buffered_input == Some(StreamInput::End)
                },
                Err(_) => true,
            },
    {
        if self.failed {
            return Ok(JoinPoll::Finished);
        }
        proof {
            self@.lemma_follows_self();
        }
        let ghost mut count: nat = 0;
        loop
            invariant
                self.steady(),
                !old(self)@.failed,
                self@.follows(old(self)@),
                self@.emitted == old(self)@.emitted,
                old(self)@.rounds(count) == Some(self@),
            decreases self@.effort(), self@.phase(),
        {
            let ghost before = self@;
            match self.state {
                SMJState::Init => {
                    self.init_step();
                    proof {
                        self@.lemma_follows_follows(before, old(self)@);
                    }
                },
                SMJState::Polling => {
                    match self.polling_step() {
                        Err(e) => {
                            proof {
                                before.lemma_polled_errors();
                            }
                            self.failed = true;
                            return Err(e);
                        },
                        Ok(Some(side)) => {
                            proof {
                                self@.lemma_follows_follows(before, old(self)@);
                            }
                            return Ok(JoinPoll::Pending(side));
                        },
                        Ok(None) => {
                            proof {
                                self@.lemma_follows_follows(before, old(self)@);
                            }
                        },
                    }
                },
                SMJState::JoinOutput => {
                    match self.join_output_step() {
                        Err(e) => {
                            self.failed = true;
                            return Err(e);
                        },
                        Ok(Some(batch)) => {
                            proof {
                                self@.lemma_follows_follows(before, old(self)@);
                                reveal(JoinView::follows);
                            }
                            return Ok(JoinPoll::Batch(batch));
                        },
                        Ok(None) => {
                            proof {
                                self@.lemma_follows_follows(before, old(self)@);
                            }
                        },
                    }
                },
                SMJState::Exhausted => {
                    if self.output_size > 0 {
                        let flushed = self.output_record_batch_and_reset();
                        proof {
                            if flushed is Ok {
                                lemma_merged_same(before, self@);
                            }
                        }
                        match flushed {
                            Err(e) => {
                                self.failed = true;
                                return Err(e);
                            },
                            Ok(batch) => {
                                proof {
                                    reveal(JoinView::follows);
                                }
                                return Ok(JoinPoll::Batch(batch));
                            },
                        }
                    }
                    proof {
                        reveal(output_link);
                        assert(self.history@.joined.take(self.history@.joined.len() as int)
                            =~= self.history@.joined);
                    }
                    return Ok(JoinPoll::Finished);
                },
            }
            proof {
                assert(before.round() == Round::Go(self@));
                count = count + 1;
                assert(old(self)@.rounds(count) == Some(self@));
            }
        }
    }
}

} // verus!
