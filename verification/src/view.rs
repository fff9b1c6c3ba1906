//! The join as mathematics sees it: a view of the stream over the rows of
//! its two inputs, and what each step of the join does to that view.

use crate::batch::{batch_rows, Batch, Row};
use crate::error::JoinError;
use crate::key::{
    key_order, key_row, key_same, key_types, KeyColumn, KeyOrder, KeyRow, KeyType, SortOptions,
};
use crate::model::{joined_rows, JoinType, JoinedRow};
use crate::stream::{
    BufferedState, JoinPoll, RowPoll, SMJState, Side, StreamInput, StreamedState,
};
use arrow::datatypes::Schema;
use vstd::prelude::*;

verus! {

/// The join as mathematics sees it: its settings, the rows of the two
/// inputs taken in so far, where it stands in them, and what it has put out.
pub struct JoinView {
    pub join_type: JoinType,
    pub key_types: Seq<KeyType>,
    pub sort_options: Seq<SortOptions>,
    pub null_equals_null: bool,
    pub batch_size: int,
    /// The schema of the batches handed out.
    pub schema: Schema,
    /// The number of columns of a streamed row put out as nulls.
    pub streamed_width: nat,
    /// The number of columns of a buffered row put out as nulls.
    pub buffered_width: nat,
    pub streamed_keys: Seq<KeyRow>,
    pub streamed_rows: Seq<Row>,
    pub buffered_keys: Seq<KeyRow>,
    pub buffered_rows: Seq<Row>,
    /// What the streamed input has handed over and the join has not yet taken in.
    pub streamed_input: Option<StreamInput>,
    /// What the buffered input has handed over and the join has not yet taken in.
    pub buffered_input: Option<StreamInput>,
    pub state: SMJState,
    pub streamed_state: StreamedState,
    pub buffered_state: BufferedState,
    pub current_ordering: KeyOrder,
    pub streamed_joined: bool,
    pub buffered_joined: bool,
    /// The position of the current streamed row among the streamed rows; -1 before the first.
    pub streamed_pos: int,
    /// The position of the first row of the current buffered run among the buffered rows.
    pub run_start: int,
    /// The position after the last row of the current buffered run.
    pub run_end: int,
    /// The number of rows of the run that the scan has passed.
    pub scanned: int,
    /// Whether the join has failed.
    pub failed: bool,
    pub joined: Seq<JoinedRow>,
    pub emitted: Seq<Row>,
    /// The number of output rows decided and not yet handed out.
    pub staged: int,
}

/// What one round of the join's work comes to.
pub enum Round {
    /// The join goes on to the next round, at this view.
    Go(JoinView),
    /// The join waits for an input.
    Wait(JoinView, Side),
    /// The join hands out a batch of the rows that waited.
    Out(JoinView),
    /// The join is at its end.
    End(JoinView),
    /// The join fails.
    Fail(JoinError),
}

/// The keys of the rows of a batch with the given key columns.
pub open spec fn batch_keys(batch: Batch, join_arrays: Seq<KeyColumn>) -> Seq<KeyRow> {
    Seq::new(batch_rows(batch).len(), |r: int| key_row(join_arrays, r))
}

/// Whether row `j` of `keys` has the key of row `i`: the same non-null value in every column.
pub open spec fn rows_same(types: Seq<KeyType>, keys: Seq<KeyRow>, i: int, j: int) -> bool {
    key_same(types, keys[i], keys[j]) == Some(true)
}

/// Where the run that starts at row `start` of `keys` stops, given that it
/// reaches up to row `from`: the first row from there on that has not the
/// key of row `start`, or the end of `keys`.
pub open spec fn run_stop(types: Seq<KeyType>, keys: Seq<KeyRow>, start: int, from: int) -> int
    decreases keys.len() - from,
{
    if 0 <= from < keys.len() && rows_same(types, keys, start, from) {
        run_stop(types, keys, start, from + 1)
    } else {
        from
    }
}

impl JoinView {
    /// The view of a join that has not begun.
    pub open spec fn initial(
        join_type: JoinType,
        key_types: Seq<KeyType>,
        sort_options: Seq<SortOptions>,
        null_equals_null: bool,
        batch_size: int,
        schema: Schema,
        streamed_width: nat,
        buffered_width: nat,
    ) -> JoinView {
        JoinView {
            schema,
            join_type,
            key_types,
            sort_options,
            null_equals_null,
            batch_size,
            streamed_width,
            buffered_width,
            streamed_keys: Seq::empty(),
            streamed_rows: Seq::empty(),
            buffered_keys: Seq::empty(),
            buffered_rows: Seq::empty(),
            streamed_input: None,
            buffered_input: None,
            state: SMJState::Init,
            streamed_state: StreamedState::Init,
            buffered_state: BufferedState::Init,
            current_ordering: KeyOrder::Equal,
            streamed_joined: false,
            buffered_joined: false,
            streamed_pos: -1,
            run_start: 0,
            run_end: 0,
            scanned: 0,
            failed: false,
            joined: Seq::empty(),
            emitted: Seq::empty(),
            staged: 0,
        }
    }

    /// The key of the current streamed row.
    pub open spec fn streamed_key(self) -> KeyRow {
        self.streamed_keys[self.streamed_pos]
    }

    /// The key of the first row of the current buffered run.
    pub open spec fn run_key(self) -> KeyRow {
        self.buffered_keys[self.run_start]
    }

    /// How the current streamed row stands to the current buffered run:
    /// `Greater` when the streamed input has ended, else `Less` when there is
    /// no run, else as the key of the row stands to the key of the run.
    /// `None` where the comparison meets an unsupported type.
    pub open spec fn ordering(self) -> Option<KeyOrder> {
        if self.streamed_state == StreamedState::Exhausted {
            Some(KeyOrder::Greater)
        } else if self.run_start >= self.run_end {
            Some(KeyOrder::Less)
        } else {
            key_order(
                self.key_types,
                self.streamed_key(),
                self.run_key(),
                self.sort_options,
                self.null_equals_null,
            )
        }
    }

    /// What one poll of the streamed cursor does: the view after it and the
    /// cursor's answer, or the error it fails with.
    ///
    /// A cursor at a row, or at the end, stays. Otherwise it moves to the
    /// next row taken in, if there is one. If there is none it turns to its
    /// input: with nothing handed over it waits; at the input's end it ends;
    /// a batch without rows it drops and waits; a batch with rows it takes
    /// in, and stands at the first of them.
    #[verifier::opaque]
    pub open spec fn streamed_step(self) -> Result<(JoinView, RowPoll), JoinError> {
        match self.streamed_state {
            StreamedState::Ready => Ok((self, RowPoll::Ready)),
            StreamedState::Exhausted => Ok((self, RowPoll::Exhausted)),
            _ => if self.streamed_state == StreamedState::Init && self.streamed_pos + 1
                < self.streamed_keys.len() {
                Ok(
                    (
                        JoinView {
                            streamed_pos: self.streamed_pos + 1,
                            streamed_state: StreamedState::Ready,
                            ..self
                        },
                        RowPoll::Ready,
                    ),
                )
            } else {
                match self.streamed_input {
                    None => Ok(
                        (JoinView { streamed_state: StreamedState::Polling, ..self }, RowPoll::Pending),
                    ),
                    Some(StreamInput::End) => Ok(
                        (
                            JoinView { streamed_state: StreamedState::Exhausted, ..self },
                            RowPoll::Exhausted,
                        ),
                    ),
                    Some(StreamInput::Failed(e)) => Err(JoinError::Arrow(e)),
                    Some(StreamInput::Batch(b)) => if batch_rows(b.batch_view()).len() == 0 {
                        Ok(
                            (
                                JoinView {
                                    streamed_state: StreamedState::Polling,
                                    streamed_input: None,
                                    ..self
                                },
                                RowPoll::Pending,
                            ),
                        )
                    } else if key_types(b.keys_view()) != self.key_types {
                        Err(JoinError::KeyColumnsMismatch)
                    } else {
                        Ok(
                            (
                                JoinView {
                                    streamed_keys: self.streamed_keys + batch_keys(
                                        b.batch_view(),
                                        b.keys_view(),
                                    ),
                                    streamed_rows: self.streamed_rows + batch_rows(b.batch_view()),
                                    streamed_input: None,
                                    streamed_state: StreamedState::Ready,
                                    streamed_pos: self.streamed_keys.len() as int,
                                    ..self
                                },
                                RowPoll::Ready,
                            ),
                        )
                    },
                }
            },
        }
    }

    /// The view with the run closed before buffered row `stop`, which has
    /// another key than the run; an error where the comparison of that row
    /// with the run's first meets an unsupported type.
    pub open spec fn run_closed_at(self, start: int, stop: int) -> Result<
        (JoinView, RowPoll),
        JoinError,
    > {
        if key_same(self.key_types, self.buffered_keys[start], self.buffered_keys[stop]) is None {
            Err(JoinError::UnsupportedType)
        } else {
            Ok(
                (
                    JoinView {
                        buffered_state: BufferedState::Ready,
                        run_start: start,
                        run_end: stop,
                        ..self
                    },
                    RowPoll::Ready,
                ),
            )
        }
    }

    /// What one poll of the buffered cursor does: the view after it and the
    /// cursor's answer, or the error it fails with.
    ///
    /// A cursor that holds a whole run, or is at the end, stays. Otherwise
    /// it collects the next run: the rows from the end of the last run on
    /// that have the key of the first of them. The run is whole when a row
    /// with another key follows it, or when the input ends. Where the rows
    /// taken in do not show that, the cursor turns to its input: with nothing
    /// handed over it waits; a batch without rows it drops and waits; a batch
    /// with rows it takes in and goes on with it. Without a row to begin a
    /// run with, the cursor ends when its input ends.
    #[verifier::opaque]
    pub open spec fn buffered_step(self) -> Result<(JoinView, RowPoll), JoinError> {
        match self.buffered_state {
            BufferedState::Ready => Ok((self, RowPoll::Ready)),
            BufferedState::Exhausted => Ok((self, RowPoll::Exhausted)),
            _ => {
                let known = self.buffered_keys.len() as int;
                let resumed = self.buffered_state == BufferedState::PollingRest;
                let start = if resumed {
                    self.run_start
                } else {
                    self.run_end
                };
                let first = !resumed && self.run_end >= known;
                let from = if resumed {
                    self.run_end
                } else {
                    start + 1
                };
                let waiting = if first {
                    BufferedState::PollingFirst
                } else {
                    BufferedState::PollingRest
                };
                if !first && run_stop(self.key_types, self.buffered_keys, start, from) < known {
                    self.run_closed_at(
                        start,
                        run_stop(self.key_types, self.buffered_keys, start, from),
                    )
                } else {
                    match self.buffered_input {
                        None => Ok(
                            (
                                JoinView {
                                    buffered_state: waiting,
                                    run_start: start,
                                    run_end: known,
                                    ..self
                                },
                                RowPoll::Pending,
                            ),
                        ),
                        Some(StreamInput::End) => if first {
                            Ok(
                                (
                                    JoinView {
                                        buffered_state: BufferedState::Exhausted,
                                        run_start: start,
                                        run_end: known,
                                        ..self
                                    },
                                    RowPoll::Exhausted,
                                ),
                            )
                        } else {
                            Ok(
                                (
                                    JoinView {
                                        buffered_state: BufferedState::Ready,
                                        run_start: start,
                                        run_end: known,
                                        ..self
                                    },
                                    RowPoll::Ready,
                                ),
                            )
                        },
                        Some(StreamInput::Failed(e)) => Err(JoinError::Arrow(e)),
                        Some(StreamInput::Batch(b)) => if batch_rows(b.batch_view()).len() == 0 {
                            Ok(
                                (
                                    JoinView {
                                        buffered_state: waiting,
                                        run_start: start,
                                        run_end: known,
                                        buffered_input: None,
                                        ..self
                                    },
                                    RowPoll::Pending,
                                ),
                            )
                        } else if key_types(b.keys_view()) != self.key_types {
                            Err(JoinError::KeyColumnsMismatch)
                        } else {
                            let taken = JoinView {
                                buffered_keys: self.buffered_keys + batch_keys(
                                    b.batch_view(),
                                    b.keys_view(),
                                ),
                                buffered_rows: self.buffered_rows + batch_rows(b.batch_view()),
                                buffered_input: None,
                                run_start: start,
                                ..self
                            };
                            let stop = run_stop(
                                self.key_types,
                                taken.buffered_keys,
                                start,
                                if first {
                                    start + 1
                                } else {
                                    known
                                },
                            );
                            if stop < taken.buffered_keys.len() {
                                taken.run_closed_at(start, stop)
                            } else {
                                Ok(
                                    (
                                        JoinView {
                                            buffered_state: BufferedState::PollingRest,
                                            run_end: taken.buffered_keys.len() as int,
                                            ..taken
                                        },
                                        RowPoll::Pending,
                                    ),
                                )
                            }
                        },
                    }
                }
            },
        }
    }

    /// Whether the join puts out the current streamed row at this visit: a
    /// row before the run where the kind of join keeps rows without a
    /// partner, and a row that matches the run where it keeps the pairs; a
    /// semi join puts a matching row out once.
    pub open spec fn joins_streamed(self) -> bool {
        match self.current_ordering {
            KeyOrder::Less => (self.join_type == JoinType::Left || self.join_type
                == JoinType::Right || self.join_type == JoinType::Full || self.join_type
                == JoinType::Anti) && !self.streamed_joined,
            KeyOrder::Equal => if self.join_type == JoinType::Semi {
                !self.streamed_joined
            } else {
                self.join_type != JoinType::Anti
            },
            KeyOrder::Greater => false,
        }
    }

    /// Whether the join puts out the rows of the current run at this visit:
    /// a run that matches the streamed row where the kind of join keeps the
    /// pairs, and a run before the streamed row that no row has matched
    /// where the join is a full one.
    pub open spec fn joins_buffered(self) -> bool {
        match self.current_ordering {
            KeyOrder::Less => false,
            KeyOrder::Equal => self.join_type == JoinType::Inner || self.join_type
                == JoinType::Left || self.join_type == JoinType::Right || self.join_type
                == JoinType::Full,
            KeyOrder::Greater => self.join_type == JoinType::Full && !self.buffered_joined,
        }
    }

    /// The rows that one step of making output decides: the rows of the run
    /// from the scan on, each beside the streamed row or beside nulls, as
    /// many as the output batch has room for; or the streamed row beside
    /// nulls; or none.
    #[verifier::opaque]
    pub open spec fn partial_rows(self) -> Seq<JoinedRow> {
        if self.joins_buffered() {
            let left = self.run_end - self.run_start - self.scanned;
            let room = self.batch_size - self.staged;
            let count = if left <= room {
                left
            } else {
                room
            };
            Seq::new(
                count as nat,
                |t: int|
                    JoinedRow {
                        streamed: if self.joins_streamed() {
                            Some(self.streamed_pos)
                        } else {
                            None
                        },
                        buffered: Some(self.run_start + self.scanned + t),
                    },
            )
        } else if self.joins_streamed() {
            seq![JoinedRow { streamed: Some(self.streamed_pos), buffered: None }]
        } else {
            Seq::empty()
        }
    }

    /// The view after one step of making output.
    #[verifier::opaque]
    pub open spec fn after_join_partial(self) -> JoinView {
        let rows = self.partial_rows();
        let run = self.run_end - self.run_start;
        if self.joins_buffered() {
            let done = rows.len() > 0 && self.scanned + rows.len() == run;
            JoinView {
                joined: self.joined + rows,
                staged: self.staged + rows.len(),
                scanned: self.scanned + rows.len(),
                streamed_joined: if done {
                    self.joins_streamed()
                } else {
                    self.streamed_joined
                },
                buffered_joined: if done {
                    true
                } else {
                    self.buffered_joined
                },
                ..self
            }
        } else if self.joins_streamed() {
            JoinView {
                joined: self.joined + rows,
                staged: self.staged + 1,
                scanned: run,
                streamed_joined: true,
                ..self
            }
        } else {
            JoinView { scanned: run, ..self }
        }
    }

    /// The view after the join has chosen which input to move on: the
    /// streamed input after a row that stood before the run or matched it,
    /// the buffered input after a run that stood before the row. With both
    /// inputs at their end the join is at its end.
    #[verifier::opaque]
    pub open spec fn after_init(self) -> JoinView {
        if self.streamed_state == StreamedState::Exhausted && self.buffered_state
            == BufferedState::Exhausted {
            JoinView { state: SMJState::Exhausted, ..self }
        } else if self.current_ordering == KeyOrder::Greater {
            if self.buffered_state != BufferedState::Exhausted {
                JoinView {
                    buffered_joined: false,
                    buffered_state: BufferedState::Init,
                    state: SMJState::Polling,
                    ..self
                }
            } else {
                JoinView { state: SMJState::Polling, ..self }
            }
        } else {
            if self.streamed_state != StreamedState::Exhausted {
                JoinView {
                    streamed_joined: false,
                    streamed_state: StreamedState::Init,
                    state: SMJState::Polling,
                    ..self
                }
            } else {
                JoinView { state: SMJState::Polling, ..self }
            }
        }
    }

    /// The number of rows of a batch that an input has handed over and the
    /// join has not yet taken in.
    pub open spec fn waiting_rows(input: Option<StreamInput>) -> int {
        match input {
            Some(StreamInput::Batch(b)) => batch_rows(b.batch_view()).len() as int,
            _ => 0,
        }
    }

    /// A bound on what the streamed cursor can still do with what it was handed.
    pub open spec fn streamed_effort(self) -> int {
        let rows = self.streamed_keys.len() + Self::waiting_rows(self.streamed_input)
            - self.streamed_pos;
        match self.streamed_state {
            StreamedState::Exhausted => 0,
            StreamedState::Ready => 3 * rows + 2,
            StreamedState::Init => 3 * rows + 1,
            StreamedState::Polling => 3 * rows,
        }
    }

    /// A bound on what the buffered cursor can still do with what it was handed.
    pub open spec fn buffered_run_effort(self) -> int {
        let rows = self.buffered_keys.len() + Self::waiting_rows(self.buffered_input)
            - self.run_start;
        match self.buffered_state {
            BufferedState::Exhausted => 0,
            BufferedState::Ready => 8 * rows + 2,
            BufferedState::Init => if self.run_start < self.run_end {
                8 * rows + 1
            } else {
                8 * rows + 5
            },
            BufferedState::PollingFirst => 8 * rows + 4,
            BufferedState::PollingRest => 8 * rows + 3,
        }
    }

    /// A bound on what the join can still do with what it was handed.
    pub open spec fn effort(self) -> int {
        self.streamed_effort() + self.buffered_run_effort()
    }

    /// The rank of the join's state within one round of its work.
    pub open spec fn phase(self) -> int {
        match self.state {
            SMJState::JoinOutput => 3,
            SMJState::Init => 2,
            SMJState::Polling => 1,
            SMJState::Exhausted => 0,
        }
    }

    /// Whether this view can come after `before`: the settings are the same,
    /// and what was taken in, decided and handed out has only grown.
    #[verifier::opaque]
    pub open spec fn follows(self, before: JoinView) -> bool {
        &&& self.join_type == before.join_type
        &&& self.key_types == before.key_types
        &&& self.sort_options == before.sort_options
        &&& self.null_equals_null == before.null_equals_null
        &&& self.batch_size == before.batch_size
        &&& self.schema == before.schema
        &&& self.streamed_width == before.streamed_width
        &&& self.buffered_width == before.buffered_width
        &&& before.streamed_keys.is_prefix_of(self.streamed_keys)
        &&& before.streamed_rows.is_prefix_of(self.streamed_rows)
        &&& before.buffered_keys.is_prefix_of(self.buffered_keys)
        &&& before.buffered_rows.is_prefix_of(self.buffered_rows)
        &&& before.joined.is_prefix_of(self.joined)
        &&& before.emitted.is_prefix_of(self.emitted)
    }

    /// What polling the two cursors does: the view after it and the input
    /// that the join has to wait for, if any; or the error it fails with.
    /// The streamed cursor is polled first; where it has to wait, the
    /// buffered cursor is not polled.
    #[verifier::opaque]
    pub open spec fn fetched(self) -> Result<(JoinView, Option<Side>), JoinError> {
        match self.streamed_step() {
            Err(e) => Err(e),
            Ok((streamed, answer)) => if answer == RowPoll::Pending {
                Ok((streamed, Some(Side::Streamed)))
            } else {
                match streamed.buffered_step() {
                    Err(e) => Err(e),
                    Ok((both, answer)) => Ok(
                        (
                            both,
                            if answer == RowPoll::Pending {
                                Some(Side::Buffered)
                            } else {
                                None
                            },
                        ),
                    ),
                }
            },
        }
    }

    /// What one round of fetching does: the view after it and the input
    /// that the join has to wait for, if any; or the error it fails with.
    ///
    /// The two cursors are polled; an input that stands at a row or a run,
    /// or at its end, stays. Where a cursor has to wait, the join waits for
    /// that input. With both inputs at their end the join is at its end.
    /// Otherwise the streamed row is compared with the run, and the join
    /// goes on to make output.
    #[verifier::opaque]
    pub open spec fn polled(self) -> Result<(JoinView, Option<Side>), JoinError> {
        match self.fetched() {
            Err(e) => Err(e),
            Ok((both, Some(side))) => Ok((both, Some(side))),
            Ok((both, None)) => if both.streamed_state == StreamedState::Exhausted
                && both.buffered_state == BufferedState::Exhausted {
                Ok((JoinView { state: SMJState::Exhausted, ..both }, None))
            } else {
                match both.ordering() {
                    None => Err(JoinError::UnsupportedType),
                    Some(o) => Ok(
                        (
                            JoinView { current_ordering: o, state: SMJState::JoinOutput, ..both },
                            None,
                        ),
                    ),
                }
            },
        }
    }

    /// The errors that a round of fetching can fail with: an error of an
    /// input, key columns that do not fit, or a type that cannot be compared.
    pub proof fn lemma_polled_errors(self)
        ensures
            self.polled() matches Err(e) ==> e is Arrow || e is UnsupportedType || e
                is KeyColumnsMismatch,
    {
        reveal(JoinView::polled);
        reveal(JoinView::fetched);
        reveal(JoinView::streamed_step);
        reveal(JoinView::buffered_step);
    }

    /// What polling the two cursors changes and what it costs.
    pub proof fn lemma_fetched(self)
        requires
            self.streamed_valid(),
            self.buffered_valid(),
            !self.settled(),
        ensures
            self.fetched() is Ok ==> ({
                let (after, side) = self.fetched()->Ok_0;
                &&& after.follows(self)
                &&& after == (JoinView {
                    streamed_keys: after.streamed_keys,
                    streamed_rows: after.streamed_rows,
                    streamed_input: after.streamed_input,
                    streamed_state: after.streamed_state,
                    streamed_pos: after.streamed_pos,
                    buffered_keys: after.buffered_keys,
                    buffered_rows: after.buffered_rows,
                    buffered_input: after.buffered_input,
                    buffered_state: after.buffered_state,
                    run_start: after.run_start,
                    run_end: after.run_end,
                    ..self
                })
                &&& match side {
                    Some(Side::Streamed) => after.streamed_input is None && !after.settled(),
                    Some(Side::Buffered) => after.buffered_input is None && !after.settled(),
                    None => after.settled() && after.effort() < self.effort(),
                }
            }),
    {
        reveal(JoinView::fetched);
        reveal(JoinView::follows);
        self.lemma_streamed_step();
        if self.streamed_step() is Ok {
            let streamed = self.streamed_step()->Ok_0.0;
            streamed.lemma_buffered_step();
        }
    }

    /// What the streamed cursor's poll changes and what it costs.
    pub proof fn lemma_streamed_step(self)
        requires
            self.streamed_valid(),
        ensures
            self.streamed_state == StreamedState::Ready ==> self.streamed_step() == Ok::<
                (JoinView, RowPoll),
                JoinError,
            >((self, RowPoll::Ready)),
            self.streamed_state == StreamedState::Exhausted ==> self.streamed_step() == Ok::<
                (JoinView, RowPoll),
                JoinError,
            >((self, RowPoll::Exhausted)),
            self.streamed_step() is Ok ==> ({
                let (after, answer) = self.streamed_step()->Ok_0;
                &&& after == (JoinView {
                    streamed_keys: after.streamed_keys,
                    streamed_rows: after.streamed_rows,
                    streamed_input: after.streamed_input,
                    streamed_state: after.streamed_state,
                    streamed_pos: after.streamed_pos,
                    ..self
                })
                &&& self.streamed_keys.is_prefix_of(after.streamed_keys)
                &&& self.streamed_rows.is_prefix_of(after.streamed_rows)
                &&& after.streamed_effort() <= self.streamed_effort()
                &&& answer != RowPoll::Pending && (self.streamed_state == StreamedState::Init
                    || self.streamed_state == StreamedState::Polling) ==> after.streamed_effort()
                    < self.streamed_effort()
                &&& match answer {
                    RowPoll::Pending => after.streamed_input is None && after.streamed_state
                        == StreamedState::Polling,
                    RowPoll::Ready => after.streamed_state == StreamedState::Ready,
                    RowPoll::Exhausted => after.streamed_state == StreamedState::Exhausted,
                }
            }),
    {
        reveal(JoinView::streamed_step);
    }

    /// What the buffered cursor's poll changes and what it costs.
    pub proof fn lemma_buffered_step(self)
        requires
            self.buffered_valid(),
        ensures
            self.buffered_state == BufferedState::Ready ==> self.buffered_step() == Ok::<
                (JoinView, RowPoll),
                JoinError,
            >((self, RowPoll::Ready)),
            self.buffered_state == BufferedState::Exhausted ==> self.buffered_step() == Ok::<
                (JoinView, RowPoll),
                JoinError,
            >((self, RowPoll::Exhausted)),
            self.buffered_step() is Ok ==> ({
                let (after, answer) = self.buffered_step()->Ok_0;
                &&& after == (JoinView {
                    buffered_keys: after.buffered_keys,
                    buffered_rows: after.buffered_rows,
                    buffered_input: after.buffered_input,
                    buffered_state: after.buffered_state,
                    run_start: after.run_start,
                    run_end: after.run_end,
                    ..self
                })
                &&& self.buffered_keys.is_prefix_of(after.buffered_keys)
                &&& self.buffered_rows.is_prefix_of(after.buffered_rows)
                &&& after.buffered_run_effort() <= self.buffered_run_effort()
                &&& answer != RowPoll::Pending && self.buffered_state != BufferedState::Ready
                    && self.buffered_state != BufferedState::Exhausted
                    ==> after.buffered_run_effort() < self.buffered_run_effort()
                &&& match answer {
                    RowPoll::Pending => after.buffered_input is None && (after.buffered_state
                        == BufferedState::PollingFirst || after.buffered_state
                        == BufferedState::PollingRest),
                    RowPoll::Ready => after.buffered_state == BufferedState::Ready,
                    RowPoll::Exhausted => after.buffered_state == BufferedState::Exhausted,
                }
            }),
    {
        reveal(JoinView::buffered_step);
    }

    /// A view can come after itself.
    pub proof fn lemma_follows_self(self)
        ensures
            self.follows(self),
    {
        reveal(JoinView::follows);
    }

    /// What comes after what comes after a view comes after that view.
    pub proof fn lemma_follows_follows(self, middle: JoinView, before: JoinView)
        requires
            self.follows(middle),
            middle.follows(before),
        ensures
            self.follows(before),
    {
        reveal(JoinView::follows);
    }

    /// What the rows decided hold.
    pub open spec fn output_rows(self) -> Seq<Row> {
        joined_rows(
            self.join_type,
            self.streamed_rows,
            self.buffered_rows,
            self.streamed_width,
            self.buffered_width,
            self.joined,
        )
    }

    /// The view after the rows that wait were handed out.
    pub open spec fn handed_out(self) -> JoinView {
        JoinView { emitted: self.output_rows(), staged: 0, ..self }
    }

    /// What one round of the join's work does, by the state of the join:
    /// it chooses the input to move on; or it fetches and compares; or it
    /// makes output, and hands out a batch once as many rows wait as a batch
    /// holds; or, at the end, it hands out the rows that still wait.
    pub open spec fn round(self) -> Round {
        match self.state {
            SMJState::Init => Round::Go(self.after_init()),
            SMJState::Polling => match self.polled() {
                Err(e) => Round::Fail(e),
                Ok((after, Some(side))) => Round::Wait(after, side),
                Ok((after, None)) => Round::Go(after),
            },
            SMJState::JoinOutput => {
                let after = self.after_join_partial();
                if after.staged < after.batch_size {
                    Round::Go(JoinView { scanned: 0, state: SMJState::Init, ..after })
                } else {
                    Round::Out(after.handed_out())
                }
            },
            SMJState::Exhausted => if self.staged > 0 {
                Round::Out(self.handed_out())
            } else {
                Round::End(self)
            },
        }
    }

    /// The view after `count` rounds that all went on to a next round, if
    /// the join goes through that many.
    pub open spec fn rounds(self, count: nat) -> Option<JoinView>
        decreases count,
    {
        if count == 0 {
            Some(self)
        } else {
            match self.rounds((count - 1) as nat) {
                Some(before) => match before.round() {
                    Round::Go(after) => Some(after),
                    _ => None,
                },
                None => None,
            }
        }
    }

    /// Whether the round that begins at this view hands rows to Arrow:
    /// a round that decides output rows, which are gathered at once, or that
    /// has a batch to hand out, which is put together from those that wait.
    pub open spec fn asks_arrow(self) -> bool {
        match self.state {
            SMJState::JoinOutput => self.partial_rows().len() > 0
                || self.after_join_partial().staged >= self.batch_size,
            SMJState::Exhausted => self.staged > 0,
            _ => false,
        }
    }

    /// Whether a poll of the join that began at this view may end with the
    /// given answer at the view `after`: after some rounds that went on, the
    /// next round gives the answer; otherwise only Arrow can fail, and only
    /// in a round that hands rows to it.
    pub open spec fn answers(self, answer: Result<JoinPoll, JoinError>, after: JoinView) -> bool {
        exists|count: nat|
            match #[trigger] self.rounds(count) {
                Some(before) => match answer {
                    Ok(JoinPoll::Pending(side)) => before.round() == Round::Wait(after, side),
                    Ok(JoinPoll::Batch(batch)) => before.round() == Round::Out(after)
                        && after.emitted == before.emitted + batch_rows(batch),
                    Ok(JoinPoll::Finished) => before.round() == Round::End(after),
                    Err(e) => before.round() == Round::Fail(e) || (e is Arrow
                        && before.asks_arrow()),
                },
                None => false,
            }
    }

    /// A bound on the steps that the streamed cursor takes before it answers.
    pub open spec fn streamed_poll_effort(self) -> int {
        match self.streamed_state {
            StreamedState::Init => 3,
            StreamedState::Polling => if self.streamed_input is Some {
                2
            } else {
                1
            },
            _ => 0,
        }
    }

    /// A bound on the steps that the buffered cursor takes before it answers.
    pub open spec fn buffered_effort(self) -> int {
        (if self.buffered_input matches Some(StreamInput::Batch(_)) {
            8int
        } else {
            0int
        }) + (match self.buffered_state {
            BufferedState::Init => 6int,
            BufferedState::PollingFirst => 4int,
            BufferedState::PollingRest => 2int,
            _ => 0int,
        }) + (if self.run_end < self.buffered_keys.len() {
            1int
        } else {
            0int
        })
    }

    /// The settings are sound and the inputs taken in have a key for each row.
    pub open spec fn inputs_valid(self) -> bool {
        &&& self.batch_size >= 1
        &&& self.key_types.len() == self.sort_options.len()
        &&& self.streamed_keys.len() == self.streamed_rows.len()
        &&& self.buffered_keys.len() == self.buffered_rows.len()
        &&& forall|i: int|
            0 <= i < self.streamed_keys.len() ==> (#[trigger] self.streamed_keys[i]).len()
                == self.key_types.len()
        &&& forall|j: int|
            0 <= j < self.buffered_keys.len() ==> (#[trigger] self.buffered_keys[j]).len()
                == self.key_types.len()
    }

    /// The streamed cursor stands inside the streamed rows taken in.
    pub open spec fn streamed_valid(self) -> bool {
        &&& -1 <= self.streamed_pos < self.streamed_keys.len()
        &&& self.streamed_keys.len() > 0 ==> 0 <= self.streamed_pos
        &&& match self.streamed_state {
            StreamedState::Init => true,
            StreamedState::Polling => self.streamed_pos == self.streamed_keys.len() - 1,
            StreamedState::Ready => 0 <= self.streamed_pos,
            StreamedState::Exhausted => {
                &&& self.streamed_pos == self.streamed_keys.len() - 1
                &&& self.streamed_input == Some(StreamInput::End)
            },
        }
    }

    /// The rows of the run have one key.
    pub open spec fn run_same(self) -> bool {
        forall|j: int|
            self.run_start < j < self.run_end ==> #[trigger] rows_same(
                self.key_types,
                self.buffered_keys,
                self.run_start,
                j,
            )
    }

    /// The run cannot grow: the buffered row after it has another key, or the
    /// buffered input has ended with the run.
    pub open spec fn run_closed(self) -> bool {
        if self.run_end < self.buffered_keys.len() {
            key_same(self.key_types, self.run_key(), self.buffered_keys[self.run_end]) == Some(
                false,
            )
        } else {
            self.buffered_input == Some(StreamInput::End)
        }
    }

    /// The buffered run lies inside the buffered rows taken in, and is a
    /// whole run when the buffered state says so.
    pub open spec fn buffered_valid(self) -> bool {
        &&& 0 <= self.run_start <= self.run_end <= self.buffered_keys.len()
        &&& 0 <= self.scanned <= self.run_end - self.run_start
        &&& match self.buffered_state {
            BufferedState::Init => self.run_start < self.run_end ==> self.run_same()
                && self.run_closed(),
            BufferedState::PollingFirst => self.run_start == self.buffered_keys.len(),
            BufferedState::PollingRest => self.run_start < self.run_end && self.run_same(),
            BufferedState::Ready => {
                &&& self.run_start < self.run_end
                &&& self.run_same()
                &&& self.run_closed()
            },
            BufferedState::Exhausted => {
                &&& self.run_start == self.buffered_keys.len()
                &&& self.buffered_input == Some(StreamInput::End)
            },
        }
    }

    /// Both inputs stand at a row or a run, or have ended.
    pub open spec fn settled(self) -> bool {
        &&& self.streamed_state == StreamedState::Ready || self.streamed_state
            == StreamedState::Exhausted
        &&& self.buffered_state == BufferedState::Ready || self.buffered_state
            == BufferedState::Exhausted
    }

    /// The state of the join fits the states of its inputs.
    pub open spec fn state_valid(self) -> bool {
        match self.state {
            SMJState::Init => {
                &&& self.scanned == 0
                &&& (self.settled() && self.ordering() == Some(self.current_ordering)) || (
                self.streamed_state == StreamedState::Init && self.buffered_state
                    == BufferedState::Init)
            },
            SMJState::Polling => self.scanned == 0,
            SMJState::JoinOutput => {
                &&& self.settled()
                &&& self.ordering() == Some(self.current_ordering)
            },
            SMJState::Exhausted => {
                &&& self.streamed_state == StreamedState::Exhausted
                &&& self.buffered_state == BufferedState::Exhausted
            },
        }
    }

    /// What holds of the view of a join that has not failed.
    pub open spec fn valid(self) -> bool {
        &&& self.inputs_valid()
        &&& self.streamed_valid()
        &&& self.buffered_valid()
        &&& self.state_valid()
        &&& 0 <= self.staged
        &&& !self.failed
    }
}

} // verus!
