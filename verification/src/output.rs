//! What Arrow is asked for when the rows that the join has decided are made
//! into batches, and when it gives them.

use crate::batch::{assembled, null_batch, taken, Batch};
use crate::buffered::BufferedBatch;
use crate::model::JoinType;
use crate::stream::OutputIndex;
use arrow::datatypes::Schema;
use vstd::prelude::*;

verus! {

/// What the output batches are made from: the three schemas, the kind of
/// join, the current streamed batch and the buffered batches held.
pub struct Sources {
    pub schema: Schema,
    pub streamed_schema: Schema,
    pub buffered_schema: Schema,
    pub join_type: JoinType,
    pub streamed: Option<Batch>,
    pub buffered: Seq<BufferedBatch>,
}

/// The rows of the streamed batch that the indices name, in order.
pub open spec fn streamed_of(indices: Seq<OutputIndex>) -> Seq<usize> {
    Seq::new(indices.len(), |u: int| indices[u].streamed_idx->0)
}

/// The rows of a buffered batch that the indices name, in order.
pub open spec fn buffered_of(indices: Seq<OutputIndex>) -> Seq<usize> {
    Seq::new(
        indices.len(),
        |u: int|
            match indices[u].buffered_idx {
                Some(b) => b.1,
                None => 0,
            },
    )
}

/// The buffered batch that the index names.
pub open spec fn batch_of(index: OutputIndex) -> int {
    match index.buffered_idx {
        Some(b) => b.0 as int,
        None => 0,
    }
}

/// How many indices after the one at `start` name the same buffered batch
/// as it does, without another between.
pub open spec fn stretch_more(indices: Seq<OutputIndex>, start: int) -> nat
    decreases indices.len() - start,
{
    if 0 <= start && start + 1 < indices.len() && batch_of(indices[start + 1]) == batch_of(
        indices[start],
    ) {
        1 + stretch_more(indices, start + 1)
    } else {
        0
    }
}

/// Whether a stretch of indices that name one buffered batch begins at `at`.
pub open spec fn begins_stretch(indices: Seq<OutputIndex>, at: int) -> bool {
    at == 0 || batch_of(indices[at - 1]) != batch_of(indices[at])
}

/// The end of the stretch of indices from `start` on that name one
/// buffered batch.
pub open spec fn stretch_end(indices: Seq<OutputIndex>, start: int) -> int {
    start + 1 + stretch_more(indices, start)
}

/// A stretch of indices that name one buffered batch, and after which the
/// indices end or name another batch, ends where `stretch_end` says.
pub proof fn lemma_stretch_end(indices: Seq<OutputIndex>, start: int, end: int)
    requires
        0 <= start < end <= indices.len(),
        forall|u: int| start <= u < end ==> batch_of(#[trigger] indices[u]) == batch_of(indices[start]),
        end < indices.len() ==> batch_of(indices[end]) != batch_of(indices[start]),
    ensures
        stretch_end(indices, start) == end,
    decreases end - start,
{
    if start + 1 < end {
        assert(batch_of(indices[start + 1]) == batch_of(indices[start]));
        lemma_stretch_end(indices, start + 1, end);
    }
}

impl Sources {
    /// A batch of streamed columns and a batch of buffered columns side by
    /// side under the output schema, the left input's first.
    pub open spec fn beside(self, streamed: Batch, buffered: Batch) -> Option<Batch> {
        if self.join_type.streams_right() {
            assembled(self.schema, buffered, Some(streamed))
        } else {
            assembled(self.schema, streamed, Some(buffered))
        }
    }

    /// The batch for indices that pair streamed rows with rows of one
    /// buffered batch: the streamed rows gathered, beside the buffered rows
    /// gathered. `None` where Arrow fails at one of the three.
    pub open spec fn pair_batch(self, indices: Seq<OutputIndex>) -> Option<Batch> {
        match self.streamed {
            Some(batch) => match taken(batch, streamed_of(indices)) {
                Some(streamed) => match taken(
                    self.buffered[batch_of(indices[0])].batch,
                    buffered_of(indices),
                ) {
                    Some(buffered) => self.beside(streamed, buffered),
                    None => None,
                },
                None => None,
            },
            None => None,
        }
    }

    /// The batch for indices that name streamed rows alone: the streamed
    /// rows gathered, by themselves where the join puts out streamed columns
    /// only, else beside as many rows of nulls. `None` where Arrow fails at
    /// one of these.
    pub open spec fn alone_batch(self, indices: Seq<OutputIndex>) -> Option<Batch> {
        match self.streamed {
            Some(batch) => match taken(batch, streamed_of(indices)) {
                Some(streamed) => if self.join_type.streamed_columns_only() {
                    assembled(self.schema, streamed, None)
                } else {
                    match null_batch(self.buffered_schema, indices.len()) {
                        Some(nulls) => self.beside(streamed, nulls),
                        None => None,
                    }
                },
                None => None,
            },
            None => None,
        }
    }

    /// The batch for indices that name rows of one buffered batch alone: as
    /// many rows of nulls, beside the buffered rows gathered. `None` where
    /// Arrow fails at one of the three.
    pub open spec fn padded_batch(self, indices: Seq<OutputIndex>) -> Option<Batch> {
        match taken(self.buffered[batch_of(indices[0])].batch, buffered_of(indices)) {
            Some(buffered) => match null_batch(self.streamed_schema, indices.len()) {
                Some(nulls) => assembled(self.schema, nulls, Some(buffered)),
                None => None,
            },
            None => None,
        }
    }

    /// The batch for a stretch of indices that name one buffered batch.
    pub open spec fn stretch_batch(self, paired: bool, indices: Seq<OutputIndex>) -> Option<Batch> {
        if paired {
            self.pair_batch(indices)
        } else {
            self.padded_batch(indices)
        }
    }

    /// The batches for the indices from `start` on, a batch for each stretch
    /// of them that names one buffered batch and begins there or later.
    /// `None` where Arrow fails at one of the stretches.
    pub open spec fn batches_from(
        self,
        paired: bool,
        indices: Seq<OutputIndex>,
        start: int,
    ) -> Option<Seq<Batch>>
        decreases indices.len() - start,
    {
        if start < 0 || start >= indices.len() {
            Some(Seq::empty())
        } else if begins_stretch(indices, start) {
            match self.stretch_batch(
                paired,
                indices.subrange(start, stretch_end(indices, start)),
            ) {
                Some(batch) => match self.batches_from(paired, indices, start + 1) {
                    Some(rest) => Some(seq![batch] + rest),
                    None => None,
                },
                None => None,
            }
        } else {
            self.batches_from(paired, indices, start + 1)
        }
    }

    /// Indices at which no stretch begins add no batch.
    pub proof fn lemma_batches_skip(
        self,
        paired: bool,
        indices: Seq<OutputIndex>,
        from: int,
        to: int,
    )
        requires
            0 < from <= to <= indices.len(),
            forall|u: int| from <= u < to ==> !begins_stretch(indices, u),
        ensures
            self.batches_from(paired, indices, from) == self.batches_from(paired, indices, to),
        decreases to - from,
    {
        if from < to {
            assert(!begins_stretch(indices, from));
            self.lemma_batches_skip(paired, indices, from + 1, to);
        }
    }

    /// What the batches from the beginning of a stretch on are: the batch
    /// for the stretch, and then the batches from its end on.
    pub proof fn lemma_stretch(self, paired: bool, indices: Seq<OutputIndex>, start: int, end: int)
        requires
            0 <= start < end <= indices.len(),
            begins_stretch(indices, start),
            forall|u: int|
                start <= u < end ==> batch_of(#[trigger] indices[u]) == batch_of(indices[start]),
            end < indices.len() ==> batch_of(indices[end]) != batch_of(indices[start]),
        ensures
            self.batches_from(paired, indices, start) == (match self.stretch_batch(
                paired,
                indices.subrange(start, end),
            ) {
                Some(batch) => match self.batches_from(paired, indices, end) {
                    Some(rest) => Some(seq![batch] + rest),
                    None => None,
                },
                None => None,
            }),
            end < indices.len() ==> begins_stretch(indices, end),
    {
        lemma_stretch_end(indices, start, end);
        assert forall|u: int| start + 1 <= u < end implies !begins_stretch(indices, u) by {
            assert(batch_of(indices[u - 1]) == batch_of(indices[start]));
            assert(batch_of(indices[u]) == batch_of(indices[start]));
        }
        self.lemma_batches_skip(paired, indices, start + 1, end);
    }

    /// The batches for output indices of one kind: pairs and buffered rows
    /// alone go out stretch by stretch, streamed rows alone in one batch.
    /// `None` where Arrow fails at one of its tasks.
    pub open spec fn materialized(self, indices: Seq<OutputIndex>) -> Option<Seq<Batch>> {
        if indices.len() == 0 {
            Some(Seq::empty())
        } else if indices[0].is_pair() {
            self.batches_from(true, indices, 0)
        } else if indices[0].is_streamed_only() {
            match self.alone_batch(indices) {
                Some(batch) => Some(seq![batch]),
                None => None,
            }
        } else {
            self.batches_from(false, indices, 0)
        }
    }
}

} // verus!
