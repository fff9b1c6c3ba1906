//! The buffered side of the join: the batches that hold the current run of
//! rows with one join key, and the cursor that scans the run.

use crate::batch::{batch_flat, batch_rows, num_rows, Batch, InputBatch};
use crate::key::{
    columns_cover, is_join_arrays_equal, key_row, key_same, key_types, KeyColumn, KeyError,
};
use std::collections::VecDeque;
use std::ops::Range;
use vstd::prelude::*;

verus! {

/// A buffered batch and the rows of it that belong to the current run.
pub struct BufferedBatch {
    /// The buffered record batch.
    pub batch: Batch,
    /// The rows of the batch that share the run's join key.
    pub range: Range<usize>,
    /// The join key columns of the batch.
    pub join_arrays: Vec<KeyColumn>,
}

impl BufferedBatch {
    /// The range lies inside the batch, the key columns fit the batch, and
    /// the join can carry every column of the batch.
    pub open spec fn wf(&self) -> bool {
        &&& self.range.start <= self.range.end <= batch_rows(self.batch).len()
        &&& InputBatch::fits(self.batch, self.join_arrays@)
        &&& batch_flat(self.batch)
    }

    /// The number of rows of the batch.
    pub open spec fn rows(&self) -> int {
        batch_rows(self.batch).len() as int
    }

    /// The number of rows in the range.
    pub open spec fn range_len(&self) -> int {
        self.range.end - self.range.start
    }

    /// Buffers an input batch with the given range of rows.
    pub fn new(batch: InputBatch, range: Range<usize>) -> (r: BufferedBatch)
        ensures
            r.batch == batch.batch_view(),
            r.join_arrays@ == batch.keys_view(),
            r.range == range,
            InputBatch::fits(r.batch, r.join_arrays@),
            batch_flat(r.batch),
    {
        let (batch, join_arrays) = batch.into_parts();
        BufferedBatch { batch, range, join_arrays }
    }
}

/// The rows that the ranges of the first `k` batches hold together.
pub open spec fn run_rows_before(batches: Seq<BufferedBatch>, k: int) -> int
    decreases k,
{
    if k <= 0 {
        0
    } else {
        run_rows_before(batches, k - 1) + batches[k - 1].range_len()
    }
}

/// The rows that the first `k` batches hold together.
pub open spec fn rows_before(batches: Seq<BufferedBatch>, k: int) -> int
    decreases k,
{
    if k <= 0 {
        0
    } else {
        rows_before(batches, k - 1) + batches[k - 1].rows()
    }
}

/// `VecDeque::back_mut` on a deque that is not empty: a mutable reference to
/// its last element, through which that element alone changes.
#[verifier::external_body]
fn back_mut(batches: &mut VecDeque<BufferedBatch>) -> (last: &mut BufferedBatch)
    requires
        old(batches)@.len() > 0,
    ensures
        *last == old(batches)@.last(),
        final(batches)@ == old(batches)@.update(old(batches)@.len() - 1, *final(last)),
{
    batches.back_mut().unwrap()
}

/// The buffered batches that hold the rows of one run, in the order in which
/// they arrived, and the position of the scan through the run.
pub struct BufferedData {
    /// The buffered batches of the run.
    pub batches: VecDeque<BufferedBatch>,
    /// The batch at which the scan stands.
    pub scanning_batch_idx: usize,
    /// The scan's offset into the range of that batch.
    pub scanning_offset: usize,
}

impl Default for BufferedData {
    /// No batches, the scan at the start.
    fn default() -> (r: BufferedData)
        ensures
            r.batches@.len() == 0,
            r.scanning_batch_idx == 0,
            r.scanning_offset == 0,
            r.wf(),
    {
        BufferedData { batches: VecDeque::new(), scanning_batch_idx: 0, scanning_offset: 0 }
    }
}

impl BufferedData {
    /// The batches are well formed and hold one contiguous stretch of rows:
    /// each but the last is covered to its end, and each but the first from
    /// its start.
    pub open spec fn batches_wf(&self) -> bool {
        &&& forall|k: int| 0 <= k < self.batches@.len() ==> (#[trigger] self.batches@[k]).wf()
        &&& forall|k: int|
            0 <= k < self.batches@.len() - 1 ==> (#[trigger] self.batches@[k]).range.end
                == self.batches@[k].rows()
        &&& forall|k: int|
            1 <= k < self.batches@.len() ==> (#[trigger] self.batches@[k]).range.start == 0
    }

    /// The scan stands at a row of the run or at the run's end.
    pub open spec fn scan_wf(&self) -> bool {
        if self.scanning_batch_idx < self.batches@.len() {
            self.scanning_offset < self.batches@[self.scanning_batch_idx as int].range_len()
        } else {
            self.scanning_batch_idx == self.batches@.len() && self.scanning_offset == 0
        }
    }

    /// What holds of the buffered data between the steps of the join.
    pub open spec fn wf(&self) -> bool {
        &&& self.batches_wf()
        &&& self.scan_wf()
        &&& self.batches@.len() > 0 ==> self.batches@[0].range_len() > 0
    }

    /// The number of rows of the run.
    pub open spec fn run_len(&self) -> int {
        run_rows_before(self.batches@, self.batches@.len() as int)
    }

    /// The number of rows of the run that the scan has passed.
    pub open spec fn scanned(&self) -> int {
        run_rows_before(self.batches@, self.scanning_batch_idx as int) + self.scanning_offset
    }

    /// The ranges before a batch hold no more rows than those up to a later one.
    pub proof fn lemma_run_rows_monotone(batches: Seq<BufferedBatch>, i: int, j: int)
        requires
            0 <= i <= j <= batches.len(),
            forall|k: int| 0 <= k < batches.len() ==> (#[trigger] batches[k]).wf(),
        ensures
            0 <= run_rows_before(batches, i) <= run_rows_before(batches, j),
        decreases j,
    {
        if i < j {
            Self::lemma_run_rows_monotone(batches, i, j - 1);
        } else if i > 0 {
            Self::lemma_run_rows_monotone(batches, i - 1, i - 1);
        }
    }

    /// The scan has passed the whole run exactly when it is finished.
    pub proof fn lemma_scanned(&self)
        requires
            self.batches_wf(),
            self.scan_wf(),
        ensures
            0 <= self.scanned() <= self.run_len(),
            self.scanned() == self.run_len() <==> self.scanning_batch_idx == self.batches@.len(),
    {
        let n = self.batches@.len() as int;
        let i = self.scanning_batch_idx as int;
        Self::lemma_run_rows_monotone(self.batches@, i, i);
        if i < n {
            Self::lemma_run_rows_monotone(self.batches@, i + 1, n);
        }
    }

    /// The first batch of the run.
    pub fn head_batch(&self) -> (r: &BufferedBatch)
        requires
            self.batches@.len() > 0,
        ensures
            *r == self.batches@[0],
    {
        &self.batches[0]
    }

    /// The last batch of the run.
    pub fn tail_batch(&self) -> (r: &BufferedBatch)
        requires
            self.batches@.len() > 0,
        ensures
            *r == self.batches@.last(),
    {
        &self.batches[self.batches.len() - 1]
    }

    /// The last batch of the run, to be changed in place.
    pub fn tail_batch_mut(&mut self) -> (r: &mut BufferedBatch)
        requires
            old(self).batches@.len() > 0,
        ensures
            *r == old(self).batches@.last(),
            final(self).batches@ == old(self).batches@.update(
                old(self).batches@.len() - 1,
                *final(r),
            ),
            final(self).scanning_batch_idx == old(self).scanning_batch_idx,
            final(self).scanning_offset == old(self).scanning_offset,
    {
        back_mut(&mut self.batches)
    }

    /// Whether any batch has a row in its range.
    pub fn has_buffered_rows(&self) -> (r: bool)
        ensures
            r == exists|k: int|
                0 <= k < self.batches@.len() && (#[trigger] self.batches@[k]).range_len() > 0,
    {
        let mut k: usize = 0;
        while k < self.batches.len()
            invariant
                0 <= k <= self.batches@.len(),
                forall|j: int| 0 <= j < k ==> (#[trigger] self.batches@[j]).range_len() <= 0,
            decreases self.batches@.len() - k,
        {
            if self.batches[k].range.start < self.batches[k].range.end {
                return true;
            }
            k += 1;
        }
        false
    }

    /// Puts the scan back to the start of the run.
    pub fn scanning_reset(&mut self)
        ensures
            final(self).batches == old(self).batches,
            final(self).scanning_batch_idx == 0,
            final(self).scanning_offset == 0,
            final(self).scanned() == 0,
    {
        self.scanning_batch_idx = 0;
        self.scanning_offset = 0;
    }

    /// Moves the scan on by one row of the run, passing over batches whose
    /// range it has used up.
    pub fn scanning_advance(&mut self)
        requires
            old(self).batches_wf(),
            old(self).scan_wf(),
            old(self).scanning_batch_idx < old(self).batches@.len(),
        ensures
            final(self).batches == old(self).batches,
            final(self).scan_wf(),
            final(self).scanned() == old(self).scanned() + 1,
            final(self).scanning_batch_idx >= old(self).scanning_batch_idx,
    {
        let batches: usize = self.batches.len();
        self.scanning_offset += 1;
        while !self.scanning_finished() && self.scanning_batch_finished()
            invariant
                self.batches == old(self).batches,
                batches == self.batches@.len(),
                self.batches_wf(),
                self.scanning_batch_idx >= old(self).scanning_batch_idx,
                self.scanning_batch_idx <= self.batches@.len(),
                self.scanning_batch_idx < self.batches@.len() ==> self.scanning_offset
                    <= self.batches@[self.scanning_batch_idx as int].range_len(),
                self.scanning_batch_idx == self.batches@.len() ==> self.scanning_offset == 0,
                self.scanned() == old(self).scanned() + 1,
            decreases self.batches@.len() - self.scanning_batch_idx,
        {
            self.scanning_batch_idx += 1;
            self.scanning_offset = 0;
        }
    }

    /// The batch at which the scan stands.
    pub fn scanning_batch(&self) -> (r: &BufferedBatch)
        requires
            self.scanning_batch_idx < self.batches@.len(),
        ensures
            *r == self.batches@[self.scanning_batch_idx as int],
    {
        &self.batches[self.scanning_batch_idx]
    }

    /// The row of its batch at which the scan stands.
    pub fn scanning_idx(&self) -> (r: usize)
        requires
            self.scanning_batch_idx < self.batches@.len(),
            self.batches@[self.scanning_batch_idx as int].wf(),
            self.scanning_offset <= self.batches@[self.scanning_batch_idx as int].range_len(),
        ensures
            r == self.batches@[self.scanning_batch_idx as int].range.start + self.scanning_offset,
    {
        self.scanning_batch().range.start + self.scanning_offset
    }

    /// Whether the scan has used up the range of its batch.
    pub fn scanning_batch_finished(&self) -> (r: bool)
        requires
            self.scanning_batch_idx < self.batches@.len(),
            self.batches@[self.scanning_batch_idx as int].wf(),
        ensures
            r == (self.scanning_offset == self.batches@[self.scanning_batch_idx as int].range_len()),
    {
        let batch = self.scanning_batch();
        self.scanning_offset == batch.range.end - batch.range.start
    }

    /// Whether the scan has passed every batch.
    pub fn scanning_finished(&self) -> (r: bool)
        ensures
            r == (self.scanning_batch_idx == self.batches@.len()),
    {
        self.scanning_batch_idx == self.batches.len()
    }

    /// Puts the scan at the end of the run.
    pub fn scanning_finish(&mut self)
        ensures
            final(self).batches == old(self).batches,
            final(self).scanning_batch_idx == final(self).batches@.len(),
            final(self).scanning_offset == 0,
            final(self).scan_wf(),
            final(self).scanned() == final(self).run_len(),
    {
        self.scanning_batch_idx = self.batches.len();
        self.scanning_offset = 0;
    }

    /// Whether row `row` of the last batch has the key of the run: the same
    /// non-null value in every column as the first row of the run. `None`
    /// where the comparison meets an unsupported type.
    pub open spec fn has_run_key(&self, row: int) -> Option<bool> {
        let head = self.batches@[0];
        let tail = self.batches@.last();
        key_same(
            key_types(head.join_arrays@),
            key_row(head.join_arrays@, head.range.start as int),
            key_row(tail.join_arrays@, row),
        )
    }

    /// Drops the batches at the front whose rows the run has used up, and
    /// says how many they were.
    pub fn pop_consumed(&mut self) -> (n: Ghost<int>)
        requires
            old(self).batches_wf(),
        ensures
            0 <= n@ <= old(self).batches@.len(),
            final(self).batches@ == old(self).batches@.subrange(
                n@,
                old(self).batches@.len() as int,
            ),
            n@ < old(self).batches@.len() ==> n@ == old(self).batches@.len() - 1
                && old(self).batches@.last().range.end < old(self).batches@.last().rows(),
            n@ == old(self).batches@.len() && n@ > 0 ==> old(self).batches@.last().range.end
                == old(self).batches@.last().rows(),
            final(self).batches@.len() > 0 ==> final(self).batches@[0].rows() <= usize::MAX,
            final(self).scanning_batch_idx == old(self).scanning_batch_idx,
            final(self).scanning_offset == old(self).scanning_offset,
    {
        let ghost mut n: int = 0;
        while self.batches.len() > 0
            invariant
                0 <= n <= old(self).batches@.len(),
                old(self).batches_wf(),
                self.batches@ == old(self).batches@.subrange(n, old(self).batches@.len() as int),
                self.scanning_batch_idx == old(self).scanning_batch_idx,
                self.scanning_offset == old(self).scanning_offset,
                n > 0 ==> old(self).batches@[n - 1].range.end == old(self).batches@[n - 1].rows(),
            ensures
                self.batches@.len() > 0 ==> self.batches@[0].range.end < self.batches@[0].rows()
                    <= usize::MAX,
            decreases self.batches@.len(),
        {
            let head_batch = self.head_batch();
            assert(*head_batch == old(self).batches@[n]);
            if head_batch.range.end == num_rows(&head_batch.batch) {
                self.batches.pop_front();
                proof {
                    n = n + 1;
                }
            } else {
                break ;
            }
        }
        Ghost(n)
    }

    /// Starts the next run in the last batch: the run is the one row after
    /// the rows that the batch gave to the run before it.
    pub fn start_next_run(&mut self)
        requires
            old(self).batches@.len() > 0,
            old(self).batches@.last().wf(),
            old(self).batches@.last().range.end < old(self).batches@.last().rows() <= usize::MAX,
        ensures
            final(self).batches@ == old(self).batches@.update(
                old(self).batches@.len() - 1,
                BufferedBatch {
                    range: (old(self).batches@.last().range.end)..(
                    (old(self).batches@.last().range.end + 1) as usize),
                    ..old(self).batches@.last()
                },
            ),
            final(self).scanning_batch_idx == old(self).scanning_batch_idx,
            final(self).scanning_offset == old(self).scanning_offset,
    {
        let tail_batch = self.tail_batch_mut();
        tail_batch.range.start = tail_batch.range.end;
        tail_batch.range.end += 1;
    }

    /// Grows the run through the last batch: takes into the run each next
    /// row of the batch that has the key of the run. Says whether it met a
    /// row with another key; if not, the run now reaches the end of the batch.
    pub fn extend_run(&mut self) -> (r: Result<bool, KeyError>)
        requires
            old(self).batches_wf(),
            old(self).batches@.len() > 0,
            old(self).batches@[0].range.start < old(self).batches@[0].rows(),
        ensures
            final(self).batches@ == old(self).batches@.update(
                old(self).batches@.len() - 1,
                BufferedBatch {
                    range: (old(self).batches@.last().range.start)..(
                    final(self).batches@.last().range.end),
                    ..old(self).batches@.last()
                },
            ),
            final(self).scanning_batch_idx == old(self).scanning_batch_idx,
            final(self).scanning_offset == old(self).scanning_offset,
            old(self).batches@.last().range.end <= final(self).batches@.last().range.end
                <= old(self).batches@.last().rows(),
            forall|row: int|
                old(self).batches@.last().range.end <= row < final(self).batches@.last().range.end
                    ==> #[trigger] old(self).has_run_key(row) == Some(true),
            match r {
                Ok(met) => if met {
                    &&& final(self).batches@.last().range.end < old(self).batches@.last().rows()
                    &&& old(self).has_run_key(final(self).batches@.last().range.end as int) == Some(
                        false,
                    )
                } else {
                    final(self).batches@.last().range.end == old(self).batches@.last().rows()
                },
                Err(e) => {
                    &&& final(self).batches@.last().range.end < old(self).batches@.last().rows()
                    &&& old(self).has_run_key(final(self).batches@.last().range.end as int) is None
                },
            },
    {
        let ghost last = old(self).batches@.len() - 1;
        loop
            invariant
                old(self).batches_wf(),
                old(self).batches@.len() > 0,
                last == old(self).batches@.len() - 1,
                old(self).batches@[0].range.start < old(self).batches@[0].rows(),
                self.batches@ == old(self).batches@.update(
                    last,
                    BufferedBatch {
                        range: (old(self).batches@.last().range.start)..(
                        self.batches@.last().range.end),
                        ..old(self).batches@.last()
                    },
                ),
                self.scanning_batch_idx == old(self).scanning_batch_idx,
                self.scanning_offset == old(self).scanning_offset,
                old(self).batches@.last().range.end <= self.batches@.last().range.end
                    <= old(self).batches@.last().rows(),
                forall|row: int|
                    old(self).batches@.last().range.end <= row < self.batches@.last().range.end
                        ==> #[trigger] old(self).has_run_key(row) == Some(true),
            decreases old(self).batches@.last().rows() - self.batches@.last().range.end,
        {
            let tail_end = self.tail_batch().range.end;
            if tail_end >= num_rows(&self.tail_batch().batch) {
                return Ok(false);
            }
            proof {
                let head = self.batches@[0];
                let tail = self.batches@.last();
                assert(head.join_arrays == old(self).batches@[0].join_arrays);
                assert(head.range.start == old(self).batches@[0].range.start);
                assert(head.batch == old(self).batches@[0].batch);
                assert(tail.join_arrays == old(self).batches@.last().join_arrays);
                assert(old(self).batches@[0].wf());
                assert(old(self).batches@.last().wf());
                assert(columns_cover(head.join_arrays@, head.range.start + 1));
                assert(columns_cover(tail.join_arrays@, tail_end + 1));
            }
            let same = is_join_arrays_equal(
                &self.head_batch().join_arrays,
                self.head_batch().range.start,
                &self.tail_batch().join_arrays,
                tail_end,
            );
            match same {
                Err(e) => {
                    return Err(e);
                },
                Ok(false) => {
                    return Ok(true);
                },
                Ok(true) => {
                    let tail_batch = self.tail_batch_mut();
                    tail_batch.range.end += 1;
                },
            }
        }
    }
}

} // verus!
