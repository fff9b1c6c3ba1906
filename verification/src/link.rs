//! How the batches that the stream holds stand to the rows that it has
//! taken in and decided: the links between the stream and its view.

use crate::batch::{all_rows, batch_rows, batch_width, Batch, InputBatch, Row};
use crate::buffered::{rows_before, run_rows_before, BufferedBatch, BufferedData};
use crate::key::{key_row, key_types, KeyColumn, KeyRow, KeyType};
use crate::model::{joined_rows, JoinType, JoinedRow};
use crate::view::{batch_keys, rows_same, run_stop};
use vstd::prelude::*;

verus! {

/// The position among the buffered rows of row `r` of the `k`-th buffered batch.
pub open spec fn buffered_slot(base: int, batches: Seq<BufferedBatch>, k: int, r: int) -> int {
    base + rows_before(batches, k) + r
}

/// The current streamed batch is the last stretch of the streamed rows taken in.
#[verifier::opaque]
pub open spec fn streamed_link(
    keys: Seq<KeyRow>,
    rows: Seq<Row>,
    batch: Option<Batch>,
    join_arrays: Seq<KeyColumn>,
    idx: int,
    base: int,
    types: Seq<KeyType>,
) -> bool {
    &&& keys.len() == rows.len()
    &&& match batch {
        None => keys.len() == 0 && base == 0 && idx == 0,
        Some(batch) => {
            &&& InputBatch::fits(batch, join_arrays)
            &&& key_types(join_arrays) == types
            &&& 0 <= idx < batch_rows(batch).len()
            &&& base >= 0
            &&& base + batch_rows(batch).len() == keys.len()
            &&& forall|r: int|
                #![trigger batch_rows(batch)[r]]
                #![trigger key_row(join_arrays, r)]
                0 <= r < batch_rows(batch).len() ==> {
                    &&& keys[base + r] == key_row(join_arrays, r)
                    &&& rows[base + r] == batch_rows(batch)[r]
                }
        },
    }
}

/// The buffered batches are the last stretch of the buffered rows taken in.
#[verifier::opaque]
pub open spec fn buffered_link(
    keys: Seq<KeyRow>,
    rows: Seq<Row>,
    batches: Seq<BufferedBatch>,
    base: int,
    types: Seq<KeyType>,
) -> bool {
    &&& keys.len() == rows.len()
    &&& base >= 0
    &&& base + rows_before(batches, batches.len() as int) == keys.len()
    &&& forall|k: int|
        0 <= k < batches.len() ==> {
            &&& (#[trigger] batches[k]).rows() > 0
            &&& key_types(batches[k].join_arrays@) == types
        }
    &&& forall|k: int, r: int|
        0 <= k < batches.len() && 0 <= r < batches[k].rows() ==> {
            &&& keys[#[trigger] buffered_slot(base, batches, k, r)] == key_row(
                batches[k].join_arrays@,
                r,
            )
            &&& rows[buffered_slot(base, batches, k, r)] == batch_rows(batches[k].batch)[r]
        }
}

/// Every row decided names rows that were taken in.
pub open spec fn joined_in_range(joined: Seq<JoinedRow>, streamed: int, buffered: int) -> bool {
    forall|k: int|
        0 <= k < joined.len() ==> {
            &&& (#[trigger] joined[k]).streamed matches Some(i) ==> 0 <= i < streamed
            &&& joined[k].buffered matches Some(j) ==> 0 <= j < buffered
        }
}

/// The batches that wait to be handed out hold the rows decided and not yet
/// handed out, but for the last `pending` of them.
#[verifier::opaque]
pub open spec fn output_link(
    join_type: JoinType,
    streamed_rows: Seq<Row>,
    buffered_rows: Seq<Row>,
    streamed_width: nat,
    buffered_width: nat,
    joined: Seq<JoinedRow>,
    emitted: Seq<Row>,
    staged: Seq<Batch>,
    width: nat,
    pending: int,
) -> bool {
    &&& 0 <= pending <= joined.len()
    &&& forall|k: int| 0 <= k < staged.len() ==> batch_width(#[trigger] staged[k]) == width
    &&& joined_rows(
        join_type,
        streamed_rows,
        buffered_rows,
        streamed_width,
        buffered_width,
        joined.take(joined.len() - pending),
    ) == emitted + all_rows(staged)
    &&& joined_in_range(joined, streamed_rows.len() as int, buffered_rows.len() as int)
}

/// The rows that were decided hold the same when more input rows are taken in.
pub proof fn lemma_joined_rows_extend(
    join_type: JoinType,
    streamed_rows: Seq<Row>,
    buffered_rows: Seq<Row>,
    streamed_width: nat,
    buffered_width: nat,
    rows: Seq<JoinedRow>,
    more_streamed: Seq<Row>,
    more_buffered: Seq<Row>,
)
    requires
        forall|k: int|
            0 <= k < rows.len() ==> {
                &&& (#[trigger] rows[k]).streamed matches Some(i) ==> 0 <= i < streamed_rows.len()
                &&& rows[k].buffered matches Some(j) ==> 0 <= j < buffered_rows.len()
            },
    ensures
        joined_rows(
            join_type,
            streamed_rows + more_streamed,
            buffered_rows + more_buffered,
            streamed_width,
            buffered_width,
            rows,
        ) == joined_rows(
            join_type,
            streamed_rows,
            buffered_rows,
            streamed_width,
            buffered_width,
            rows,
        ),
{
    assert(joined_rows(
        join_type,
        streamed_rows + more_streamed,
        buffered_rows + more_buffered,
        streamed_width,
        buffered_width,
        rows,
    ) =~= joined_rows(
        join_type,
        streamed_rows,
        buffered_rows,
        streamed_width,
        buffered_width,
        rows,
    ));
}

/// A batch with rows, taken in after the streamed rows so far, is linked to them.
pub proof fn lemma_streamed_link_take(
    keys: Seq<KeyRow>,
    rows: Seq<Row>,
    batch: Batch,
    join_arrays: Seq<KeyColumn>,
    types: Seq<KeyType>,
)
    requires
        keys.len() == rows.len(),
        InputBatch::fits(batch, join_arrays),
        key_types(join_arrays) == types,
        batch_rows(batch).len() > 0,
    ensures
        streamed_link(
            keys + batch_keys(batch, join_arrays),
            rows + batch_rows(batch),
            Some(batch),
            join_arrays,
            0,
            keys.len() as int,
            types,
        ),
{
    reveal(streamed_link);
}

/// What the link of the streamed batch says of the cursor.
pub proof fn lemma_streamed_link_at(
    keys: Seq<KeyRow>,
    rows: Seq<Row>,
    batch: Option<Batch>,
    join_arrays: Seq<KeyColumn>,
    idx: int,
    base: int,
    types: Seq<KeyType>,
)
    requires
        streamed_link(keys, rows, batch, join_arrays, idx, base, types),
    ensures
        keys.len() == rows.len(),
        match batch {
            None => keys.len() == 0 && base == 0 && idx == 0,
            Some(b) => {
                &&& InputBatch::fits(b, join_arrays)
                &&& key_types(join_arrays) == types
                &&& 0 <= idx < batch_rows(b).len()
                &&& base >= 0
                &&& base + batch_rows(b).len() == keys.len()
                &&& keys[base + idx] == key_row(join_arrays, idx)
                &&& rows[base + idx] == batch_rows(b)[idx]
            },
        },
{
    reveal(streamed_link);
}

/// The link of the streamed batch holds at every row of the batch.
pub proof fn lemma_streamed_link_move(
    keys: Seq<KeyRow>,
    rows: Seq<Row>,
    batch: Batch,
    join_arrays: Seq<KeyColumn>,
    idx: int,
    base: int,
    types: Seq<KeyType>,
    to: int,
)
    requires
        streamed_link(keys, rows, Some(batch), join_arrays, idx, base, types),
        0 <= to < batch_rows(batch).len(),
    ensures
        streamed_link(keys, rows, Some(batch), join_arrays, to, base, types),
{
    reveal(streamed_link);
}

/// The rows decided stay linked to the batches that wait when more input rows are taken in.
pub proof fn lemma_output_link_extend(
    join_type: JoinType,
    streamed_rows: Seq<Row>,
    buffered_rows: Seq<Row>,
    streamed_width: nat,
    buffered_width: nat,
    joined: Seq<JoinedRow>,
    emitted: Seq<Row>,
    staged: Seq<Batch>,
    width: nat,
    pending: int,
    more_streamed: Seq<Row>,
    more_buffered: Seq<Row>,
)
    requires
        output_link(
            join_type,
            streamed_rows,
            buffered_rows,
            streamed_width,
            buffered_width,
            joined,
            emitted,
            staged,
            width,
            pending,
        ),
    ensures
        output_link(
            join_type,
            streamed_rows + more_streamed,
            buffered_rows + more_buffered,
            streamed_width,
            buffered_width,
            joined,
            emitted,
            staged,
            width,
            pending,
        ),
{
    reveal(output_link);
    lemma_joined_rows_extend(
        join_type,
        streamed_rows,
        buffered_rows,
        streamed_width,
        buffered_width,
        joined.take(joined.len() - pending),
        more_streamed,
        more_buffered,
    );
}

/// The batches before the `k`-th hold as many rows in two lists whose first `k` batches are the same.
pub proof fn lemma_rows_before_same(a: Seq<BufferedBatch>, b: Seq<BufferedBatch>, k: int)
    requires
        0 <= k <= a.len(),
        k <= b.len(),
        forall|j: int| 0 <= j < k ==> (#[trigger] a[j]).batch == b[j].batch,
    ensures
        rows_before(a, k) == rows_before(b, k),
    decreases k,
{
    if k > 0 {
        lemma_rows_before_same(a, b, k - 1);
    }
}

/// The rows before a batch, counted in the list without its first `n` batches.
pub proof fn lemma_rows_before_drop(batches: Seq<BufferedBatch>, n: int, k: int)
    requires
        0 <= n,
        0 <= k,
        n + k <= batches.len(),
    ensures
        rows_before(batches.subrange(n, batches.len() as int), k) == rows_before(batches, n + k)
            - rows_before(batches, n),
    decreases k,
{
    if k > 0 {
        lemma_rows_before_drop(batches, n, k - 1);
        assert(batches.subrange(n, batches.len() as int)[k - 1] == batches[n + k - 1]);
    }
}

/// Later batches have no fewer rows before them.
pub proof fn lemma_rows_before_monotone(batches: Seq<BufferedBatch>, i: int, j: int)
    requires
        0 <= i <= j,
    ensures
        0 <= rows_before(batches, i) <= rows_before(batches, j),
    decreases j,
{
    if i < j {
        lemma_rows_before_monotone(batches, i, j - 1);
    } else if i > 0 {
        lemma_rows_before_monotone(batches, i - 1, i - 1);
    }
}

/// The rows of the run lie one after another among the buffered rows: the
/// ranges up to a batch hold the rows from the start of the first range to
/// the end of that batch's range.
pub proof fn lemma_run_span(data: BufferedData, k: int)
    requires
        data.batches_wf(),
        1 <= k <= data.batches@.len(),
    ensures
        run_rows_before(data.batches@, k) == rows_before(data.batches@, k - 1) + data.batches@[k
            - 1].range.end - data.batches@[0].range.start,
    decreases k,
{
    let batches = data.batches@;
    if k > 1 {
        lemma_run_span(data, k - 1);
        assert(batches[k - 2].range.end == batches[k - 2].rows());
        assert(batches[k - 1].range.start == 0);
        assert(rows_before(batches, k - 1) == rows_before(batches, k - 2) + batches[k - 2].rows());
        assert(run_rows_before(batches, k) == run_rows_before(batches, k - 1) + batches[k
            - 1].range_len());
    } else {
        assert(run_rows_before(batches, 0) == 0);
        assert(rows_before(batches, 0) == 0);
        assert(run_rows_before(batches, 1) == run_rows_before(batches, 0) + batches[0].range_len());
    }
}

/// What the link of the buffered batches says of their rows together.
pub proof fn lemma_buffered_link_len(
    keys: Seq<KeyRow>,
    rows: Seq<Row>,
    batches: Seq<BufferedBatch>,
    base: int,
    types: Seq<KeyType>,
)
    requires
        buffered_link(keys, rows, batches, base, types),
    ensures
        keys.len() == rows.len(),
        base >= 0,
        base + rows_before(batches, batches.len() as int) == keys.len(),
{
    reveal(buffered_link);
}

/// What the link of the buffered batches says of one row of one batch.
pub proof fn lemma_buffered_link_at(
    keys: Seq<KeyRow>,
    rows: Seq<Row>,
    batches: Seq<BufferedBatch>,
    base: int,
    types: Seq<KeyType>,
    k: int,
    r: int,
)
    requires
        buffered_link(keys, rows, batches, base, types),
        0 <= k < batches.len(),
        0 <= r < batches[k].rows(),
    ensures
        0 <= buffered_slot(base, batches, k, r) < keys.len(),
        keys[buffered_slot(base, batches, k, r)] == key_row(batches[k].join_arrays@, r),
        rows[buffered_slot(base, batches, k, r)] == batch_rows(batches[k].batch)[r],
        key_types(batches[k].join_arrays@) == types,
{
    reveal(buffered_link);
    lemma_rows_before_monotone(batches, 0, k);
    lemma_rows_before_monotone(batches, k + 1, batches.len() as int);
}

/// The buffered batches stay linked when the first `n` of them are dropped.
pub proof fn lemma_buffered_link_drop(
    keys: Seq<KeyRow>,
    rows: Seq<Row>,
    batches: Seq<BufferedBatch>,
    base: int,
    types: Seq<KeyType>,
    n: int,
)
    requires
        buffered_link(keys, rows, batches, base, types),
        0 <= n <= batches.len(),
    ensures
        buffered_link(
            keys,
            rows,
            batches.subrange(n, batches.len() as int),
            base + rows_before(batches, n),
            types,
        ),
{
    reveal(buffered_link);
    let rest = batches.subrange(n, batches.len() as int);
    let rest_base = base + rows_before(batches, n);
    lemma_rows_before_monotone(batches, 0, n);
    lemma_rows_before_drop(batches, n, rest.len() as int);
    assert forall|k: int, r: int| 0 <= k < rest.len() && 0 <= r < rest[k].rows() implies {
        &&& keys[#[trigger] buffered_slot(rest_base, rest, k, r)] == key_row(
            rest[k].join_arrays@,
            r,
        )
        &&& rows[buffered_slot(rest_base, rest, k, r)] == batch_rows(rest[k].batch)[r]
    } by {
        lemma_rows_before_drop(batches, n, k);
        assert(rest[k] == batches[n + k]);
        assert(buffered_slot(rest_base, rest, k, r) == buffered_slot(base, batches, n + k, r));
    }
    assert forall|k: int| 0 <= k < rest.len() implies {
        &&& (#[trigger] rest[k]).rows() > 0
        &&& key_types(rest[k].join_arrays@) == types
    } by {
        assert(rest[k] == batches[n + k]);
    }
}

/// The buffered batches stay linked when a batch with rows is taken in after them.
pub proof fn lemma_buffered_link_push(
    keys: Seq<KeyRow>,
    rows: Seq<Row>,
    batches: Seq<BufferedBatch>,
    base: int,
    types: Seq<KeyType>,
    batch: BufferedBatch,
)
    requires
        buffered_link(keys, rows, batches, base, types),
        batch.rows() > 0,
        key_types(batch.join_arrays@) == types,
    ensures
        buffered_link(
            keys + batch_keys(batch.batch, batch.join_arrays@),
            rows + batch_rows(batch.batch),
            batches.push(batch),
            base,
            types,
        ),
{
    reveal(buffered_link);
    let more = batches.push(batch);
    let more_keys = keys + batch_keys(batch.batch, batch.join_arrays@);
    let more_rows = rows + batch_rows(batch.batch);
    let n = batches.len() as int;
    lemma_rows_before_same(batches, more, n);
    assert forall|k: int, r: int| 0 <= k < more.len() && 0 <= r < more[k].rows() implies {
        &&& more_keys[#[trigger] buffered_slot(base, more, k, r)] == key_row(
            more[k].join_arrays@,
            r,
        )
        &&& more_rows[buffered_slot(base, more, k, r)] == batch_rows(more[k].batch)[r]
    } by {
        lemma_rows_before_same(batches, more, k);
        if k < n {
            lemma_rows_before_monotone(batches, 0, k);
            lemma_rows_before_monotone(batches, k + 1, n);
            assert(more[k] == batches[k]);
            assert(buffered_slot(base, more, k, r) == buffered_slot(base, batches, k, r));
        }
    }
    assert forall|k: int| 0 <= k < more.len() implies {
        &&& (#[trigger] more[k]).rows() > 0
        &&& key_types(more[k].join_arrays@) == types
    } by {
        if k < n {
            assert(more[k] == batches[k]);
        }
    }
}

/// The link of the buffered batches does not depend on their ranges.
pub proof fn lemma_buffered_link_same(
    keys: Seq<KeyRow>,
    rows: Seq<Row>,
    batches: Seq<BufferedBatch>,
    base: int,
    types: Seq<KeyType>,
    other: Seq<BufferedBatch>,
)
    requires
        buffered_link(keys, rows, batches, base, types),
        other.len() == batches.len(),
        forall|k: int|
            0 <= k < batches.len() ==> (#[trigger] other[k]).batch == batches[k].batch
                && other[k].join_arrays == batches[k].join_arrays,
    ensures
        buffered_link(keys, rows, other, base, types),
{
    reveal(buffered_link);
    lemma_rows_before_same(batches, other, batches.len() as int);
    assert forall|k: int, r: int| 0 <= k < other.len() && 0 <= r < other[k].rows() implies {
        &&& keys[#[trigger] buffered_slot(base, other, k, r)] == key_row(
            other[k].join_arrays@,
            r,
        )
        &&& rows[buffered_slot(base, other, k, r)] == batch_rows(other[k].batch)[r]
    } by {
        lemma_rows_before_same(batches, other, k);
        assert(other[k].batch == batches[k].batch);
        assert(buffered_slot(base, other, k, r) == buffered_slot(base, batches, k, r));
    }
    assert forall|k: int| 0 <= k < other.len() implies {
        &&& (#[trigger] other[k]).rows() > 0
        &&& key_types(other[k].join_arrays@) == types
    } by {
        assert(other[k].batch == batches[k].batch);
    }
}

/// A run that reaches from `from` to `to` stops where it stops from `to` on.
pub proof fn lemma_run_stop_skip(types: Seq<KeyType>, keys: Seq<KeyRow>, start: int, from: int, to: int)
    requires
        0 <= from <= to <= keys.len(),
        forall|j: int| from <= j < to ==> #[trigger] rows_same(types, keys, start, j),
    ensures
        run_stop(types, keys, start, from) == run_stop(types, keys, start, to),
    decreases to - from,
{
    if from < to {
        lemma_run_stop_skip(types, keys, start, from + 1, to);
    }
}

/// The position among the buffered rows of the row at which the scan stands.
pub proof fn lemma_scan_slot(data: BufferedData, base: int)
    requires
        data.batches_wf(),
        data.scan_wf(),
        data.scanning_batch_idx < data.batches@.len(),
    ensures
        buffered_slot(
            base,
            data.batches@,
            data.scanning_batch_idx as int,
            data.batches@[data.scanning_batch_idx as int].range.start + data.scanning_offset,
        ) == base + data.batches@[0].range.start + data.scanned(),
        data.batches@[data.scanning_batch_idx as int].range.start + data.scanning_offset
            < data.batches@[data.scanning_batch_idx as int].rows(),
{
    let batches = data.batches@;
    let k = data.scanning_batch_idx as int;
    assert(batches[k].wf());
    if k == 0 {
        assert(rows_before(batches, 0) == 0);
        assert(run_rows_before(batches, 0) == 0);
    } else {
        lemma_run_span(data, k);
        assert(batches[k - 1].range.end == batches[k - 1].rows());
        assert(batches[k].range.start == 0);
        assert(rows_before(batches, k) == rows_before(batches, k - 1) + batches[k - 1].rows());
    }
}

/// The rows of the run are as many as lie between its two ends.
pub proof fn lemma_run_len(data: BufferedData)
    requires
        data.batches_wf(),
        data.batches@.len() > 0,
    ensures
        data.run_len() == rows_before(data.batches@, data.batches@.len() - 1)
            + data.batches@.last().range.end - data.batches@[0].range.start,
{
    lemma_run_span(data, data.batches@.len() as int);
}

/// The batches that wait stay linked to the rows decided when one more row is decided.
pub proof fn lemma_output_link_decide(
    join_type: JoinType,
    streamed_rows: Seq<Row>,
    buffered_rows: Seq<Row>,
    streamed_width: nat,
    buffered_width: nat,
    joined: Seq<JoinedRow>,
    emitted: Seq<Row>,
    staged: Seq<Batch>,
    width: nat,
    pending: int,
    row: JoinedRow,
)
    requires
        output_link(
            join_type,
            streamed_rows,
            buffered_rows,
            streamed_width,
            buffered_width,
            joined,
            emitted,
            staged,
            width,
            pending,
        ),
        row.streamed matches Some(i) ==> 0 <= i < streamed_rows.len(),
        row.buffered matches Some(j) ==> 0 <= j < buffered_rows.len(),
    ensures
        output_link(
            join_type,
            streamed_rows,
            buffered_rows,
            streamed_width,
            buffered_width,
            joined.push(row),
            emitted,
            staged,
            width,
            pending + 1,
        ),
{
    reveal(output_link);
    assert(joined.push(row).take(joined.push(row).len() - (pending + 1)) =~= joined.take(
        joined.len() - pending,
    ));
}

/// What the link of the streamed batch says of one row of the batch.
pub proof fn lemma_streamed_link_row(
    keys: Seq<KeyRow>,
    rows: Seq<Row>,
    batch: Batch,
    join_arrays: Seq<KeyColumn>,
    idx: int,
    base: int,
    types: Seq<KeyType>,
    r: int,
)
    requires
        streamed_link(keys, rows, Some(batch), join_arrays, idx, base, types),
        0 <= r < batch_rows(batch).len(),
    ensures
        0 <= base + r < keys.len(),
        keys.len() == rows.len(),
        keys[base + r] == key_row(join_arrays, r),
        rows[base + r] == batch_rows(batch)[r],
{
    reveal(streamed_link);
}

/// The batches that wait stay linked to the rows decided when a batch is
/// added that holds the next `count` of the rows not yet in a batch.
pub proof fn lemma_output_link_stage(
    join_type: JoinType,
    streamed_rows: Seq<Row>,
    buffered_rows: Seq<Row>,
    streamed_width: nat,
    buffered_width: nat,
    joined: Seq<JoinedRow>,
    emitted: Seq<Row>,
    staged: Seq<Batch>,
    width: nat,
    pending: int,
    batch: Batch,
    count: int,
)
    requires
        output_link(
            join_type,
            streamed_rows,
            buffered_rows,
            streamed_width,
            buffered_width,
            joined,
            emitted,
            staged,
            width,
            pending,
        ),
        0 <= count <= pending,
        batch_width(batch) == width,
        batch_rows(batch) == joined_rows(
            join_type,
            streamed_rows,
            buffered_rows,
            streamed_width,
            buffered_width,
            joined.subrange(joined.len() - pending, joined.len() - pending + count),
        ),
    ensures
        output_link(
            join_type,
            streamed_rows,
            buffered_rows,
            streamed_width,
            buffered_width,
            joined,
            emitted,
            staged.push(batch),
            width,
            pending - count,
        ),
        all_rows(staged.push(batch)).len() == all_rows(staged).len() + count,
{
    reveal(output_link);
    let done = joined.len() - pending;
    assert(staged.push(batch).drop_last() =~= staged);
    assert(all_rows(staged.push(batch)) == all_rows(staged) + batch_rows(batch));
    assert(joined_rows(
        join_type,
        streamed_rows,
        buffered_rows,
        streamed_width,
        buffered_width,
        joined.take(done + count),
    ) =~= joined_rows(
        join_type,
        streamed_rows,
        buffered_rows,
        streamed_width,
        buffered_width,
        joined.take(done),
    ) + joined_rows(
        join_type,
        streamed_rows,
        buffered_rows,
        streamed_width,
        buffered_width,
        joined.subrange(done, done + count),
    ));
    assert(emitted + all_rows(staged.push(batch)) =~= (emitted + all_rows(staged)) + batch_rows(
        batch,
    ));
}

} // verus!
