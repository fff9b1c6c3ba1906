//! What the join puts out, stated over the rows of its two inputs, and the
//! proof that the stream puts out just that.

use crate::key::{key_order, key_same, KeyOrder, KeyRow, KeyType, SortOptions};
use crate::model::{JoinType, JoinedRow};
use crate::order::{lemma_key_same_order, not_after};
use crate::stream::{BufferedState, SMJState, StreamedState};
use crate::view::{rows_same, JoinView};
use vstd::prelude::*;

verus! {

/// The keys of the rows of the two inputs, and how keys are compared.
pub struct JoinKeys {
    pub types: Seq<KeyType>,
    pub options: Seq<SortOptions>,
    pub null_equals_null: bool,
    pub streamed: Seq<KeyRow>,
    pub buffered: Seq<KeyRow>,
}

impl JoinKeys {
    /// How streamed row `i` stands to buffered row `j`.
    pub open spec fn order(self, i: int, j: int) -> Option<KeyOrder> {
        key_order(
            self.types,
            self.streamed[i],
            self.buffered[j],
            self.options,
            self.null_equals_null,
        )
    }

    /// Whether streamed row `i` and buffered row `j` have `Equal` keys.
    pub open spec fn matches(self, i: int, j: int) -> bool {
        self.order(i, j) == Some(KeyOrder::Equal)
    }

    /// Whether the key of buffered row `j` holds a value in every key column.
    pub open spec fn whole(self, j: int) -> bool {
        key_same(self.types, self.buffered[j], self.buffered[j]) == Some(true)
    }

    /// Whether streamed row `i` and buffered row `j` are partners: their
    /// keys are `Equal`, and row `j` has a key without a null or is the
    /// first buffered row with such a key. Buffered rows whose key holds a
    /// null are runs of one row each, and a streamed row is joined with the
    /// first run whose key is `Equal` to its own. Where the keys hold no
    /// null, or nulls match nothing, the partners of a row are the rows with
    /// an `Equal` key.
    pub open spec fn pairs(self, i: int, j: int) -> bool {
        self.matches(i, j) && (self.whole(j) || !self.has_match(i, j))
    }

    /// Every key has a cell for each key column, and each key column has
    /// its sort options.
    pub open spec fn fit(self) -> bool {
        &&& self.types.len() == self.options.len()
        &&& forall|i: int|
            0 <= i < self.streamed.len() ==> (#[trigger] self.streamed[i]).len()
                == self.types.len()
        &&& forall|j: int|
            0 <= j < self.buffered.len() ==> (#[trigger] self.buffered[j]).len()
                == self.types.len()
    }

    /// Whether a buffered row before `to` has a key `Equal` to that of
    /// streamed row `i`.
    pub open spec fn has_match(self, i: int, to: int) -> bool {
        exists|j: int| 0 <= j < to && #[trigger] self.matches(i, j)
    }

    /// The output rows that pair streamed row `i` with each of its partners
    /// among the buffered rows from `from` up to `to`, in order.
    pub open spec fn match_rows(self, i: int, from: int, to: int) -> Seq<JoinedRow>
        decreases to - from,
    {
        if from >= to {
            Seq::empty()
        } else if self.pairs(i, to - 1) {
            self.match_rows(i, from, to - 1).push(
                JoinedRow { streamed: Some(i), buffered: Some(to - 1) },
            )
        } else {
            self.match_rows(i, from, to - 1)
        }
    }

    /// The output rows that a join of the given kind owes to streamed row
    /// `i`: the row beside each of its partners, or beside nulls where the
    /// join keeps rows without a partner; for a semi join the row once if it
    /// has a partner, for an anti join once if it has none.
    pub open spec fn row_out(self, join_type: JoinType, i: int) -> Seq<JoinedRow> {
        let pairs = self.match_rows(i, 0, self.buffered.len() as int);
        let alone = seq![JoinedRow { streamed: Some(i), buffered: None }];
        match join_type {
            JoinType::Inner => pairs,
            JoinType::Left | JoinType::Right | JoinType::Full => if pairs.len() == 0 {
                alone
            } else {
                pairs
            },
            JoinType::Semi => if pairs.len() == 0 {
                Seq::empty()
            } else {
                alone
            },
            JoinType::Anti => if pairs.len() == 0 {
                alone
            } else {
                Seq::empty()
            },
        }
    }

    /// The output rows that a join of the given kind owes to the first
    /// `count` streamed rows, row after row.
    pub open spec fn streamed_out(self, join_type: JoinType, count: int) -> Seq<JoinedRow>
        decreases count,
    {
        if count <= 0 {
            Seq::empty()
        } else {
            self.streamed_out(join_type, count - 1) + self.row_out(join_type, count - 1)
        }
    }

    /// Whether buffered row `j` has no partner among the streamed rows.
    pub open spec fn unmatched(self, j: int) -> bool {
        forall|i: int| 0 <= i < self.streamed.len() ==> !#[trigger] self.pairs(i, j)
    }

    /// The output rows that a full join owes to the buffered rows before
    /// `count` that have no partner: each beside nulls, in order.
    pub open spec fn buffered_out(self, count: int) -> Seq<JoinedRow>
        decreases count,
    {
        if count <= 0 {
            Seq::empty()
        } else if self.unmatched(count - 1) {
            self.buffered_out(count - 1).push(
                JoinedRow { streamed: None, buffered: Some(count - 1) },
            )
        } else {
            self.buffered_out(count - 1)
        }
    }
}

/// The output rows of the list that hold a streamed row, in order.
pub open spec fn streamed_part(rows: Seq<JoinedRow>) -> Seq<JoinedRow>
    decreases rows.len(),
{
    if rows.len() == 0 {
        Seq::empty()
    } else if rows.last().streamed is Some {
        streamed_part(rows.drop_last()).push(rows.last())
    } else {
        streamed_part(rows.drop_last())
    }
}

/// The output rows of the list that hold no streamed row, in order.
pub open spec fn buffered_part(rows: Seq<JoinedRow>) -> Seq<JoinedRow>
    decreases rows.len(),
{
    if rows.len() == 0 {
        Seq::empty()
    } else if rows.last().streamed is None {
        buffered_part(rows.drop_last()).push(rows.last())
    } else {
        buffered_part(rows.drop_last())
    }
}

/// The two parts of a list of output rows, of two lists one after the other.
pub proof fn lemma_parts_add(a: Seq<JoinedRow>, b: Seq<JoinedRow>)
    ensures
        streamed_part(a + b) == streamed_part(a) + streamed_part(b),
        buffered_part(a + b) == buffered_part(a) + buffered_part(b),
    decreases b.len(),
{
    if b.len() == 0 {
        assert(a + b =~= a);
        assert(streamed_part(a) + streamed_part(b) =~= streamed_part(a));
        assert(buffered_part(a) + buffered_part(b) =~= buffered_part(a));
    } else {
        lemma_parts_add(a, b.drop_last());
        assert((a + b).drop_last() =~= a + b.drop_last());
        assert((a + b).last() == b.last());
        if b.last().streamed is Some {
            assert(streamed_part(a + b) =~= streamed_part(a) + streamed_part(b));
        } else {
            assert(buffered_part(a + b) =~= buffered_part(a) + buffered_part(b));
        }
    }
}

/// The two parts of a list of output rows that all hold a streamed row.
pub proof fn lemma_parts_streamed(rows: Seq<JoinedRow>)
    requires
        forall|k: int| 0 <= k < rows.len() ==> (#[trigger] rows[k]).streamed is Some,
    ensures
        streamed_part(rows) == rows,
        buffered_part(rows) == Seq::<JoinedRow>::empty(),
    decreases rows.len(),
{
    if rows.len() > 0 {
        lemma_parts_streamed(rows.drop_last());
        assert(rows.drop_last().push(rows.last()) =~= rows);
    } else {
        assert(rows =~= Seq::<JoinedRow>::empty());
    }
}

/// The two parts of a list of output rows that all hold no streamed row.
pub proof fn lemma_parts_buffered(rows: Seq<JoinedRow>)
    requires
        forall|k: int| 0 <= k < rows.len() ==> (#[trigger] rows[k]).streamed is None,
    ensures
        buffered_part(rows) == rows,
        streamed_part(rows) == Seq::<JoinedRow>::empty(),
    decreases rows.len(),
{
    if rows.len() > 0 {
        lemma_parts_buffered(rows.drop_last());
        assert(rows.drop_last().push(rows.last()) =~= rows);
    } else {
        assert(rows =~= Seq::<JoinedRow>::empty());
    }
}

/// The two parts of a list of output rows hold all its rows.
pub proof fn lemma_parts_len(rows: Seq<JoinedRow>)
    ensures
        streamed_part(rows).len() + buffered_part(rows).len() == rows.len(),
    decreases rows.len(),
{
    if rows.len() > 0 {
        lemma_parts_len(rows.drop_last());
    }
}

/// Whether an output row is sound as a row of a join of the given kind:
/// it names rows that were taken in; a row beside its partner has a key
/// `Equal` to the partner's; a row that a semi join puts out has a partner;
/// buffered rows stand beside nulls in a full join only.
pub open spec fn row_sound(keys: JoinKeys, join_type: JoinType, row: JoinedRow) -> bool {
    match (row.streamed, row.buffered) {
        (Some(i), Some(j)) => {
            &&& 0 <= i < keys.streamed.len()
            &&& 0 <= j < keys.buffered.len()
            &&& keys.matches(i, j)
            &&& !join_type.streamed_columns_only()
        },
        (Some(i), None) => {
            &&& 0 <= i < keys.streamed.len()
            &&& join_type != JoinType::Inner
            &&& join_type == JoinType::Semi ==> keys.has_match(i, keys.buffered.len() as int)
        },
        (None, Some(j)) => 0 <= j < keys.buffered.len() && join_type == JoinType::Full,
        (None, None) => false,
    }
}

/// Whether every output row of the list is sound.
pub open spec fn rows_sound(keys: JoinKeys, join_type: JoinType, rows: Seq<JoinedRow>) -> bool {
    forall|k: int| 0 <= k < rows.len() ==> row_sound(keys, join_type, #[trigger] rows[k])
}

impl JoinView {
    /// The keys of the rows taken in, and how the join compares keys.
    pub open spec fn keys(self) -> JoinKeys {
        JoinKeys {
            types: self.key_types,
            options: self.sort_options,
            null_equals_null: self.null_equals_null,
            streamed: self.streamed_keys,
            buffered: self.buffered_keys,
        }
    }

    /// Every output row decided is sound.
    pub open spec fn recorded(self) -> bool {
        rows_sound(self.keys(), self.join_type, self.joined)
    }
}

/// A sound output row stays sound when more rows are taken in.
pub proof fn lemma_row_sound_grows(keys: JoinKeys, more: JoinKeys, join_type: JoinType, row: JoinedRow)
    requires
        row_sound(keys, join_type, row),
        more.types == keys.types,
        more.options == keys.options,
        more.null_equals_null == keys.null_equals_null,
        keys.streamed.is_prefix_of(more.streamed),
        keys.buffered.is_prefix_of(more.buffered),
    ensures
        row_sound(more, join_type, row),
{
    match (row.streamed, row.buffered) {
        (Some(i), None) => {
            if join_type == JoinType::Semi {
                let j = choose|j: int| 0 <= j < keys.buffered.len() && #[trigger] keys.matches(i, j);
                assert(more.matches(i, j));
            }
        },
        _ => {},
    }
}

/// The output rows that one step of making output decides are sound.
pub proof fn lemma_join_partial_recorded(view: JoinView)
    requires
        view.valid(),
        view.state == SMJState::JoinOutput,
        view.staged < view.batch_size,
        view.recorded(),
    ensures
        view.after_join_partial().recorded(),
{
    reveal(JoinView::after_join_partial);
    reveal(JoinView::partial_rows);
    let after = view.after_join_partial();
    let keys = view.keys();
    let rows = view.partial_rows();
    assert(after.keys() == keys);
    assert forall|k: int| 0 <= k < after.joined.len() implies row_sound(
        keys,
        view.join_type,
        #[trigger] after.joined[k],
    ) by {
        if k < view.joined.len() {
            assert(after.joined[k] == view.joined[k]);
        } else {
            let t = k - view.joined.len();
            assert(after.joined[k] == rows[t]);
            if view.joins_buffered() {
                let j = view.run_start + view.scanned + t;
                assert(view.run_start <= j < view.run_end);
                assert(view.buffered_state == crate::stream::BufferedState::Ready);
                if view.joins_streamed() {
                    assert(view.current_ordering == KeyOrder::Equal);
                    assert(view.ordering() == Some(KeyOrder::Equal));
                    assert(keys.matches(view.streamed_pos, view.run_start));
                    assert(view.streamed_keys[view.streamed_pos].len() == view.key_types.len());
                    assert(view.buffered_keys[j].len() == view.key_types.len());
                    assert(view.buffered_keys[view.run_start].len() == view.key_types.len());
                    if j > view.run_start {
                        assert(rows_same(view.key_types, view.buffered_keys, view.run_start, j));
                        lemma_key_same_order(
                            view.key_types,
                            view.sort_options,
                            view.null_equals_null,
                            view.buffered_keys[view.run_start],
                            view.buffered_keys[j],
                            view.streamed_keys[view.streamed_pos],
                            0,
                        );
                    }
                }
            } else {
                if view.join_type == JoinType::Semi {
                    assert(keys.matches(view.streamed_pos, view.run_start));
                }
            }
        }
    }
}

/// Every row of a list of output rows stands in one of its two parts.
pub proof fn lemma_part_holds(rows: Seq<JoinedRow>, k: int)
    requires
        0 <= k < rows.len(),
    ensures
        rows[k].streamed is Some ==> streamed_part(rows).contains(rows[k]),
        rows[k].streamed is None ==> buffered_part(rows).contains(rows[k]),
    decreases rows.len(),
{
    if k < rows.len() - 1 {
        lemma_part_holds(rows.drop_last(), k);
        assert(rows.drop_last()[k] == rows[k]);
        if rows[k].streamed is Some {
            let t = choose|t: int|
                0 <= t < streamed_part(rows.drop_last()).len() && streamed_part(
                    rows.drop_last(),
                )[t] == rows[k];
            assert(streamed_part(rows)[t] == rows[k]);
        } else {
            let t = choose|t: int|
                0 <= t < buffered_part(rows.drop_last()).len() && buffered_part(
                    rows.drop_last(),
                )[t] == rows[k];
            assert(buffered_part(rows)[t] == rows[k]);
        }
    } else {
        if rows[k].streamed is Some {
            let part = streamed_part(rows);
            assert(part[part.len() - 1] == rows[k]);
        } else {
            let part = buffered_part(rows);
            assert(part[part.len() - 1] == rows[k]);
        }
    }
}

/// Every row of a part of a list of output rows is a row of the list, of
/// the kind of the part.
pub proof fn lemma_part_from(rows: Seq<JoinedRow>, t: int)
    ensures
        0 <= t < streamed_part(rows).len() ==> streamed_part(rows)[t].streamed is Some
            && rows.contains(streamed_part(rows)[t]),
        0 <= t < buffered_part(rows).len() ==> buffered_part(rows)[t].streamed is None
            && rows.contains(buffered_part(rows)[t]),
    decreases rows.len(),
{
    if rows.len() > 0 {
        lemma_part_from(rows.drop_last(), t);
        let rest = rows.drop_last();
        if 0 <= t < streamed_part(rows).len() {
            if t < streamed_part(rest).len() {
                let k = choose|k: int| 0 <= k < rest.len() && rest[k] == streamed_part(rest)[t];
                assert(rows[k] == streamed_part(rows)[t]);
            } else {
                assert(rows[rows.len() - 1] == streamed_part(rows)[t]);
            }
        }
        if 0 <= t < buffered_part(rows).len() {
            if t < buffered_part(rest).len() {
                let k = choose|k: int| 0 <= k < rest.len() && rest[k] == buffered_part(rest)[t];
                assert(rows[k] == buffered_part(rows)[t]);
            } else {
                assert(rows[rows.len() - 1] == buffered_part(rows)[t]);
            }
        }
    }
}

/// Whether the output rows that hold a streamed row and those that hold
/// none stand in the order of their keys: a buffered row beside nulls comes
/// before the streamed rows that stand after it, and after the streamed
/// rows that do not.
pub open spec fn cross_ordered(keys: JoinKeys, rows: Seq<JoinedRow>) -> bool {
    forall|k: int, later: int|
        #![trigger rows[k], rows[later]]
        0 <= k < later < rows.len() ==> {
            &&& rows[k].streamed is None && rows[later].streamed is Some ==> keys.order(
                rows[later].streamed->0,
                rows[k].buffered->0,
            ) == Some(KeyOrder::Greater)
            &&& rows[k].streamed is Some && rows[later].streamed is None ==> not_after(
                keys.order(rows[k].streamed->0, rows[later].buffered->0),
            )
        }
}

/// Two lists of sound output rows with the same parts, both in the order
/// of the keys, are the same list.
pub proof fn lemma_merge_unique(
    keys: JoinKeys,
    join_type: JoinType,
    one: Seq<JoinedRow>,
    other: Seq<JoinedRow>,
)
    requires
        streamed_part(one) == streamed_part(other),
        buffered_part(one) == buffered_part(other),
        cross_ordered(keys, one),
        cross_ordered(keys, other),
        rows_sound(keys, join_type, one),
        rows_sound(keys, join_type, other),
    ensures
        one == other,
    decreases one.len(),
{
    lemma_parts_len(one);
    lemma_parts_len(other);
    if one.len() == 0 {
        assert(one =~= other);
    } else {
        let a = one.last();
        let b = other.last();
        let rest_one = one.drop_last();
        let rest_other = other.drop_last();
        assert forall|k: int, later: int| 0 <= k < later < rest_one.len() implies {
            &&& (#[trigger] rest_one[k]).streamed is None && (
            #[trigger] rest_one[later]).streamed is Some ==> keys.order(
                rest_one[later].streamed->0,
                rest_one[k].buffered->0,
            ) == Some(KeyOrder::Greater)
            &&& rest_one[k].streamed is Some && rest_one[later].streamed is None ==> not_after(
                keys.order(rest_one[k].streamed->0, rest_one[later].buffered->0),
            )
        } by {
            assert(rest_one[k] == one[k] && rest_one[later] == one[later]);
        }
        assert forall|k: int, later: int| 0 <= k < later < rest_other.len() implies {
            &&& (#[trigger] rest_other[k]).streamed is None && (
            #[trigger] rest_other[later]).streamed is Some ==> keys.order(
                rest_other[later].streamed->0,
                rest_other[k].buffered->0,
            ) == Some(KeyOrder::Greater)
            &&& rest_other[k].streamed is Some && rest_other[later].streamed is None ==> not_after(
                keys.order(rest_other[k].streamed->0, rest_other[later].buffered->0),
            )
        } by {
            assert(rest_other[k] == other[k] && rest_other[later] == other[later]);
        }
        assert forall|k: int| 0 <= k < rest_one.len() implies row_sound(
            keys,
            join_type,
            #[trigger] rest_one[k],
        ) by {
            assert(rest_one[k] == one[k]);
        }
        assert forall|k: int| 0 <= k < rest_other.len() implies row_sound(
            keys,
            join_type,
            #[trigger] rest_other[k],
        ) by {
            assert(rest_other[k] == other[k]);
        }
        if (a.streamed is Some) != (b.streamed is Some) {
            // the last row of each list stands earlier in the other: the keys
            // of the two rows would stand both ways
            lemma_part_holds(one, one.len() - 1);
            lemma_part_holds(other, other.len() - 1);
            if a.streamed is Some {
                let tka = choose|t: int|
                    0 <= t < streamed_part(other).len() && streamed_part(other)[t] == a;
                lemma_part_from(other, tka);
                assert(other.contains(a));
                let ka = choose|k: int| 0 <= k < other.len() && other[k] == a;
                let tkb = choose|t: int|
                    0 <= t < buffered_part(one).len() && buffered_part(one)[t] == b;
                lemma_part_from(one, tkb);
                assert(one.contains(b));
                let kb = choose|k: int| 0 <= k < one.len() && one[k] == b;
                assert(other[ka] == a && other[other.len() - 1] == b);
                assert(one[kb] == b && one[one.len() - 1] == a);
                assert(row_sound(keys, join_type, one[kb]));
                assert(false);
            } else {
                let tka = choose|t: int|
                    0 <= t < buffered_part(other).len() && buffered_part(other)[t] == a;
                lemma_part_from(other, tka);
                assert(other.contains(a));
                let ka = choose|k: int| 0 <= k < other.len() && other[k] == a;
                let tkb = choose|t: int|
                    0 <= t < streamed_part(one).len() && streamed_part(one)[t] == b;
                lemma_part_from(one, tkb);
                assert(one.contains(b));
                let kb = choose|k: int| 0 <= k < one.len() && one[k] == b;
                assert(other[ka] == a && other[other.len() - 1] == b);
                assert(one[kb] == b && one[one.len() - 1] == a);
                assert(row_sound(keys, join_type, one[kb]));
                assert(false);
            }
        } else {
            if a.streamed is Some {
                let pa = streamed_part(rest_one).push(a);
                let pb = streamed_part(rest_other).push(b);
                assert(pa == pb);
                assert(pa.last() == a && pb.last() == b);
                assert(pa.drop_last() =~= streamed_part(rest_one));
                assert(pb.drop_last() =~= streamed_part(rest_other));
            } else {
                let pa = buffered_part(rest_one).push(a);
                let pb = buffered_part(rest_other).push(b);
                assert(pa == pb);
                assert(pa.last() == a && pb.last() == b);
                assert(pa.drop_last() =~= buffered_part(rest_one));
                assert(pb.drop_last() =~= buffered_part(rest_other));
            }
            lemma_merge_unique(keys, join_type, rest_one, rest_other);
            assert(one =~= rest_one.push(a));
            assert(other =~= rest_other.push(b));
        }
    }
}

impl JoinKeys {
    /// The streamed rows are sorted: no row stands after a later one.
    pub open spec fn streamed_sorted(self) -> bool {
        forall|i: int, later: int|
            #![trigger self.streamed[i], self.streamed[later]]
            0 <= i < later < self.streamed.len() ==> not_after(
                key_order(
                    self.types,
                    self.streamed[i],
                    self.streamed[later],
                    self.options,
                    self.null_equals_null,
                ),
            )
    }

    /// The buffered rows are sorted: no row stands after a later one.
    pub open spec fn buffered_sorted(self) -> bool {
        forall|j: int, later: int|
            #![trigger self.buffered[j], self.buffered[later]]
            0 <= j < later < self.buffered.len() ==> not_after(
                key_order(
                    self.types,
                    self.buffered[j],
                    self.buffered[later],
                    self.options,
                    self.null_equals_null,
                ),
            )
    }

    /// Buffered rows with `Equal` keys belong to one run: they hold the same
    /// non-null value in every key column. This fails only where nulls
    /// match each other and two buffered rows have a null in one key column
    /// and `Equal` keys. With whole runs the partners of a row are the rows
    /// with an `Equal` key.
    pub open spec fn runs_whole(self) -> bool {
        forall|j: int, later: int|
            #![trigger self.buffered[j], self.buffered[later]]
            0 <= j < later < self.buffered.len() && key_order(
                self.types,
                self.buffered[j],
                self.buffered[later],
                self.options,
                self.null_equals_null,
            ) == Some(KeyOrder::Equal) ==> key_same(self.types, self.buffered[j], self.buffered[later])
                == Some(true)
    }

    /// The two inputs are as the join expects them: sorted by their keys.
    /// No pair of rows of one input is then compared without a result, so a
    /// key column of a type that the comparator refuses decides nothing.
    pub open spec fn sorted(self) -> bool {
        &&& self.fit()
        &&& self.streamed_sorted()
        &&& self.buffered_sorted()
    }

    /// Whether buffered row `j` has a partner among the first `count` streamed rows.
    pub open spec fn matched_before(self, j: int, count: int) -> bool {
        exists|i: int| 0 <= i < count && #[trigger] self.pairs(i, j)
    }
}

impl JoinView {
    /// The number of streamed rows for which the join has decided every output row.
    pub open spec fn streamed_done(self) -> int {
        if self.streamed_state == StreamedState::Ready && !(self.state == SMJState::Init
            && self.current_ordering != KeyOrder::Greater) {
            self.streamed_pos
        } else {
            self.streamed_pos + 1
        }
    }

    /// The number of buffered rows that the join has passed for good: the
    /// rows before the current run, and the run itself once the streamed
    /// row has been found to stand after it.
    pub open spec fn buffered_done(self) -> int {
        match self.buffered_state {
            BufferedState::Ready => if self.state == SMJState::Init && self.current_ordering
                == KeyOrder::Greater {
                self.run_end
            } else {
                self.run_start
            },
            BufferedState::Init => self.run_end,
            _ => self.run_start,
        }
    }

    /// The number of buffered rows before the run that is current or is
    /// being collected.
    pub open spec fn passed(self) -> int {
        if self.buffered_state == BufferedState::Init {
            self.run_end
        } else {
            self.run_start
        }
    }

    /// The buffered row from which on every row stands after the streamed
    /// rows that are done.
    pub open spec fn limit(self) -> int {
        match self.buffered_state {
            BufferedState::Ready | BufferedState::Init => self.run_end,
            _ => self.run_start,
        }
    }

    /// The current streamed row beside nulls.
    pub open spec fn streamed_alone(self) -> JoinedRow {
        JoinedRow { streamed: Some(self.streamed_pos), buffered: None }
    }

    /// Whether the kind of join puts out pairs of rows.
    pub open spec fn keeps_pairs(self) -> bool {
        !self.join_type.streamed_columns_only()
    }

    /// Whether the kind of join puts out a streamed row that has no partner.
    pub open spec fn keeps_streamed_alone(self) -> bool {
        self.join_type != JoinType::Inner && self.join_type != JoinType::Semi
    }

    /// The output rows decided so far for the current streamed row.
    pub open spec fn partial_streamed(self) -> Seq<JoinedRow> {
        if self.state == SMJState::JoinOutput && self.streamed_state == StreamedState::Ready {
            match self.current_ordering {
                KeyOrder::Equal => if self.keeps_pairs() {
                    Seq::new(
                        self.scanned as nat,
                        |t: int|
                            JoinedRow {
                                streamed: Some(self.streamed_pos),
                                buffered: Some(self.run_start + t),
                            },
                    )
                } else if self.join_type == JoinType::Semi && self.streamed_joined {
                    seq![self.streamed_alone()]
                } else {
                    Seq::empty()
                },
                KeyOrder::Less => if self.keeps_streamed_alone() && self.streamed_joined {
                    seq![self.streamed_alone()]
                } else {
                    Seq::empty()
                },
                KeyOrder::Greater => Seq::empty(),
            }
        } else {
            Seq::empty()
        }
    }

    /// The output rows decided so far for the current run as a run without
    /// a partner.
    pub open spec fn partial_buffered(self) -> Seq<JoinedRow> {
        if self.state == SMJState::JoinOutput && self.current_ordering == KeyOrder::Greater
            && self.join_type == JoinType::Full && self.buffered_state == BufferedState::Ready
            && !self.keys().matched_before(
            self.run_start,
            self.streamed_done(),
        ) {
            Seq::new(
                self.scanned as nat,
                |t: int| JoinedRow { streamed: None, buffered: Some(self.run_start + t) },
            )
        } else {
            Seq::empty()
        }
    }

    /// The rows decided are the rows owed so far: for the streamed rows
    /// that are done and the current one as far as it is joined, and, in a
    /// full join, for the buffered rows that are passed.
    pub open spec fn output_merged(self) -> bool {
        &&& streamed_part(self.joined) == self.keys().streamed_out(
            self.join_type,
            self.streamed_done(),
        ) + self.partial_streamed()
        &&& buffered_part(self.joined) == if self.join_type == JoinType::Full {
            self.keys().buffered_out(self.buffered_done()) + self.partial_buffered()
        } else {
            Seq::empty()
        }
    }

    /// The current streamed row stands after every buffered row before the
    /// current run, and every buffered row from the limit on stands after
    /// the streamed rows that are done.
    pub open spec fn frontier_merged(self) -> bool {
        &&& self.streamed_state != StreamedState::Exhausted && self.streamed_pos < 0
            ==> self.passed() == 0
        &&& self.streamed_state != StreamedState::Exhausted && self.streamed_pos >= 0
            ==> forall|j: int|
            0 <= j < self.passed() ==> #[trigger] self.keys().order(self.streamed_pos, j) == Some(
                KeyOrder::Greater,
            )
        &&& forall|i: int, j: int|
            0 <= i < self.streamed_done() && self.limit() <= j < self.buffered_keys.len()
                ==> not_after(#[trigger] self.keys().order(i, j)) && !self.keys().pairs(i, j)
        &&& self.buffered_state == BufferedState::PollingFirst || (self.buffered_state
            == BufferedState::Init && self.run_start == self.run_end) ==> {
            &&& self.buffered_keys.len() == 0
            &&& self.joined.len() == 0
            &&& self.streamed_done() == 0
        }
    }

    /// The notes of what was joined say what they are meant to say.
    pub open spec fn flags_merged(self) -> bool {
        &&& self.streamed_state == StreamedState::Init || self.streamed_state
            == StreamedState::Polling || (self.streamed_state == StreamedState::Ready && (self.state
            == SMJState::Polling || self.current_ordering == KeyOrder::Greater))
            ==> !self.streamed_joined
        &&& self.buffered_state == BufferedState::Init || self.buffered_state
            == BufferedState::PollingFirst || self.buffered_state == BufferedState::PollingRest
            ==> !self.buffered_joined
        &&& self.buffered_state == BufferedState::Ready && self.join_type == JoinType::Full && (
        self.state == SMJState::Polling || self.state == SMJState::JoinOutput || (self.state
            == SMJState::Init && self.current_ordering != KeyOrder::Greater))
            ==> self.buffered_joined == (self.keys().matched_before(
            self.run_start,
            self.streamed_done(),
        ) || (self.state == SMJState::JoinOutput && self.current_ordering != KeyOrder::Less
            && self.scanned == self.run_end - self.run_start))
    }

    /// The streamed rows that are done stand not after the current run,
    /// and the rows decided stand in the order of their keys.
    pub open spec fn order_merged(self) -> bool {
        &&& self.buffered_state == BufferedState::Ready && !(self.state == SMJState::Init
            && self.current_ordering == KeyOrder::Greater) ==> forall|i: int|
            0 <= i < self.streamed_done() ==> not_after(
                #[trigger] self.keys().order(i, self.run_start),
            )
        &&& cross_ordered(self.keys(), self.joined)
    }

    /// What holds of the join of sorted inputs at every moment.
    pub open spec fn sorted_merged(self) -> bool {
        &&& self.output_merged()
        &&& self.frontier_merged()
        &&& self.flags_merged()
        &&& self.order_merged()
    }

    /// What holds of the join at every moment: the rows decided are sound,
    /// and they are the rows owed so far if the inputs taken in are sorted.
    #[verifier::opaque]
    pub open spec fn merged(self) -> bool {
        &&& self.recorded()
        &&& self.keys().sorted() ==> self.sorted_merged()
    }
}

/// Whether `more` holds the keys of `keys` and maybe more rows of either
/// input after them, compared in the same way.
pub open spec fn keys_grow(keys: JoinKeys, more: JoinKeys) -> bool {
    &&& more.types == keys.types
    &&& more.options == keys.options
    &&& more.null_equals_null == keys.null_equals_null
    &&& keys.streamed.is_prefix_of(more.streamed)
    &&& keys.buffered.is_prefix_of(more.buffered)
}

/// Inputs that are sorted were sorted before their last rows were taken in.
pub proof fn lemma_sorted_before(keys: JoinKeys, more: JoinKeys)
    requires
        keys_grow(keys, more),
        more.sorted(),
    ensures
        keys.sorted(),
{
    assert forall|i: int, later: int| 0 <= i < later < keys.streamed.len() implies not_after(
        key_order(
            keys.types,
            #[trigger] keys.streamed[i],
            #[trigger] keys.streamed[later],
            keys.options,
            keys.null_equals_null,
        ),
    ) by {
        assert(more.streamed[i] == keys.streamed[i]);
        assert(more.streamed[later] == keys.streamed[later]);
    }
    assert forall|j: int, later: int| 0 <= j < later < keys.buffered.len() implies not_after(
        key_order(
            keys.types,
            #[trigger] keys.buffered[j],
            #[trigger] keys.buffered[later],
            keys.options,
            keys.null_equals_null,
        ),
    ) by {
        assert(more.buffered[j] == keys.buffered[j]);
        assert(more.buffered[later] == keys.buffered[later]);
    }
    assert forall|i: int| 0 <= i < keys.streamed.len() implies (#[trigger] keys.streamed[i]).len()
        == keys.types.len() by {
        assert(more.streamed[i] == keys.streamed[i]);
    }
    assert forall|j: int| 0 <= j < keys.buffered.len() implies (#[trigger] keys.buffered[j]).len()
        == keys.types.len() by {
        assert(more.buffered[j] == keys.buffered[j]);
    }
}

/// The partners of a streamed row among buffered rows are the same when
/// more rows are taken in.
pub proof fn lemma_match_rows_same(keys: JoinKeys, more: JoinKeys, i: int, from: int, to: int)
    requires
        keys_grow(keys, more),
        0 <= i < keys.streamed.len(),
        0 <= from,
        to <= keys.buffered.len(),
    ensures
        more.match_rows(i, from, to) == keys.match_rows(i, from, to),
    decreases to - from,
{
    if from < to {
        lemma_match_rows_same(keys, more, i, from, to - 1);
        lemma_order_same(keys, more, i, to - 1);
    }
}

/// The partners of a streamed row among the buffered rows of two
/// stretches that follow each other.
pub proof fn lemma_match_rows_split(keys: JoinKeys, i: int, from: int, middle: int, to: int)
    requires
        from <= middle <= to,
    ensures
        keys.match_rows(i, from, to) == keys.match_rows(i, from, middle) + keys.match_rows(
            i,
            middle,
            to,
        ),
    decreases to - middle,
{
    if middle < to {
        lemma_match_rows_split(keys, i, from, middle, to - 1);
        if keys.pairs(i, to - 1) {
            assert(keys.match_rows(i, from, to) =~= keys.match_rows(i, from, middle)
                + keys.match_rows(i, middle, to));
        }
    } else {
        assert(keys.match_rows(i, from, to) =~= keys.match_rows(i, from, middle)
            + keys.match_rows(i, middle, to));
    }
}

/// A streamed row without a partner in a stretch of buffered rows owes no pairs to it.
pub proof fn lemma_match_rows_none(keys: JoinKeys, i: int, from: int, to: int)
    requires
        forall|j: int| from <= j < to ==> !#[trigger] keys.pairs(i, j),
    ensures
        keys.match_rows(i, from, to) == Seq::<JoinedRow>::empty(),
    decreases to - from,
{
    if from < to {
        lemma_match_rows_none(keys, i, from, to - 1);
    }
}

/// A streamed row that is a partner of every row of a stretch of buffered
/// rows owes a pair to each.
pub proof fn lemma_match_rows_all(keys: JoinKeys, i: int, from: int, to: int)
    requires
        from <= to,
        forall|j: int| from <= j < to ==> #[trigger] keys.pairs(i, j),
    ensures
        keys.match_rows(i, from, to) == Seq::new(
            (to - from) as nat,
            |t: int| JoinedRow { streamed: Some(i), buffered: Some(from + t) },
        ),
    decreases to - from,
{
    if from < to {
        lemma_match_rows_all(keys, i, from, to - 1);
        assert(keys.pairs(i, to - 1));
        assert(keys.match_rows(i, from, to) =~= Seq::new(
            (to - from) as nat,
            |t: int| JoinedRow { streamed: Some(i), buffered: Some(from + t) },
        ));
    } else {
        assert(keys.match_rows(i, from, to) =~= Seq::new(
            (to - from) as nat,
            |t: int| JoinedRow { streamed: Some(i), buffered: Some(from + t) },
        ));
    }
}

/// What is owed to the first streamed rows is the same when rows are taken
/// in of which none is a partner of any of them.
pub proof fn lemma_streamed_out_grows(keys: JoinKeys, more: JoinKeys, join_type: JoinType, count: int)
    requires
        keys_grow(keys, more),
        count <= keys.streamed.len(),
        forall|i: int, j: int|
            0 <= i < count && keys.buffered.len() <= j < more.buffered.len()
                ==> !#[trigger] more.pairs(i, j),
    ensures
        more.streamed_out(join_type, count) == keys.streamed_out(join_type, count),
    decreases count,
{
    if count > 0 {
        lemma_streamed_out_grows(keys, more, join_type, count - 1);
        let i = count - 1;
        let known = keys.buffered.len() as int;
        let all = more.buffered.len() as int;
        lemma_match_rows_split(more, i, 0, known, all);
        lemma_match_rows_none(more, i, known, all);
        lemma_match_rows_same(keys, more, i, 0, known);
        assert(more.match_rows(i, 0, all) =~= keys.match_rows(i, 0, known));
    }
}

/// What a full join owes to the first buffered rows is the same when rows
/// are taken in of which none is a partner of any of them.
pub proof fn lemma_buffered_out_grows(keys: JoinKeys, more: JoinKeys, count: int)
    requires
        keys_grow(keys, more),
        count <= keys.buffered.len(),
        forall|i: int, j: int|
            keys.streamed.len() <= i < more.streamed.len() && 0 <= j < count
                ==> !#[trigger] more.pairs(i, j),
    ensures
        more.buffered_out(count) == keys.buffered_out(count),
    decreases count,
{
    if count > 0 {
        lemma_buffered_out_grows(keys, more, count - 1);
        let j = count - 1;
        assert(more.buffered[j] == keys.buffered[j]);
        if keys.unmatched(j) {
            assert forall|i: int| 0 <= i < more.streamed.len() implies !#[trigger] more.pairs(
                i,
                j,
            ) by {
                if i < keys.streamed.len() {
                    lemma_order_same(keys, more, i, j);
                    assert(!keys.pairs(i, j));
                }
            }
        } else {
            let i = choose|i: int| 0 <= i < keys.streamed.len() && #[trigger] keys.pairs(i, j);
            lemma_order_same(keys, more, i, j);
            assert(more.pairs(i, j));
        }
    }
}

/// What a full join owes to a stretch of buffered rows of which none has
/// a partner: each of them beside nulls.
pub proof fn lemma_buffered_out_all(keys: JoinKeys, from: int, to: int)
    requires
        0 <= from <= to,
        forall|j: int| from <= j < to ==> #[trigger] keys.unmatched(j),
    ensures
        keys.buffered_out(to) == keys.buffered_out(from) + Seq::new(
            (to - from) as nat,
            |t: int| JoinedRow { streamed: None, buffered: Some(from + t) },
        ),
    decreases to - from,
{
    if from < to {
        lemma_buffered_out_all(keys, from, to - 1);
        assert(keys.unmatched(to - 1));
    }
    assert(keys.buffered_out(to) =~= keys.buffered_out(from) + Seq::new(
        (to - from) as nat,
        |t: int| JoinedRow { streamed: None, buffered: Some(from + t) },
    ));
}

/// A full join owes nothing to a stretch of buffered rows that all have a partner.
pub proof fn lemma_buffered_out_none(keys: JoinKeys, from: int, to: int)
    requires
        0 <= from <= to,
        forall|j: int| from <= j < to ==> !#[trigger] keys.unmatched(j),
    ensures
        keys.buffered_out(to) == keys.buffered_out(from),
    decreases to - from,
{
    if from < to {
        lemma_buffered_out_none(keys, from, to - 1);
        assert(!keys.unmatched(to - 1));
    }
}

/// Every row that a full join owes to the first buffered rows is one of
/// them beside nulls.
pub proof fn lemma_buffered_out_rows(keys: JoinKeys, count: int, t: int)
    requires
        0 <= t < keys.buffered_out(count).len(),
    ensures
        keys.buffered_out(count)[t].streamed is None,
        keys.buffered_out(count)[t].buffered is Some,
        0 <= keys.buffered_out(count)[t].buffered->0 < count,
    decreases count,
{
    if count > 0 {
        if t < keys.buffered_out(count - 1).len() {
            lemma_buffered_out_rows(keys, count - 1, t);
        }
    }
}

/// Sound output rows in the order of their keys stay so when more rows are taken in.
pub proof fn lemma_cross_ordered_grows(
    keys: JoinKeys,
    more: JoinKeys,
    join_type: JoinType,
    rows: Seq<JoinedRow>,
)
    requires
        keys_grow(keys, more),
        rows_sound(keys, join_type, rows),
        cross_ordered(keys, rows),
    ensures
        cross_ordered(more, rows),
{
    assert forall|k: int, later: int| 0 <= k < later < rows.len() implies {
        &&& (#[trigger] rows[k]).streamed is None && (#[trigger] rows[later]).streamed is Some
            ==> more.order(rows[later].streamed->0, rows[k].buffered->0) == Some(
            KeyOrder::Greater,
        )
        &&& rows[k].streamed is Some && rows[later].streamed is None ==> not_after(
            more.order(rows[k].streamed->0, rows[later].buffered->0),
        )
    } by {
        assert(row_sound(keys, join_type, rows[k]));
        assert(row_sound(keys, join_type, rows[later]));
        if rows[k].streamed is None && rows[later].streamed is Some {
            lemma_order_same(keys, more, rows[later].streamed->0, rows[k].buffered->0);
        }
        if rows[k].streamed is Some && rows[later].streamed is None {
            lemma_order_same(keys, more, rows[k].streamed->0, rows[later].buffered->0);
        }
    }
}

/// Where the rows decided stand while output is made: a streamed row that
/// is done or the current one, beside nulls or a partner; or a buffered
/// row that is passed or a row of the current run, beside nulls.
pub proof fn lemma_rows_behind(view: JoinView, k: int)
    requires
        view.valid(),
        view.recorded(),
        view.keys().sorted(),
        view.sorted_merged(),
        view.state == SMJState::JoinOutput,
        0 <= k < view.joined.len(),
    ensures
        view.joined[k].streamed matches Some(i) ==> i < view.streamed_done() || (i
            == view.streamed_pos && view.streamed_state == StreamedState::Ready
            && view.current_ordering != KeyOrder::Greater),
        view.joined[k].streamed is None ==> view.join_type == JoinType::Full
            && view.joined[k].buffered is Some && (view.joined[k].buffered->0
            < view.buffered_done() || (view.current_ordering == KeyOrder::Greater
            && view.run_start <= view.joined[k].buffered->0 < view.run_start + view.scanned)),
{
    let keys = view.keys();
    let row = view.joined[k];
    lemma_part_holds(view.joined, k);
    assert(row_sound(keys, view.join_type, row));
    if row.streamed is Some {
        let part = streamed_part(view.joined);
        let owed = keys.streamed_out(view.join_type, view.streamed_done());
        let t = choose|t: int| 0 <= t < part.len() && part[t] == row;
        if t < owed.len() {
            assert(part[t] == owed[t]);
            keys.lemma_streamed_out_rows(view.join_type, view.streamed_done(), t);
        } else {
            assert(part[t] == view.partial_streamed()[t - owed.len()]);
        }
    } else {
        let part = buffered_part(view.joined);
        let t = choose|t: int| 0 <= t < part.len() && part[t] == row;
        let owed = keys.buffered_out(view.buffered_done());
        if t < owed.len() {
            assert(part[t] == owed[t]);
            lemma_buffered_out_rows(keys, view.buffered_done(), t);
        } else {
            assert(part[t] == view.partial_buffered()[t - owed.len()]);
        }
    }
}

/// The rows of a run stand to a streamed row as the first row of the run does.
pub proof fn lemma_run_order(view: JoinView, i: int, j: int)
    requires
        view.inputs_valid(),
        view.run_same(),
        0 <= view.run_start <= j < view.run_end <= view.buffered_keys.len(),
        0 <= i < view.streamed_keys.len(),
    ensures
        view.keys().order(i, j) == view.keys().order(i, view.run_start),
{
    if j > view.run_start {
        assert(rows_same(view.key_types, view.buffered_keys, view.run_start, j));
        lemma_key_same_order(
            view.key_types,
            view.sort_options,
            view.null_equals_null,
            view.buffered_keys[view.run_start],
            view.buffered_keys[j],
            view.streamed_keys[i],
            0,
        );
    }
}

/// A streamed row is paired with all rows of a run or with none of them.
pub proof fn lemma_run_pairs(view: JoinView, i: int, j: int)
    requires
        view.inputs_valid(),
        view.run_same(),
        0 <= view.run_start <= j < view.run_end <= view.buffered_keys.len(),
        0 <= i < view.streamed_keys.len(),
    ensures
        view.keys().order(i, j) == view.keys().order(i, view.run_start),
        view.keys().pairs(i, j) == view.keys().pairs(i, view.run_start),
{
    lemma_run_order(view, i, j);
    if j > view.run_start {
        assert(rows_same(view.key_types, view.buffered_keys, view.run_start, j));
        crate::order::lemma_key_same_whole(
            view.key_types,
            view.buffered_keys[view.run_start],
            view.buffered_keys[j],
            0,
        );
    }
}

/// A join that has not begun is merged.
pub proof fn lemma_initial_merged(view: JoinView)
    requires
        view == JoinView::initial(
            view.join_type,
            view.key_types,
            view.sort_options,
            view.null_equals_null,
            view.batch_size,
            view.schema,
            view.streamed_width,
            view.buffered_width,
        ),
    ensures
        view.merged(),
{
    reveal(JoinView::merged);
    assert(view.keys().streamed_out(view.join_type, 0) + view.partial_streamed()
        =~= Seq::<JoinedRow>::empty());
    assert(view.keys().buffered_out(0) + view.partial_buffered() =~= Seq::<JoinedRow>::empty());
}

/// Being merged does not depend on what the inputs have handed over and
/// the join has not taken in, nor on what was handed out.
pub proof fn lemma_merged_same(before: JoinView, after: JoinView)
    requires
        before.merged(),
        after == (JoinView {
            streamed_input: after.streamed_input,
            buffered_input: after.buffered_input,
            emitted: after.emitted,
            staged: after.staged,
            failed: after.failed,
            ..before
        }),
    ensures
        after.merged(),
{
    reveal(JoinView::merged);
    assert(after.keys() == before.keys());
}

/// Choosing the input to move on keeps the join merged.
pub proof fn lemma_after_init_merged(view: JoinView)
    requires
        view.valid(),
        view.state == SMJState::Init,
        view.merged(),
    ensures
        view.after_init().merged(),
{
    reveal(JoinView::merged);
    reveal(JoinView::after_init);
    let after = view.after_init();
    let keys = view.keys();
    assert(after.keys() == keys);
    if keys.sorted() {
        if view.settled() && view.current_ordering == KeyOrder::Greater && view.buffered_state
            == BufferedState::Ready && view.streamed_state == StreamedState::Ready {
            assert forall|j: int| 0 <= j < after.passed() implies #[trigger] keys.order(
                view.streamed_pos,
                j,
            ) == Some(KeyOrder::Greater) by {
                if j >= view.run_start {
                    lemma_run_order(view, view.streamed_pos, j);
                }
            }
        }
    }
}

/// Rows that were taken in stand to each other as before when more rows are taken in.
pub proof fn lemma_order_same(keys: JoinKeys, more: JoinKeys, i: int, j: int)
    requires
        keys_grow(keys, more),
        0 <= i < keys.streamed.len(),
        0 <= j < keys.buffered.len(),
    ensures
        more.order(i, j) == keys.order(i, j),
        more.matches(i, j) == keys.matches(i, j),
        more.has_match(i, j) == keys.has_match(i, j),
        more.pairs(i, j) == keys.pairs(i, j),
{
    assert(more.streamed[i] == keys.streamed[i]);
    assert(more.buffered[j] == keys.buffered[j]);
    if keys.has_match(i, j) {
        let e = choose|e: int| 0 <= e < j && #[trigger] keys.matches(i, e);
        assert(more.buffered[e] == keys.buffered[e]);
        assert(more.matches(i, e));
    }
    if more.has_match(i, j) {
        let e = choose|e: int| 0 <= e < j && #[trigger] more.matches(i, e);
        assert(more.buffered[e] == keys.buffered[e]);
        assert(keys.matches(i, e));
    }
}

/// Whether a buffered row has a partner among the first streamed rows is
/// the same when more rows are taken in.
pub proof fn lemma_matched_before_same(keys: JoinKeys, more: JoinKeys, j: int, count: int)
    requires
        keys_grow(keys, more),
        count <= keys.streamed.len(),
        0 <= j < keys.buffered.len(),
    ensures
        more.matched_before(j, count) == keys.matched_before(j, count),
{
    if keys.matched_before(j, count) {
        let i = choose|i: int| 0 <= i < count && #[trigger] keys.pairs(i, j);
        lemma_order_same(keys, more, i, j);
        assert(more.pairs(i, j));
    }
    if more.matched_before(j, count) {
        let i = choose|i: int| 0 <= i < count && #[trigger] more.pairs(i, j);
        lemma_order_same(keys, more, i, j);
        assert(keys.pairs(i, j));
    }
}

/// A streamed row stands after the buffered rows that an earlier
/// streamed row stands after.
pub proof fn lemma_later_row_after(keys: JoinKeys, i: int, later: int, j: int)
    requires
        keys.sorted(),
        0 <= i <= later < keys.streamed.len(),
        0 <= j < keys.buffered.len(),
        keys.order(i, j) == Some(KeyOrder::Greater),
    ensures
        keys.order(later, j) == Some(KeyOrder::Greater),
{
    if i < later {
        let a = keys.streamed[i];
        let b = keys.streamed[later];
        crate::order::lemma_key_order_after(
            keys.types,
            keys.options,
            keys.null_equals_null,
            a,
            b,
            keys.buffered[j],
            0,
        );
    }
}

/// The poll of the streamed cursor keeps the join merged.
pub proof fn lemma_streamed_step_merged(view: JoinView)
    requires
        view.valid(),
        view.state == SMJState::Polling,
        view.merged(),
        view.streamed_step() is Ok,
        view.streamed_step()->Ok_0.0.inputs_valid(),
    ensures
        view.streamed_step()->Ok_0.0.merged(),
{
    reveal(JoinView::merged);
    reveal(JoinView::streamed_step);
    let after = view.streamed_step()->Ok_0.0;
    let keys = view.keys();
    let more = after.keys();
    assert(keys.streamed.is_prefix_of(more.streamed));
    assert(keys_grow(keys, more));
    assert forall|k: int| 0 <= k < after.joined.len() implies row_sound(
        more,
        after.join_type,
        #[trigger] after.joined[k],
    ) by {
        lemma_row_sound_grows(keys, more, view.join_type, view.joined[k]);
    }
    if more.sorted() {
        lemma_sorted_before(keys, more);
        let done = view.streamed_done();
        let passed = view.passed();
        assert(after.streamed_done() == done);
        assert(after.passed() == passed);
        assert(after.buffered_done() == view.buffered_done());
        assert(view.buffered_done() == passed);
        // the streamed rows from the current one on stand after the buffered rows passed
        assert forall|i: int, j: int|
            view.streamed_pos <= i < more.streamed.len() && 0 <= i && 0 <= j < passed
                && view.streamed_state != StreamedState::Exhausted implies #[trigger] more.order(
            i,
            j,
        ) == Some(KeyOrder::Greater) by {
            assert(view.streamed_pos >= 0);
            lemma_order_same(keys, more, view.streamed_pos, j);
            lemma_later_row_after(more, view.streamed_pos, i, j);
        }
        assert forall|i: int, j: int|
            0 <= i < done && after.limit() <= j < after.buffered_keys.len() implies not_after(
            #[trigger] more.order(i, j),
        ) && !more.pairs(i, j) by {
            lemma_order_same(keys, more, i, j);
            assert(not_after(keys.order(i, j)) && !keys.pairs(i, j));
        }
        lemma_streamed_out_grows(keys, more, view.join_type, done);
        assert forall|i: int, j: int|
            keys.streamed.len() <= i < more.streamed.len() && 0 <= j < passed implies !#[trigger] more.pairs(
            i,
            j,
        ) by {
            assert(more.order(i, j) == Some(KeyOrder::Greater));
        }
        lemma_buffered_out_grows(keys, more, passed);
        if view.buffered_state == BufferedState::Ready {
            lemma_matched_before_same(keys, more, view.run_start, done);
        }
        assert(after.partial_streamed() == view.partial_streamed());
        assert(after.partial_buffered() == view.partial_buffered());
        assert(after.output_merged());
        assert(after.frontier_merged());
        assert(after.flags_merged());
        lemma_cross_ordered_grows(keys, more, view.join_type, view.joined);
        if after.buffered_state == BufferedState::Ready {
            assert forall|i: int| 0 <= i < done implies not_after(
                #[trigger] more.order(i, after.run_start),
            ) by {
                lemma_order_same(keys, more, i, view.run_start);
                assert(not_after(keys.order(i, view.run_start)));
            }
        }
        assert(after.order_merged());
    }
}

/// What the poll of the buffered cursor does to the rows taken in and to
/// the run, as far as merging goes.
pub proof fn lemma_buffered_step_shape(view: JoinView)
    requires
        view.valid(),
        view.buffered_step() is Ok,
        view.buffered_state != BufferedState::Ready,
        view.buffered_state != BufferedState::Exhausted,
    ensures
        ({
            let after = view.buffered_step()->Ok_0.0;
            let start = view.passed();
            &&& keys_grow(view.keys(), after.keys())
            &&& after.keys().streamed == view.keys().streamed
            &&& after.run_start == start
            &&& view.limit() == start
            &&& view.buffered_done() == start || view.state != SMJState::Polling
            &&& after.buffered_keys.len() > view.buffered_keys.len() ==> (view.buffered_input
                is Some && view.buffered_input != Some(crate::stream::StreamInput::End))
            &&& after.buffered_state == BufferedState::PollingFirst ==> {
                &&& after.buffered_keys == view.buffered_keys
                &&& view.buffered_input != Some(crate::stream::StreamInput::End)
                &&& view.buffered_state != BufferedState::PollingRest
                &&& view.run_end >= view.buffered_keys.len()
            }
            &&& after.buffered_joined == view.buffered_joined
        }),
{
    reveal(JoinView::buffered_step);
    let after = view.buffered_step()->Ok_0.0;
    assert(view.keys().buffered.is_prefix_of(after.keys().buffered));
}

/// The poll of the buffered cursor keeps the join merged.
pub proof fn lemma_buffered_step_merged(view: JoinView)
    requires
        view.valid(),
        view.state == SMJState::Polling,
        view.merged(),
        view.buffered_step() is Ok,
        view.buffered_step()->Ok_0.0.valid(),
    ensures
        view.buffered_step()->Ok_0.0.merged(),
{
    reveal(JoinView::merged);
    let after = view.buffered_step()->Ok_0.0;
    let keys = view.keys();
    let more = after.keys();
    view.lemma_buffered_step();
    if view.buffered_state == BufferedState::Ready || view.buffered_state
        == BufferedState::Exhausted {
        assert(after == view);
    } else {
        lemma_buffered_step_shape(view);
        let start = view.passed();
        let done = view.streamed_done();
        let known = view.buffered_keys.len() as int;
        assert(after.streamed_done() == done);
        assert forall|k: int| 0 <= k < after.joined.len() implies row_sound(
            more,
            after.join_type,
            #[trigger] after.joined[k],
        ) by {
            lemma_row_sound_grows(keys, more, view.join_type, view.joined[k]);
        }
        if more.sorted() {
            lemma_sorted_before(keys, more);
            assert(view.sorted_merged());
            // with a row taken in, the rows known before reach beyond the start, or
            // no streamed row is done
            if after.buffered_keys.len() > known && start >= known {
                if view.buffered_state == BufferedState::Init && view.run_start < view.run_end {
                    assert(view.run_closed());
                    assert(false);
                }
                assert(done == 0);
            }
            assert forall|i: int, j: int|
                0 <= i < done && start <= j < more.buffered.len() implies not_after(
                #[trigger] more.order(i, j),
            ) && !more.pairs(i, j) by {
                if j < known {
                    lemma_order_same(keys, more, i, j);
                    assert(not_after(keys.order(i, j)) && !keys.pairs(i, j));
                } else {
                    lemma_order_same(keys, more, i, known - 1);
                    assert(not_after(keys.order(i, known - 1)) && !keys.pairs(i, known - 1));
                    lemma_not_paired_later(more, i, known - 1, j);
                }
            }
            assert forall|i: int, j: int|
                0 <= i < done && keys.buffered.len() <= j < more.buffered.len() implies !#[trigger] more.pairs(
                i,
                j,
            ) by {
                assert(not_after(more.order(i, j)) && !more.pairs(i, j));
            }
            lemma_streamed_out_grows(keys, more, view.join_type, done);
            lemma_buffered_out_grows(keys, more, start);
            assert(after.partial_streamed() == view.partial_streamed());
            assert(after.partial_buffered() =~= view.partial_buffered());
            assert(after.buffered_done() == start);
            assert(view.buffered_done() == start);
            assert(after.output_merged());
            if view.streamed_state != StreamedState::Exhausted && view.streamed_pos >= 0 {
                assert forall|j: int| 0 <= j < after.passed() implies #[trigger] more.order(
                    view.streamed_pos,
                    j,
                ) == Some(KeyOrder::Greater) by {
                    lemma_order_same(keys, more, view.streamed_pos, j);
                    assert(keys.order(view.streamed_pos, j) == Some(KeyOrder::Greater));
                }
            }
            assert(after.frontier_merged());
            if after.buffered_state == BufferedState::Ready {
                if more.matched_before(after.run_start, done) {
                    let i = choose|i: int| 0 <= i < done && #[trigger] more.pairs(i, after.run_start);
                    assert(not_after(more.order(i, after.run_start)) && !more.pairs(
                        i,
                        after.run_start,
                    ));
                }
            }
            assert(after.flags_merged());
            lemma_cross_ordered_grows(keys, more, view.join_type, view.joined);
            if after.buffered_state == BufferedState::Ready {
                assert forall|i: int| 0 <= i < done implies not_after(
                    #[trigger] more.order(i, after.run_start),
                ) by {
                    assert(not_after(more.order(i, after.run_start)) && !more.pairs(
                        i,
                        after.run_start,
                    ));
                }
            }
            assert(after.order_merged());
        }
    }
}

/// Comparing the streamed row with the run, once both inputs stand, keeps
/// the join merged.
pub proof fn lemma_compare_merged(view: JoinView, after: JoinView)
    requires
        view.valid(),
        view.state == SMJState::Polling,
        view.settled(),
        view.merged(),
        after == (JoinView { state: SMJState::Exhausted, ..view }) || (view.ordering() is Some
            && after == (JoinView {
            current_ordering: view.ordering()->0,
            state: SMJState::JoinOutput,
            ..view
        })),
    ensures
        after.merged(),
{
    reveal(JoinView::merged);
    assert(after.keys() == view.keys());
    if view.keys().sorted() {
        assert(after.partial_streamed() =~= Seq::<JoinedRow>::empty());
        assert(after.partial_buffered() =~= Seq::<JoinedRow>::empty());
        assert(view.partial_streamed() =~= Seq::<JoinedRow>::empty());
        assert(view.partial_buffered() =~= Seq::<JoinedRow>::empty());
    }
}

/// One step of making output keeps the join merged.
pub proof fn lemma_join_partial_merged(view: JoinView)
    requires
        view.valid(),
        view.state == SMJState::JoinOutput,
        view.staged < view.batch_size,
        view.merged(),
    ensures
        view.after_join_partial().merged(),
        ({
            let after = view.after_join_partial();
            &&& after.streamed_state == StreamedState::Ready && ((after.current_ordering
                == KeyOrder::Less && after.keeps_streamed_alone()) || (after.current_ordering
                == KeyOrder::Equal && after.join_type == JoinType::Semi))
                ==> after.streamed_joined
            &&& after.staged < after.batch_size ==> after.scanned == after.run_end
                - after.run_start
        }),
{
    reveal(JoinView::merged);
    reveal(JoinView::after_join_partial);
    reveal(JoinView::partial_rows);
    lemma_join_partial_recorded(view);
    let after = view.after_join_partial();
    let keys = view.keys();
    let rows = view.partial_rows();
    assert(after.keys() == keys);
    assert(after.joined == view.joined + rows);
    lemma_parts_add(view.joined, rows);
    if view.joins_buffered() && view.joins_streamed() {
        lemma_parts_streamed(rows);
    } else if view.joins_buffered() {
        lemma_parts_buffered(rows);
    } else if view.joins_streamed() {
        lemma_parts_streamed(rows);
    } else {
        assert(rows =~= Seq::<JoinedRow>::empty());
        lemma_parts_streamed(rows);
    }
    if keys.sorted() {
        assert(view.sorted_merged());
        assert(after.streamed_done() == view.streamed_done());
        assert(after.buffered_done() == view.buffered_done());
        if view.joins_buffered() && view.joins_streamed() {
            assert(after.partial_streamed() =~= view.partial_streamed() + rows);
            assert(after.partial_buffered() =~= view.partial_buffered());
        } else if view.joins_buffered() {
            assert(after.partial_buffered() =~= view.partial_buffered() + rows);
            assert(after.partial_streamed() =~= view.partial_streamed());
        } else if view.joins_streamed() {
            assert(after.partial_streamed() =~= view.partial_streamed() + rows);
            assert(after.partial_buffered() =~= view.partial_buffered());
        } else {
            assert(after.partial_streamed() =~= view.partial_streamed());
            assert(after.partial_buffered() =~= view.partial_buffered());
        }
        let owed = keys.streamed_out(view.join_type, view.streamed_done());
        assert(owed + (view.partial_streamed() + streamed_part(rows)) =~= (owed
            + view.partial_streamed()) + streamed_part(rows));
        if view.join_type == JoinType::Full {
            let passed = keys.buffered_out(view.buffered_done());
            assert(passed + (view.partial_buffered() + buffered_part(rows)) =~= (passed
                + view.partial_buffered()) + buffered_part(rows));
            assert(passed + view.partial_buffered() + Seq::<JoinedRow>::empty() =~= passed
                + view.partial_buffered());
        }
        assert(owed + view.partial_streamed() + Seq::<JoinedRow>::empty() =~= owed
            + view.partial_streamed());
        assert(after.output_merged());
        assert(after.frontier_merged());
        assert(after.flags_merged());
        lemma_join_partial_ordered(view);
    }
}

/// The rows that one step of making output decides stand after the rows
/// decided before, in the order of their keys.
pub proof fn lemma_join_partial_ordered(view: JoinView)
    requires
        view.valid(),
        view.state == SMJState::JoinOutput,
        view.staged < view.batch_size,
        view.recorded(),
        view.keys().sorted(),
        view.sorted_merged(),
    ensures
        view.after_join_partial().order_merged(),
{
    reveal(JoinView::after_join_partial);
    reveal(JoinView::partial_rows);
    let after = view.after_join_partial();
    let keys = view.keys();
    let rows = view.partial_rows();
    let old_len = view.joined.len() as int;
    assert(after.keys() == keys);
    assert(after.streamed_done() == view.streamed_done());
    assert forall|k: int, later: int| 0 <= k < later < after.joined.len() implies {
        &&& (#[trigger] after.joined[k]).streamed is None && (
        #[trigger] after.joined[later]).streamed is Some ==> keys.order(
            after.joined[later].streamed->0,
            after.joined[k].buffered->0,
        ) == Some(KeyOrder::Greater)
        &&& after.joined[k].streamed is Some && after.joined[later].streamed is None ==> not_after(
            keys.order(after.joined[k].streamed->0, after.joined[later].buffered->0),
        )
    } by {
        if later < old_len {
            assert(after.joined[k] == view.joined[k]);
            assert(after.joined[later] == view.joined[later]);
        } else {
            let new_row = rows[later - old_len];
            assert(after.joined[later] == new_row);
            if k < old_len {
                let old_row = view.joined[k];
                assert(after.joined[k] == old_row);
                lemma_rows_behind(view, k);
                if old_row.streamed is None && new_row.streamed is Some {
                    // the current streamed row stands after the buffered rows passed
                    assert(view.current_ordering != KeyOrder::Greater);
                    assert(old_row.buffered->0 < view.passed());
                    assert(keys.order(view.streamed_pos, old_row.buffered->0) == Some(
                        KeyOrder::Greater,
                    ));
                }
                if old_row.streamed is Some && new_row.streamed is None {
                    // the rows of a run without a partner stand after the streamed rows done
                    let i = old_row.streamed->0;
                    let j = new_row.buffered->0;
                    assert(view.current_ordering == KeyOrder::Greater);
                    assert(i < view.streamed_done());
                    assert(not_after(keys.order(i, view.run_start)));
                    assert(!keys.matched_before(view.run_start, view.streamed_done()));
                    assert(!keys.pairs(i, view.run_start));
                    lemma_run_order(view, i, j);
                }
            } else {
                assert(after.joined[k] == rows[k - old_len]);
            }
        }
    }
}

/// A streamed row that stands not after a buffered row and is not paired
/// with it stands not after the later buffered rows and is paired with none
/// of them.
pub proof fn lemma_not_paired_later(keys: JoinKeys, i: int, j: int, later: int)
    requires
        keys.sorted(),
        0 <= i < keys.streamed.len(),
        0 <= j <= later < keys.buffered.len(),
        not_after(keys.order(i, j)),
        !keys.pairs(i, j),
    ensures
        not_after(keys.order(i, later)),
        !keys.pairs(i, later),
{
    if j < later {
        let row = keys.streamed[i];
        let a = keys.buffered[j];
        let b = keys.buffered[later];
        crate::order::lemma_key_order_before(
            keys.types,
            keys.options,
            keys.null_equals_null,
            row,
            a,
            b,
            0,
        );
        if keys.order(i, later) == Some(KeyOrder::Equal) {
            assert(keys.matches(i, j));
            assert(keys.has_match(i, later));
            if keys.whole(later) {
                crate::order::lemma_key_equal_same(
                    keys.types,
                    keys.options,
                    keys.null_equals_null,
                    row,
                    a,
                    a,
                    b,
                    0,
                );
                assert(keys.whole(j));
            }
        }
    }
}

/// A streamed row that stands not after a whole run stands not after the
/// buffered rows after the run and is paired with none of them.
pub proof fn lemma_after_run(view: JoinView, i: int, j: int)
    requires
        view.inputs_valid(),
        view.keys().sorted(),
        view.run_same(),
        view.run_closed(),
        0 <= view.run_start < view.run_end <= j < view.buffered_keys.len(),
        0 <= i < view.streamed_keys.len(),
        not_after(view.keys().order(i, view.run_start)),
    ensures
        not_after(view.keys().order(i, j)),
        !view.keys().pairs(i, j),
{
    let keys = view.keys();
    let row = view.streamed_keys[i];
    let head = view.buffered_keys[view.run_start];
    let next = view.buffered_keys[view.run_end];
    assert(not_after(key_order(keys.types, head, next, keys.options, keys.null_equals_null)));
    crate::order::lemma_key_order_before(
        keys.types,
        keys.options,
        keys.null_equals_null,
        row,
        head,
        next,
        0,
    );
    if keys.order(i, view.run_end) == Some(KeyOrder::Equal) {
        assert(keys.matches(i, view.run_start));
        assert(keys.has_match(i, view.run_end));
        if keys.whole(view.run_end) {
            crate::order::lemma_key_equal_same(
                keys.types,
                keys.options,
                keys.null_equals_null,
                row,
                head,
                next,
                next,
                0,
            );
        }
    }
    lemma_not_paired_later(keys, i, view.run_end, j);
}

/// Going on from a streamed row and a run that are joined keeps the join merged.
pub proof fn lemma_join_output_init_merged(view: JoinView, after: JoinView)
    requires
        view.valid(),
        view.state == SMJState::JoinOutput,
        view.merged(),
        view.scanned == view.run_end - view.run_start,
        view.streamed_state == StreamedState::Ready && ((view.current_ordering == KeyOrder::Less
            && view.keeps_streamed_alone()) || (view.current_ordering == KeyOrder::Equal
            && view.join_type == JoinType::Semi)) ==> view.streamed_joined,
        after == (JoinView { scanned: 0, state: SMJState::Init, ..view }),
    ensures
        after.merged(),
{
    reveal(JoinView::merged);
    let keys = view.keys();
    assert(after.keys() == keys);
    if keys.sorted() {
        assert(view.sorted_merged());
        let pos = view.streamed_pos;
        let start = view.run_start;
        let end = view.run_end;
        let known = view.buffered_keys.len() as int;
        let order = view.current_ordering;
        assert(after.partial_streamed() =~= Seq::<JoinedRow>::empty());
        assert(after.partial_buffered() =~= Seq::<JoinedRow>::empty());
        if view.streamed_state == StreamedState::Ready && order != KeyOrder::Greater {
            // the partners of the streamed row are the rows of the run, if it matches the run
            assert(view.passed() == start);
            assert forall|j: int| 0 <= j < start implies !#[trigger] keys.pairs(pos, j) by {
                assert(keys.order(pos, j) == Some(KeyOrder::Greater));
            }
            if keys.has_match(pos, start) {
                let e = choose|e: int| 0 <= e < start && #[trigger] keys.matches(pos, e);
                assert(keys.order(pos, e) == Some(KeyOrder::Greater));
            }
            if start < end {
                assert(keys.order(pos, start) == Some(order));
                assert(keys.pairs(pos, start) == (order == KeyOrder::Equal));
            }
            assert forall|j: int| start <= j < end implies #[trigger] keys.pairs(pos, j) == (
            order == KeyOrder::Equal) by {
                lemma_run_pairs(view, pos, j);
            }
            assert forall|j: int| end <= j < known implies !#[trigger] keys.pairs(pos, j) by {
                lemma_after_run(view, pos, j);
            }
            lemma_match_rows_split(keys, pos, 0, start, known);
            lemma_match_rows_split(keys, pos, start, end, known);
            lemma_match_rows_none(keys, pos, 0, start);
            lemma_match_rows_none(keys, pos, end, known);
            if order == KeyOrder::Equal {
                lemma_match_rows_all(keys, pos, start, end);
            } else {
                lemma_match_rows_none(keys, pos, start, end);
            }
            let pairs = keys.match_rows(pos, 0, known);
            assert(pairs =~= keys.match_rows(pos, start, end));
            assert(keys.row_out(view.join_type, pos) =~= view.partial_streamed());
            assert(after.streamed_done() == pos + 1);
            assert(keys.streamed_out(view.join_type, pos + 1) == keys.streamed_out(
                view.join_type,
                pos,
            ) + keys.row_out(view.join_type, pos));
            assert(after.buffered_done() == view.buffered_done());
            assert(view.partial_buffered() =~= Seq::<JoinedRow>::empty());
            assert forall|i: int, j: int|
                0 <= i < after.streamed_done() && after.limit() <= j < known implies not_after(
                #[trigger] keys.order(i, j),
            ) && !keys.pairs(i, j) by {
                if i == pos {
                    lemma_after_run(view, pos, j);
                }
            }
            if view.buffered_state == BufferedState::Ready && view.join_type == JoinType::Full {
                if order == KeyOrder::Equal {
                    assert(keys.pairs(pos, start));
                }
                if keys.matched_before(start, pos + 1) && !keys.matched_before(start, pos) {
                    let i = choose|i: int| 0 <= i < pos + 1 && #[trigger] keys.pairs(i, start);
                    assert(i == pos);
                }
                if keys.matched_before(start, pos) {
                    let i = choose|i: int| 0 <= i < pos && #[trigger] keys.pairs(i, start);
                    assert(keys.pairs(i, start));
                }
            }
        } else {
            assert(after.streamed_done() == view.streamed_done());
            assert(view.partial_streamed() =~= Seq::<JoinedRow>::empty());
            let done = view.streamed_done();
            if view.buffered_state == BufferedState::Ready {
                assert(order == KeyOrder::Greater);
                assert(after.buffered_done() == end);
                assert(view.buffered_done() == start);
                if keys.matched_before(start, done) {
                    let i = choose|i: int| 0 <= i < done && #[trigger] keys.pairs(i, start);
                    assert forall|j: int| start <= j < end implies !#[trigger] keys.unmatched(
                        j,
                    ) by {
                        lemma_run_pairs(view, i, j);
                        assert(keys.pairs(i, j));
                    }
                    lemma_buffered_out_none(keys, start, end);
                } else {
                    assert forall|j: int| start <= j < end implies #[trigger] keys.unmatched(
                        j,
                    ) by {
                        assert forall|i: int| 0 <= i < keys.streamed.len() implies !#[trigger] keys.pairs(
                            i,
                            j,
                        ) by {
                            lemma_run_pairs(view, i, j);
                            if i < done {
                                assert(!keys.pairs(i, start));
                            } else {
                                assert(view.streamed_state == StreamedState::Ready);
                                assert(keys.order(pos, start) == Some(KeyOrder::Greater));
                                lemma_later_row_after(keys, pos, i, start);
                            }
                        }
                    }
                    lemma_buffered_out_all(keys, start, end);
                }
            } else {
                assert(after.buffered_done() == view.buffered_done());
                assert(view.partial_buffered() =~= Seq::<JoinedRow>::empty());
            }
        }
        assert(after.output_merged());
        assert(after.frontier_merged());
        assert(after.flags_merged());
    }
}

impl JoinKeys {
    /// A streamed row with a key `Equal` to that of a buffered row is paired
    /// with a buffered row: with the first whose key is `Equal` to its own.
    pub proof fn lemma_first_partner(self, i: int, to: int)
        requires
            self.has_match(i, to),
        ensures
            exists|j: int| 0 <= j < to && #[trigger] self.pairs(i, j),
        decreases to,
    {
        if self.has_match(i, to - 1) {
            self.lemma_first_partner(i, to - 1);
            let j = choose|j: int| 0 <= j < to - 1 && #[trigger] self.pairs(i, j);
            assert(self.pairs(i, j));
        } else {
            let e = choose|e: int| 0 <= e < to && #[trigger] self.matches(i, e);
            if e < to - 1 {
                assert(self.has_match(i, to - 1));
            }
            assert(self.pairs(i, to - 1));
        }
    }

    /// A streamed row is owed a pair exactly when some buffered row has a
    /// key `Equal` to its own.
    pub proof fn lemma_has_partner(self, i: int)
        ensures
            self.match_rows(i, 0, self.buffered.len() as int).len() > 0 <==> self.has_match(
                i,
                self.buffered.len() as int,
            ),
    {
        let known = self.buffered.len() as int;
        if self.has_match(i, known) {
            self.lemma_first_partner(i, known);
            let j = choose|j: int| 0 <= j < known && #[trigger] self.pairs(i, j);
            if self.match_rows(i, 0, known).len() == 0 {
                self.lemma_match_rows_empty(i, known, j);
            }
        }
        if self.match_rows(i, 0, known).len() > 0 {
            self.lemma_match_rows_rows(i, known, 0);
            let j = self.match_rows(i, 0, known)[0].buffered->0;
            assert(self.matches(i, j));
        }
    }

    /// What a semi join and an anti join owe to streamed row `i`: the semi
    /// join the row once if a buffered row has a key `Equal` to its own and
    /// else nothing, the anti join the reverse. With `law_output`, the output
    /// of a semi join of sorted inputs is then, in the order of the streamed
    /// input, each streamed row once that has such a buffered row, and the
    /// output of an anti join each streamed row once that has none.
    pub proof fn law_one_sided(self, i: int)
        ensures
            self.row_out(JoinType::Semi, i) == if self.has_match(i, self.buffered.len() as int) {
                seq![JoinedRow { streamed: Some(i), buffered: None }]
            } else {
                Seq::empty()
            },
            self.row_out(JoinType::Anti, i) == if self.has_match(i, self.buffered.len() as int) {
                Seq::empty()
            } else {
                seq![JoinedRow { streamed: Some(i), buffered: None }]
            },
    {
        self.lemma_has_partner(i);
    }

    /// Where the runs of the buffered input are whole, a streamed row is
    /// paired with every buffered row whose key is `Equal` to its own.
    pub proof fn lemma_whole_runs(self, i: int, j: int)
        requires
            self.sorted(),
            self.runs_whole(),
            0 <= i < self.streamed.len(),
            0 <= j < self.buffered.len(),
        ensures
            self.pairs(i, j) == self.matches(i, j),
    {
        if self.matches(i, j) && self.has_match(i, j) {
            let e = choose|e: int| 0 <= e < j && #[trigger] self.matches(i, e);
            let a = self.buffered[e];
            let b = self.buffered[j];
            assert(not_after(key_order(self.types, a, b, self.options, self.null_equals_null)));
            crate::order::lemma_key_order_before(
                self.types,
                self.options,
                self.null_equals_null,
                self.streamed[i],
                a,
                b,
                0,
            );
            assert(key_same(self.types, a, b) == Some(true));
            crate::order::lemma_key_same_whole(self.types, a, b, 0);
        }
    }

    /// The number of partners of streamed row `i` among the buffered rows before `to`.
    pub open spec fn match_count(self, i: int, to: int) -> int
        decreases to,
    {
        if to <= 0 {
            0
        } else if self.pairs(i, to - 1) {
            self.match_count(i, to - 1) + 1
        } else {
            self.match_count(i, to - 1)
        }
    }

    /// The number of output rows that a join of the given kind owes to
    /// streamed row `i`: one for each partner, or one where the row has no
    /// partner and the join keeps such rows; for a semi join one if there
    /// is a partner, for an anti join one if there is none.
    pub open spec fn row_count(self, join_type: JoinType, i: int) -> int {
        let partners = self.match_count(i, self.buffered.len() as int);
        match join_type {
            JoinType::Inner => partners,
            JoinType::Left | JoinType::Right | JoinType::Full => if partners == 0 {
                1
            } else {
                partners
            },
            JoinType::Semi => if partners == 0 {
                0
            } else {
                1
            },
            JoinType::Anti => if partners == 0 {
                1
            } else {
                0
            },
        }
    }

    /// The number of output rows that a join of the given kind owes to the
    /// first `count` streamed rows.
    pub open spec fn streamed_count(self, join_type: JoinType, count: int) -> int
        decreases count,
    {
        if count <= 0 {
            0
        } else {
            self.streamed_count(join_type, count - 1) + self.row_count(join_type, count - 1)
        }
    }

    /// The number of buffered rows before `count` that have no partner.
    pub open spec fn unmatched_count(self, count: int) -> int
        decreases count,
    {
        if count <= 0 {
            0
        } else if self.unmatched(count - 1) {
            self.unmatched_count(count - 1) + 1
        } else {
            self.unmatched_count(count - 1)
        }
    }

    /// The number of rows of the join of the two inputs as relations.
    pub open spec fn reference_count(self, join_type: JoinType) -> int {
        self.streamed_count(join_type, self.streamed.len() as int) + if join_type
            == JoinType::Full {
            self.unmatched_count(self.buffered.len() as int)
        } else {
            0
        }
    }

    /// The rows owed to a streamed row for its partners are as many as its partners.
    pub proof fn lemma_match_rows_len(self, i: int, to: int)
        ensures
            self.match_rows(i, 0, to).len() == self.match_count(i, to),
        decreases to,
    {
        if to > 0 {
            self.lemma_match_rows_len(i, to - 1);
        }
    }

    /// The rows owed to the first streamed rows are as many as counted.
    pub proof fn lemma_streamed_out_len(self, join_type: JoinType, count: int)
        ensures
            self.streamed_out(join_type, count).len() == self.streamed_count(join_type, count),
        decreases count,
    {
        if count > 0 {
            self.lemma_streamed_out_len(join_type, count - 1);
            self.lemma_match_rows_len(count - 1, self.buffered.len() as int);
        }
    }

    /// The rows that a full join owes to buffered rows without a partner
    /// are as many as those rows.
    pub proof fn lemma_buffered_out_len(self, count: int)
        ensures
            self.buffered_out(count).len() == self.unmatched_count(count),
        decreases count,
    {
        if count > 0 {
            self.lemma_buffered_out_len(count - 1);
        }
    }

    /// A full join owes to the streamed rows what an inner join owes to
    /// them and a row more for each streamed row without a partner.
    pub proof fn lemma_full_count(self, count: int)
        ensures
            self.streamed_count(JoinType::Full, count) == self.streamed_count(
                JoinType::Inner,
                count,
            ) + self.streamed_count(JoinType::Anti, count),
        decreases count,
    {
        if count > 0 {
            self.lemma_full_count(count - 1);
        }
    }

    /// The partners of a streamed row that a list of owed pairs names.
    pub proof fn lemma_match_rows_rows(self, i: int, to: int, k: int)
        requires
            0 <= k < self.match_rows(i, 0, to).len(),
        ensures
            self.match_rows(i, 0, to)[k].streamed == Some(i),
            self.match_rows(i, 0, to)[k].buffered is Some,
            0 <= self.match_rows(i, 0, to)[k].buffered->0 < to,
            self.pairs(i, self.match_rows(i, 0, to)[k].buffered->0),
        decreases to,
    {
        if to > 0 {
            if k < self.match_rows(i, 0, to - 1).len() {
                self.lemma_match_rows_rows(i, to - 1, k);
            }
        }
    }

    /// A streamed row to which no pairs are owed has no partner.
    pub proof fn lemma_match_rows_empty(self, i: int, to: int, j: int)
        requires
            self.match_rows(i, 0, to).len() == 0,
            0 <= j < to,
        ensures
            !self.pairs(i, j),
        decreases to,
    {
        if j < to - 1 {
            self.lemma_match_rows_empty(i, to - 1, j);
        }
    }

    /// Every row owed to the first streamed rows names one of them, and
    /// is owed to it.
    pub proof fn lemma_streamed_out_rows(self, join_type: JoinType, count: int, k: int)
        requires
            0 <= k < self.streamed_out(join_type, count).len(),
        ensures
            ({
                let row = self.streamed_out(join_type, count)[k];
                &&& row.streamed is Some
                &&& 0 <= row.streamed->0 < count
                &&& self.row_out(join_type, row.streamed->0).contains(row)
            }),
        decreases count,
    {
        if count > 0 {
            let before = self.streamed_out(join_type, count - 1);
            if k < before.len() {
                self.lemma_streamed_out_rows(join_type, count - 1, k);
            } else {
                let i = count - 1;
                let t = k - before.len();
                let last = self.row_out(join_type, i);
                assert(self.streamed_out(join_type, count)[k] == last[t]);
                let pairs = self.match_rows(i, 0, self.buffered.len() as int);
                if t < pairs.len() && last == pairs {
                    self.lemma_match_rows_rows(i, self.buffered.len() as int, t);
                }
            }
        }
    }

    /// The rows owed to the first streamed rows come in the order of the
    /// streamed rows.
    pub proof fn lemma_streamed_out_ordered(self, join_type: JoinType, count: int, k: int, later: int)
        requires
            0 <= k <= later < self.streamed_out(join_type, count).len(),
        ensures
            self.streamed_out(join_type, count)[k].streamed->0 <= self.streamed_out(
                join_type,
                count,
            )[later].streamed->0,
        decreases count,
    {
        if count > 0 {
            let before = self.streamed_out(join_type, count - 1);
            self.lemma_streamed_out_rows(join_type, count, k);
            self.lemma_streamed_out_rows(join_type, count, later);
            if later < before.len() {
                self.lemma_streamed_out_ordered(join_type, count - 1, k, later);
            } else if k < before.len() {
                self.lemma_streamed_out_rows(join_type, count - 1, k);
                let i = count - 1;
                let last = self.row_out(join_type, i);
                let t = later - before.len();
                assert(self.streamed_out(join_type, count)[later] == last[t]);
                let pairs = self.match_rows(i, 0, self.buffered.len() as int);
                if t < pairs.len() && last == pairs {
                    self.lemma_match_rows_rows(i, self.buffered.len() as int, t);
                }
            } else {
                let i = count - 1;
                let last = self.row_out(join_type, i);
                let pairs = self.match_rows(i, 0, self.buffered.len() as int);
                let t = later - before.len();
                let u = k - before.len();
                assert(self.streamed_out(join_type, count)[later] == last[t]);
                assert(self.streamed_out(join_type, count)[k] == last[u]);
                if last == pairs {
                    self.lemma_match_rows_rows(i, self.buffered.len() as int, t);
                    self.lemma_match_rows_rows(i, self.buffered.len() as int, u);
                }
            }
        }
    }
}

/// The rows that a full join owes to buffered rows without a partner come
/// in the order of the buffered rows.
pub proof fn lemma_buffered_out_ordered(keys: JoinKeys, count: int, k: int, later: int)
    requires
        0 <= k < later < keys.buffered_out(count).len(),
    ensures
        keys.buffered_out(count)[k].buffered->0 < keys.buffered_out(count)[later].buffered->0,
    decreases count,
{
    if count > 0 {
        let before = keys.buffered_out(count - 1);
        if later < before.len() {
            lemma_buffered_out_ordered(keys, count - 1, k, later);
        } else {
            lemma_buffered_out_rows(keys, count - 1, k);
        }
    }
}

/// A list of output rows that all hold a streamed row is its own streamed part.
pub proof fn lemma_parts_whole(rows: Seq<JoinedRow>)
    requires
        buffered_part(rows).len() == 0,
    ensures
        streamed_part(rows) == rows,
    decreases rows.len(),
{
    if rows.len() > 0 {
        lemma_parts_whole(rows.drop_last());
        assert(rows.drop_last().push(rows.last()) =~= rows);
    } else {
        assert(rows =~= Seq::<JoinedRow>::empty());
    }
}

impl JoinView {
    /// Whether the join is at its end, with all its output handed out.
    pub open spec fn finished(self) -> bool {
        &&& self.valid()
        &&& self.merged()
        &&& self.state == SMJState::Exhausted
        &&& self.emitted == self.output_rows()
    }

    /// The output of a join of sorted inputs, at its end: the rows owed to
    /// the streamed rows, row after row, each beside each of its partners
    /// or as the kind of join treats a row without a partner; and, in a
    /// full join, among them each buffered row without a partner beside
    /// nulls, where its key puts it. With a left join, then, every left row
    /// comes out once with each of its partners, and once beside nulls if
    /// it has none.
    pub proof fn law_output(self)
        requires
            self.finished(),
            self.keys().sorted(),
        ensures
            streamed_part(self.joined) == self.keys().streamed_out(
                self.join_type,
                self.streamed_keys.len() as int,
            ),
            buffered_part(self.joined) == if self.join_type == JoinType::Full {
                self.keys().buffered_out(self.buffered_keys.len() as int)
            } else {
                Seq::empty()
            },
            self.join_type != JoinType::Full ==> self.joined == self.keys().streamed_out(
                self.join_type,
                self.streamed_keys.len() as int,
            ),
            self.emitted.len() == self.joined.len(),
            cross_ordered(self.keys(), self.joined),
            rows_sound(self.keys(), self.join_type, self.joined),
    {
        reveal(JoinView::merged);
        let keys = self.keys();
        assert(self.partial_streamed() =~= Seq::<JoinedRow>::empty());
        assert(self.partial_buffered() =~= Seq::<JoinedRow>::empty());
        assert(keys.streamed_out(self.join_type, self.streamed_done()) + self.partial_streamed()
            =~= keys.streamed_out(self.join_type, self.streamed_done()));
        assert(keys.buffered_out(self.buffered_done()) + self.partial_buffered()
            =~= keys.buffered_out(self.buffered_done()));
        if self.join_type != JoinType::Full {
            lemma_parts_whole(self.joined);
        }
    }

    /// For sorted inputs and any kind of join, the join puts out as many
    /// rows as the join of the two inputs as relations has, a row being
    /// joined with its partners. With whole runs these are the rows with an
    /// `Equal` key, as `lemma_whole_runs` shows.
    pub proof fn law_row_count(self)
        requires
            self.finished(),
            self.keys().sorted(),
        ensures
            self.emitted.len() == self.keys().reference_count(self.join_type),
    {
        self.law_output();
        let keys = self.keys();
        keys.lemma_streamed_out_len(self.join_type, self.streamed_keys.len() as int);
        keys.lemma_buffered_out_len(self.buffered_keys.len() as int);
        lemma_parts_len(self.joined);
    }

    /// A full join of sorted inputs puts out as many rows as the inner
    /// join has, and one more for each row of either input without a
    /// partner. With whole runs the partners are the rows with an `Equal`
    /// key, as `lemma_whole_runs` shows.
    pub proof fn law_full_row_count(self)
        requires
            self.finished(),
            self.keys().sorted(),
            self.join_type == JoinType::Full,
        ensures
            self.emitted.len() == self.keys().streamed_count(
                JoinType::Inner,
                self.streamed_keys.len() as int,
            ) + self.keys().streamed_count(JoinType::Anti, self.streamed_keys.len() as int)
                + self.keys().unmatched_count(self.buffered_keys.len() as int),
    {
        self.law_row_count();
        self.keys().lemma_full_count(self.streamed_keys.len() as int);
    }

    /// Every output row that holds a streamed row and a buffered row holds
    /// two rows whose keys are `Equal` in every join column, whatever the
    /// inputs are. An inner join puts out such rows only.
    pub proof fn law_pairs_match(self, k: int)
        requires
            self.merged(),
            0 <= k < self.joined.len(),
        ensures
            row_sound(self.keys(), self.join_type, self.joined[k]),
            self.join_type == JoinType::Inner ==> self.joined[k].streamed is Some
                && self.joined[k].buffered is Some,
            self.joined[k].streamed is Some && self.joined[k].buffered is Some
                ==> self.keys().matches(self.joined[k].streamed->0, self.joined[k].buffered->0),
    {
        reveal(JoinView::merged);
    }

    /// Every output row of a semi join is a streamed row by itself, and a
    /// buffered row has a key `Equal` to its own, whatever the inputs are.
    pub proof fn law_semi_rows(self, k: int)
        requires
            self.merged(),
            self.join_type == JoinType::Semi,
            0 <= k < self.joined.len(),
        ensures
            self.joined[k].streamed is Some,
            self.joined[k].buffered is None,
            self.keys().has_match(self.joined[k].streamed->0, self.buffered_keys.len() as int),
            self.output_rows()[k] == self.streamed_rows[self.joined[k].streamed->0],
    {
        reveal(JoinView::merged);
    }

    /// Every output row of an anti join of sorted inputs is a streamed row
    /// by itself, and no buffered row has a key `Equal` to its own.
    pub proof fn law_anti_rows(self, k: int)
        requires
            self.finished(),
            self.keys().sorted(),
            self.join_type == JoinType::Anti,
            0 <= k < self.joined.len(),
        ensures
            self.joined[k].streamed is Some,
            self.joined[k].buffered is None,
            !self.keys().has_match(self.joined[k].streamed->0, self.buffered_keys.len() as int),
            self.output_rows()[k] == self.streamed_rows[self.joined[k].streamed->0],
    {
        self.law_output();
        let keys = self.keys();
        let known = self.buffered_keys.len() as int;
        keys.lemma_streamed_out_rows(JoinType::Anti, self.streamed_keys.len() as int, k);
        let i = self.joined[k].streamed->0;
        assert(keys.row_out(JoinType::Anti, i).contains(self.joined[k]));
        assert(keys.match_rows(i, 0, known).len() == 0);
        assert forall|j: int| 0 <= j < known implies !#[trigger] keys.pairs(i, j) by {
            keys.lemma_match_rows_empty(i, known, j);
        }
        if keys.has_match(i, known) {
            keys.lemma_first_partner(i, known);
        }
    }

    /// The output of a join of sorted inputs follows the order of the
    /// streamed input: of two output rows that hold a streamed row, the
    /// later holds no earlier streamed row, and so no row with a key that
    /// stands before.
    pub proof fn law_output_ordered(self, k: int, later: int)
        requires
            self.finished(),
            self.keys().sorted(),
            0 <= k <= later < streamed_part(self.joined).len(),
        ensures
            ({
                let rows = streamed_part(self.joined);
                &&& rows[k].streamed is Some
                &&& rows[later].streamed is Some
                &&& 0 <= rows[k].streamed->0 <= rows[later].streamed->0 < self.streamed_keys.len()
                &&& rows[k].streamed->0 < rows[later].streamed->0 ==> not_after(
                    key_order(
                        self.key_types,
                        self.streamed_keys[rows[k].streamed->0],
                        self.streamed_keys[rows[later].streamed->0],
                        self.sort_options,
                        self.null_equals_null,
                    ),
                )
            }),
    {
        self.law_output();
        let keys = self.keys();
        let count = self.streamed_keys.len() as int;
        keys.lemma_streamed_out_rows(self.join_type, count, k);
        keys.lemma_streamed_out_rows(self.join_type, count, later);
        keys.lemma_streamed_out_ordered(self.join_type, count, k, later);
    }
}

impl JoinView {
    /// In the output of a full join of sorted inputs, the buffered rows
    /// that stand beside nulls follow the order of the buffered input; and
    /// between them and the rows that hold a streamed row the keys decide:
    /// the streamed rows before such a row have keys that do not stand
    /// after its key, the streamed rows after it have keys that stand after.
    pub proof fn law_output_key_order(self, k: int, later: int)
        requires
            self.finished(),
            self.keys().sorted(),
            0 <= k < later < self.joined.len(),
        ensures
            self.joined[k].streamed is None && self.joined[later].streamed is None
                ==> self.joined[k].buffered->0 < self.joined[later].buffered->0,
            self.joined[k].streamed is None && self.joined[later].streamed is Some
                ==> self.keys().order(self.joined[later].streamed->0, self.joined[k].buffered->0)
                == Some(KeyOrder::Greater),
            self.joined[k].streamed is Some && self.joined[later].streamed is None ==> not_after(
                self.keys().order(self.joined[k].streamed->0, self.joined[later].buffered->0),
            ),
    {
        self.law_output();
        if self.joined[k].streamed is None && self.joined[later].streamed is None {
            lemma_part_spot(self.joined, k, later);
            let part = buffered_part(self.joined);
            let (t, u) = choose|t: int, u: int|
                0 <= t < u < part.len() && part[t] == self.joined[k] && part[u]
                    == self.joined[later];
            lemma_buffered_out_ordered(self.keys(), self.buffered_keys.len() as int, t, u);
        }
    }
}

/// Two rows of a list of output rows that hold no streamed row stand in
/// the same order in the part of the list that holds such rows.
pub proof fn lemma_part_spot(rows: Seq<JoinedRow>, k: int, later: int)
    requires
        0 <= k < later < rows.len(),
        rows[k].streamed is None,
        rows[later].streamed is None,
    ensures
        exists|t: int, u: int|
            0 <= t < u < buffered_part(rows).len() && buffered_part(rows)[t] == rows[k]
                && buffered_part(rows)[u] == rows[later],
    decreases rows.len(),
{
    let rest = rows.drop_last();
    let part = buffered_part(rows);
    if later < rows.len() - 1 {
        lemma_part_spot(rest, k, later);
        let (t, u) = choose|t: int, u: int|
            0 <= t < u < buffered_part(rest).len() && buffered_part(rest)[t] == rest[k]
                && buffered_part(rest)[u] == rest[later];
        assert(part[t] == rows[k] && part[u] == rows[later]);
    } else {
        lemma_part_holds(rest, k);
        let t = choose|t: int| 0 <= t < buffered_part(rest).len() && buffered_part(rest)[t] == rest[k];
        let u = part.len() - 1;
        assert(part[t] == rows[k] && part[u] == rows[later]);
    }
}

/// Two joins of the same sorted inputs that differ in the size of their
/// output batches alone put out the same rows in the same order.
pub proof fn law_batch_size(one: JoinView, other: JoinView)
    requires
        one.finished(),
        other.finished(),
        one.keys() == other.keys(),
        one.keys().sorted(),
        one.join_type == other.join_type,
        one.streamed_rows == other.streamed_rows,
        one.buffered_rows == other.buffered_rows,
        one.streamed_width == other.streamed_width,
        one.buffered_width == other.buffered_width,
    ensures
        one.joined == other.joined,
        one.emitted == other.emitted,
{
    one.law_output();
    other.law_output();
    lemma_merge_unique(one.keys(), one.join_type, one.joined, other.joined);
}

} // verus!
