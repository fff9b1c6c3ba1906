//! The mathematical model of a join: its kinds, the rows it decides to put
//! out, and what those rows hold.

use crate::batch::{null_row, Row};
use vstd::prelude::*;

verus! {

/// The kind of join.
#[derive(Clone, Copy, Debug, PartialEq, Eq, Structural)]
pub enum JoinType {
    /// Only the pairs of rows with equal keys.
    Inner,
    /// The pairs, and each left row without a partner beside nulls.
    Left,
    /// The pairs, and each right row without a partner beside nulls.
    Right,
    /// The pairs, and each row of either input without a partner beside nulls.
    Full,
    /// Each left row that has a partner, once.
    Semi,
    /// Each left row that has no partner.
    Anti,
}

impl JoinType {
    /// Whether the right input is the streamed one: so for `Right`, while
    /// every other kind streams the left input.
    pub open spec fn streams_right(self) -> bool {
        self == JoinType::Right
    }

    /// Whether the output has the columns of the streamed input only.
    pub open spec fn streamed_columns_only(self) -> bool {
        self == JoinType::Semi || self == JoinType::Anti
    }
}

/// One row that the join has decided to put out: the streamed row and the
/// buffered row that make it, each by its position in its input; `None`
/// where that side is filled with nulls.
pub struct JoinedRow {
    pub streamed: Option<int>,
    pub buffered: Option<int>,
}

/// What an output row holds. The columns of the streamed and of the buffered
/// row stand side by side, the left input's first; a side without a row is
/// as many nulls as that input has columns. A semi or anti join puts out the
/// streamed columns alone.
pub open spec fn joined_row(
    join_type: JoinType,
    streamed_rows: Seq<Row>,
    buffered_rows: Seq<Row>,
    streamed_width: nat,
    buffered_width: nat,
    row: JoinedRow,
) -> Row {
    let streamed = match row.streamed {
        Some(i) => streamed_rows[i],
        None => null_row(streamed_width),
    };
    let buffered = match row.buffered {
        Some(j) => buffered_rows[j],
        None => null_row(buffered_width),
    };
    if join_type.streamed_columns_only() {
        streamed
    } else if join_type.streams_right() {
        buffered + streamed
    } else {
        streamed + buffered
    }
}

/// What a list of output rows holds, row by row.
pub open spec fn joined_rows(
    join_type: JoinType,
    streamed_rows: Seq<Row>,
    buffered_rows: Seq<Row>,
    streamed_width: nat,
    buffered_width: nat,
    rows: Seq<JoinedRow>,
) -> Seq<Row> {
    Seq::new(
        rows.len(),
        |k: int|
            joined_row(
                join_type,
                streamed_rows,
                buffered_rows,
                streamed_width,
                buffered_width,
                rows[k],
            ),
    )
}

} // verus!
