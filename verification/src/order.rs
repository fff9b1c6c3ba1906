//! Laws of the order of join keys: what the join may rely on when it merges
//! two inputs that are sorted by it.

use crate::key::{
    bytes_order_from, cell_order, key_order_from, key_same_from, value_order, KeyCell, KeyOrder,
    KeyRow, KeyType, Scalar, SortOptions,
};
use vstd::prelude::*;

verus! {

/// Whether the order puts the left key no later than the right one.
pub open spec fn not_after(o: Option<KeyOrder>) -> bool {
    o == Some(KeyOrder::Less) || o == Some(KeyOrder::Equal)
}

/// Two byte strings that agree from some position on, and before it, are the same.
pub proof fn lemma_bytes_order_from_equal(a: Seq<u8>, b: Seq<u8>, from: int)
    requires
        0 <= from,
        from <= a.len(),
        from <= b.len(),
        forall|i: int| 0 <= i < from ==> a[i] == b[i],
    ensures
        bytes_order_from(a, b, from) == KeyOrder::Equal <==> a =~= b,
    decreases a.len() - from,
{
    if from < a.len() && from < b.len() && a[from] == b[from] {
        lemma_bytes_order_from_equal(a, b, from + 1);
    }
}

/// Comparing two byte strings the other way round gives the opposite order.
pub proof fn lemma_bytes_order_from_flip(a: Seq<u8>, b: Seq<u8>, from: int)
    requires
        0 <= from,
    ensures
        bytes_order_from(b, a, from) == bytes_order_from(a, b, from).reversed(),
    decreases a.len() - from,
{
    if from < a.len() && from < b.len() && a[from] == b[from] {
        lemma_bytes_order_from_flip(a, b, from + 1);
    }
}

/// The order of byte strings is transitive.
pub proof fn lemma_bytes_order_from_trans(a: Seq<u8>, b: Seq<u8>, c: Seq<u8>, from: int)
    requires
        0 <= from,
        bytes_order_from(a, b, from) != KeyOrder::Greater,
        bytes_order_from(b, c, from) != KeyOrder::Greater,
    ensures
        bytes_order_from(a, c, from) != KeyOrder::Greater,
        bytes_order_from(a, b, from) == KeyOrder::Less || bytes_order_from(b, c, from)
            == KeyOrder::Less ==> bytes_order_from(a, c, from) == KeyOrder::Less,
    decreases a.len() - from,
{
    if from < a.len() && from < b.len() && from < c.len() && a[from] == b[from] && b[from]
        == c[from] {
        lemma_bytes_order_from_trans(a, b, c, from + 1);
    }
}

/// Two values are `Equal` exactly when they are the same value.
pub proof fn lemma_value_order_equal(a: Scalar, b: Scalar)
    ensures
        value_order(a, b) == KeyOrder::Equal <==> a == b,
{
    match (a, b) {
        (Scalar::Text(x), Scalar::Text(y)) => {
            lemma_bytes_order_from_equal(x, y, 0);
        },
        _ => {},
    }
}

/// Comparing two values the other way round gives the opposite order.
pub proof fn lemma_value_order_flip(a: Scalar, b: Scalar)
    ensures
        value_order(b, a) == value_order(a, b).reversed(),
{
    match (a, b) {
        (Scalar::Text(x), Scalar::Text(y)) => {
            lemma_bytes_order_from_flip(x, y, 0);
        },
        _ => {},
    }
}

/// The order of values is transitive.
pub proof fn lemma_value_order_trans(a: Scalar, b: Scalar, c: Scalar)
    requires
        value_order(a, b) != KeyOrder::Greater,
        value_order(b, c) != KeyOrder::Greater,
    ensures
        value_order(a, c) != KeyOrder::Greater,
        value_order(a, b) == KeyOrder::Less || value_order(b, c) == KeyOrder::Less ==> value_order(
            a,
            c,
        ) == KeyOrder::Less,
{
    match (a, b, c) {
        (Scalar::Text(x), Scalar::Text(y), Scalar::Text(z)) => {
            lemma_bytes_order_from_trans(x, y, z, 0);
        },
        _ => {},
    }
}

/// Cells that are `Equal` stand alike to every other cell.
pub proof fn lemma_cell_order_equal(
    a: KeyCell,
    b: KeyCell,
    c: KeyCell,
    options: SortOptions,
    null_equals_null: bool,
)
    requires
        cell_order(a, b, options, null_equals_null) == KeyOrder::Equal,
    ensures
        cell_order(a, c, options, null_equals_null) == cell_order(b, c, options, null_equals_null),
        cell_order(c, a, options, null_equals_null) == cell_order(c, b, options, null_equals_null),
{
    if a is Some && b is Some {
        lemma_value_order_equal(a->0, b->0);
    }
}

/// Comparing two cells the other way round gives the opposite order, unless both are null.
pub proof fn lemma_cell_order_flip(a: KeyCell, b: KeyCell, options: SortOptions, null_equals_null: bool)
    requires
        a is Some || b is Some,
    ensures
        cell_order(b, a, options, null_equals_null) == cell_order(
            a,
            b,
            options,
            null_equals_null,
        ).reversed(),
{
    if a is Some && b is Some {
        lemma_value_order_flip(a->0, b->0);
    }
}

/// A cell that is not after a second one, which is before a third, is before the third.
pub proof fn lemma_cell_order_before(
    a: KeyCell,
    b: KeyCell,
    c: KeyCell,
    options: SortOptions,
    null_equals_null: bool,
)
    requires
        cell_order(a, b, options, null_equals_null) != KeyOrder::Greater,
        cell_order(b, c, options, null_equals_null) != KeyOrder::Greater,
    ensures
        cell_order(a, c, options, null_equals_null) != KeyOrder::Greater,
        cell_order(a, b, options, null_equals_null) == KeyOrder::Less || cell_order(
            b,
            c,
            options,
            null_equals_null,
        ) == KeyOrder::Less ==> cell_order(a, c, options, null_equals_null) == KeyOrder::Less,
{
    if a is Some && b is Some && c is Some {
        if options.descending {
            lemma_value_order_flip(a->0, b->0);
            lemma_value_order_flip(b->0, c->0);
            lemma_value_order_flip(a->0, c->0);
            lemma_value_order_trans(c->0, b->0, a->0);
        } else {
            lemma_value_order_trans(a->0, b->0, c->0);
        }
    }
}

/// A cell that is not before a second one, from which a third is not
/// before the first, is after what the first is after.
pub proof fn lemma_cell_order_after(
    a: KeyCell,
    b: KeyCell,
    c: KeyCell,
    options: SortOptions,
    null_equals_null: bool,
)
    requires
        cell_order(a, b, options, null_equals_null) != KeyOrder::Greater,
        cell_order(a, c, options, null_equals_null) == KeyOrder::Greater,
    ensures
        cell_order(b, c, options, null_equals_null) == KeyOrder::Greater,
{
    if a is Some && b is Some && c is Some {
        lemma_value_order_flip(a->0, b->0);
        lemma_value_order_flip(a->0, c->0);
        lemma_value_order_flip(c->0, b->0);
        if options.descending {
            lemma_value_order_trans(b->0, a->0, c->0);
        } else {
            lemma_value_order_trans(c->0, a->0, b->0);
        }
    }
}

/// Whether the keys have a cell for each of the `columns` key columns, with
/// the sort options and the element types.
pub open spec fn keys_fit(
    types: Seq<KeyType>,
    options: Seq<SortOptions>,
    a: KeyRow,
    b: KeyRow,
    c: KeyRow,
) -> bool {
    &&& types.len() == options.len()
    &&& a.len() == types.len()
    &&& b.len() == types.len()
    &&& c.len() == types.len()
}

/// With supported types alone, every comparison of keys has a result.
pub proof fn lemma_key_order_some(
    types: Seq<KeyType>,
    options: Seq<SortOptions>,
    null_equals_null: bool,
    a: KeyRow,
    b: KeyRow,
    from: int,
)
    requires
        keys_fit(types, options, a, b, b),
        forall|k: int| 0 <= k < types.len() ==> (#[trigger] types[k]).supported(),
        0 <= from,
    ensures
        key_order_from(types, a, b, options, null_equals_null, from) is Some,
        key_same_from(types, a, b, from) is Some,
    decreases types.len() - from,
{
    if from < types.len() {
        lemma_key_order_some(types, options, null_equals_null, a, b, from + 1);
    }
}

/// Keys that hold the same values are `Equal`, and stand alike to every other key.
pub proof fn lemma_key_same_order(
    types: Seq<KeyType>,
    options: Seq<SortOptions>,
    null_equals_null: bool,
    a: KeyRow,
    b: KeyRow,
    c: KeyRow,
    from: int,
)
    requires
        types.len() == options.len(),
        a.len() == types.len(),
        b.len() == types.len(),
        c.len() == types.len(),
        0 <= from,
        key_same_from(types, a, b, from) == Some(true),
    ensures
        key_order_from(types, a, b, options, null_equals_null, from) == Some(KeyOrder::Equal),
        key_order_from(types, c, a, options, null_equals_null, from) == key_order_from(
            types,
            c,
            b,
            options,
            null_equals_null,
            from,
        ),
        key_order_from(types, a, c, options, null_equals_null, from) == key_order_from(
            types,
            b,
            c,
            options,
            null_equals_null,
            from,
        ),
    decreases types.len() - from,
{
    if from < types.len() {
        lemma_key_same_order(types, options, null_equals_null, a, b, c, from + 1);
        if types[from] != KeyType::Null {
            lemma_value_order_equal(a[from]->0, b[from]->0);
            if c[from] is Some {
                lemma_value_order_equal(a[from]->0, c[from]->0);
                lemma_value_order_equal(b[from]->0, c[from]->0);
            }
        }
    }
}

/// A key that is not after a second one, which is not after a third, is
/// not after the third; and it is before the third where one of the two
/// is before.
pub proof fn lemma_key_order_before(
    types: Seq<KeyType>,
    options: Seq<SortOptions>,
    null_equals_null: bool,
    a: KeyRow,
    b: KeyRow,
    c: KeyRow,
    from: int,
)
    requires
        keys_fit(types, options, a, b, c),
        0 <= from,
        not_after(key_order_from(types, a, b, options, null_equals_null, from)),
        not_after(key_order_from(types, b, c, options, null_equals_null, from)),
    ensures
        not_after(key_order_from(types, a, c, options, null_equals_null, from)),
        key_order_from(types, a, b, options, null_equals_null, from) == Some(KeyOrder::Less)
            || key_order_from(types, b, c, options, null_equals_null, from) == Some(KeyOrder::Less)
            ==> key_order_from(types, a, c, options, null_equals_null, from) == Some(
            KeyOrder::Less,
        ),
    decreases types.len() - from,
{
    if from < types.len() {
        if types[from] == KeyType::Null {
            lemma_key_order_before(types, options, null_equals_null, a, b, c, from + 1);
        } else {
            let ab = cell_order(a[from], b[from], options[from], null_equals_null);
            let bc = cell_order(b[from], c[from], options[from], null_equals_null);
            lemma_cell_order_before(a[from], b[from], c[from], options[from], null_equals_null);
            if ab == KeyOrder::Equal {
                lemma_cell_order_equal(a[from], b[from], c[from], options[from], null_equals_null);
            }
            if bc == KeyOrder::Equal {
                lemma_cell_order_equal(b[from], c[from], a[from], options[from], null_equals_null);
            }
            if ab == KeyOrder::Equal && bc == KeyOrder::Equal {
                lemma_key_order_before(types, options, null_equals_null, a, b, c, from + 1);
            }
        }
    }
}

/// A key that is after a third one stays after it when replaced by a key
/// that it is not after.
pub proof fn lemma_key_order_after(
    types: Seq<KeyType>,
    options: Seq<SortOptions>,
    null_equals_null: bool,
    a: KeyRow,
    b: KeyRow,
    c: KeyRow,
    from: int,
)
    requires
        keys_fit(types, options, a, b, c),
        0 <= from,
        not_after(key_order_from(types, a, b, options, null_equals_null, from)),
        key_order_from(types, a, c, options, null_equals_null, from) == Some(KeyOrder::Greater),
    ensures
        key_order_from(types, b, c, options, null_equals_null, from) == Some(KeyOrder::Greater),
    decreases types.len() - from,
{
    if from < types.len() {
        if types[from] == KeyType::Null {
            lemma_key_order_after(types, options, null_equals_null, a, b, c, from + 1);
        } else {
            let ab = cell_order(a[from], b[from], options[from], null_equals_null);
            let ac = cell_order(a[from], c[from], options[from], null_equals_null);
            if ab == KeyOrder::Equal {
                lemma_cell_order_equal(a[from], b[from], c[from], options[from], null_equals_null);
            }
            if ac == KeyOrder::Equal {
                lemma_cell_order_equal(a[from], c[from], b[from], options[from], null_equals_null);
                if ab == KeyOrder::Less {
                    if b[from] is Some || c[from] is Some {
                        lemma_cell_order_flip(c[from], b[from], options[from], null_equals_null);
                    }
                }
            }
            if ac == KeyOrder::Greater {
                lemma_cell_order_after(a[from], b[from], c[from], options[from], null_equals_null);
            }
            if ab == KeyOrder::Equal && ac == KeyOrder::Equal {
                lemma_key_order_after(types, options, null_equals_null, a, b, c, from + 1);
            }
        }
    }
}

/// Keys that are `Equal` to one key, one of them a key without a null,
/// hold the same values: of a key that is `Equal` to a key without a null,
/// every cell holds the value of that key's cell.
pub proof fn lemma_key_equal_same(
    types: Seq<KeyType>,
    options: Seq<SortOptions>,
    null_equals_null: bool,
    s: KeyRow,
    h: KeyRow,
    x: KeyRow,
    y: KeyRow,
    from: int,
)
    requires
        keys_fit(types, options, s, h, x),
        y.len() == types.len(),
        0 <= from,
        key_order_from(types, s, h, options, null_equals_null, from) == Some(KeyOrder::Equal),
        key_order_from(types, s, x, options, null_equals_null, from) == Some(KeyOrder::Equal),
        key_order_from(types, s, y, options, null_equals_null, from) == Some(KeyOrder::Equal),
        key_same_from(types, y, y, from) == Some(true),
    ensures
        key_same_from(types, h, x, from) == Some(true),
    decreases types.len() - from,
{
    if from < types.len() {
        lemma_key_equal_same(types, options, null_equals_null, s, h, x, y, from + 1);
        if types[from] != KeyType::Null {
            lemma_value_order_equal(s[from]->0, y[from]->0);
            lemma_value_order_equal(s[from]->0, h[from]->0);
            lemma_value_order_equal(s[from]->0, x[from]->0);
            lemma_value_order_equal(h[from]->0, x[from]->0);
        }
    }
}

/// Two keys that hold the same values hold a value in every column.
pub proof fn lemma_key_same_whole(types: Seq<KeyType>, a: KeyRow, b: KeyRow, from: int)
    requires
        a.len() == b.len(),
        0 <= from,
        key_same_from(types, a, b, from) == Some(true),
    ensures
        key_same_from(types, a, a, from) == Some(true),
        key_same_from(types, b, b, from) == Some(true),
    decreases a.len() - from,
{
    if from < a.len() {
        lemma_key_same_whole(types, a, b, from + 1);
        if types[from] != KeyType::Null {
            lemma_value_order_equal(a[from]->0, a[from]->0);
            lemma_value_order_equal(b[from]->0, b[from]->0);
        }
    }
}

} // verus!
