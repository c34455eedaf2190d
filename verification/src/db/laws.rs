//! What holds of a table and its log across operations.
//!
//! A table handle and a log are consistent when the log is complete frames
//! from its first byte to its last, the next row id is the number of
//! records, and every index is the index of the log's records for its
//! column. Inserting, indexing, dropping an index and truncating keep a
//! consistent pair consistent, and on a consistent pair an index lookup
//! finds what a scan finds.

use vstd::prelude::*;
use crate::db::codec::encode_columns;
use crate::db::index::{emptied, index_key};
use crate::db::log::{frame, frames, lemma_records_append, records, whole};
use crate::db::number::magnitude;
use crate::db::query_engine::{resolve, satisfies};
use crate::db::row::Row;
use crate::db::row_schemaless::{
    dropped, equality_shape, index_lookup, index_of_records, inserted, query_result, selected,
    selected_among, truncated, with_index, without_index, TableModel,
};
use crate::db::{FilterModel, ValueModel};

verus! {

/// True when the table handle describes the log: the log is whole, the
/// next row id is the number of its records, and each index is the index
/// of its records.
pub open spec fn consistent(table: TableModel, log: Seq<u8>) -> bool {
    &&& whole(log)
    &&& table.next_row_id == frames(log).len()
    &&& forall|column: Seq<char>| #[trigger]
        table.indexes.contains_key(column) ==> table.indexes[column] == index_of_records(
            records(log),
            column,
        )
}

/// The record with row id `i` is a row that holds `column`, and the key of
/// its cell there is `key`.
pub open spec fn holds_key(
    records: Seq<Option<Map<Seq<char>, ValueModel>>>,
    i: int,
    column: Seq<char>,
    key: Seq<char>,
) -> bool {
    &&& 0 <= i < records.len()
    &&& records[i] is Some
    &&& records[i]->0.contains_key(column)
    &&& index_key(records[i]->0[column]) == key
}

/// Index completeness. In the index of a column over the records of a log,
/// the bucket of a key holds exactly the ids of the rows whose cell in that
/// column has that key: every such row id is in the bucket, and every id in
/// a bucket is the id of such a row. Within a bucket the ids ascend.
pub proof fn lemma_index_complete(
    records: Seq<Option<Map<Seq<char>, ValueModel>>>,
    column: Seq<char>,
)
    requires
        records.len() <= u64::MAX,
    ensures
        forall|i: int, key: Seq<char>| #[trigger]
            holds_key(records, i, column, key) ==> index_of_records(records, column).contains_key(
                key,
            ) && index_of_records(records, column)[key].contains(i as u64),
        forall|key: Seq<char>, j: int|
            index_of_records(records, column).contains_key(key) && 0 <= j < index_of_records(
                records,
                column,
            )[key].len() ==> holds_key(
                records,
                (#[trigger] index_of_records(records, column)[key][j]) as int,
                column,
                key,
            ),
        forall|key: Seq<char>, j: int, k: int|
            index_of_records(records, column).contains_key(key) && 0 <= j < k < index_of_records(
                records,
                column,
            )[key].len() ==> (#[trigger] index_of_records(records, column)[key][j])
                < #[trigger] index_of_records(records, column)[key][k],
        forall|key: Seq<char>| #[trigger]
            index_of_records(records, column).contains_key(key) ==> index_of_records(
                records,
                column,
            )[key].len() > 0,
    decreases records.len(),
{
    let index = index_of_records(records, column);
    if records.len() > 0 {
        let head = records.drop_last();
        let before = index_of_records(head, column);
        let last = (records.len() - 1) as int;
        lemma_index_complete(head, column);
        assert forall|i: int, key: Seq<char>| #[trigger]
            holds_key(records, i, column, key) implies index.contains_key(key)
            && index[key].contains(i as u64) by {
            if i < last {
                assert(holds_key(head, i, column, key));
                let at = before[key].index_of(i as u64);
                assert(before[key][at] == i as u64);
                if index[key] != before[key] {
                    assert(index[key] == before[key].push(last as u64));
                    assert(index[key][at] == i as u64);
                }
            } else {
                let n = index[key].len() - 1;
                assert(index[key][n] == i as u64);
            }
        }
        assert forall|key: Seq<char>, j: int|
            index.contains_key(key) && 0 <= j < index[key].len() implies holds_key(
            records,
            (#[trigger] index[key][j]) as int,
            column,
            key,
        ) by {
            if before.contains_key(key) && j < before[key].len() {
                assert(index[key][j] == before[key][j]);
                assert(holds_key(head, before[key][j] as int, column, key));
            }
        }
        assert forall|key: Seq<char>, j: int, k: int|
            index.contains_key(key) && 0 <= j < k < index[key].len() implies (
        #[trigger] index[key][j]) < #[trigger] index[key][k] by {
            if before.contains_key(key) && j < before[key].len() {
                assert(index[key][j] == before[key][j]);
                assert(holds_key(head, before[key][j] as int, column, key));
                if k < before[key].len() {
                    assert(index[key][k] == before[key][k]);
                }
            }
        }
    }
}

/// Index completeness of a table. On a consistent table with an index on
/// `column`, the bucket of a key holds exactly the ids of the rows of the
/// log whose cell in that column has that key.
pub proof fn lemma_table_index_complete(table: TableModel, log: Seq<u8>, column: Seq<char>)
    requires
        consistent(table, log),
        table.indexes.contains_key(column),
    ensures
        forall|i: int, key: Seq<char>| #[trigger]
            holds_key(records(log), i, column, key) ==> table.indexes[column].contains_key(key)
                && table.indexes[column][key].contains(i as u64),
        forall|key: Seq<char>, j: int|
            table.indexes[column].contains_key(key) && 0 <= j < table.indexes[column][key].len()
                ==> holds_key(
                records(log),
                (#[trigger] table.indexes[column][key][j]) as int,
                column,
                key,
            ),
{
    assert(records(log).len() == frames(log).len());
    lemma_index_complete(records(log), column);
}

/// A table opened without a snapshot on a whole log is consistent with
/// it.
pub proof fn lemma_opened_consistent(table: TableModel, log: Seq<u8>)
    requires
        whole(log),
        table.indexes == Map::<Seq<char>, Map<Seq<char>, Seq<u64>>>::empty(),
        table.next_row_id == frames(log).len(),
    ensures
        consistent(table, log),
{
}

/// Inserting a row keeps a table and its log consistent: the table after
/// the insert describes the log with the row's frame appended.
pub proof fn lemma_insert_consistent(table: TableModel, log: Seq<u8>, row: Row)
    requires
        consistent(table, log),
        row.wf(),
        encode_columns(row.names(), row.cells()).len() <= u32::MAX,
        table.next_row_id < u64::MAX,
    ensures
        consistent(
            inserted(table, row@),
            log + frame(encode_columns(row.names(), row.cells())),
        ),
        records(log + frame(encode_columns(row.names(), row.cells()))) == records(log).push(
            Some(row@),
        ),
{
    let payload = encode_columns(row.names(), row.cells());
    let after = log + frame(payload);
    lemma_records_append(log, row);
    crate::db::log::lemma_frames_append(log, payload);
    let new_table = inserted(table, row@);
    assert forall|column: Seq<char>| #[trigger]
        new_table.indexes.contains_key(column) implies new_table.indexes[column]
        == index_of_records(records(after), column) by {
        assert(records(after).drop_last() =~= records(log));
        assert(records(log).len() == frames(log).len());
    }
}

/// Making an index keeps a table and its log consistent.
pub proof fn lemma_create_index_consistent(table: TableModel, log: Seq<u8>, column: Seq<char>)
    requires
        consistent(table, log),
    ensures
        consistent(with_index(table, column, log), log),
{
}

/// Dropping an index keeps a table and its log consistent.
pub proof fn lemma_drop_index_consistent(table: TableModel, log: Seq<u8>, column: Seq<char>)
    requires
        consistent(table, log),
    ensures
        consistent(without_index(table, column), log),
{
}

/// Idempotent truncate. A truncated table describes the empty log, which
/// has no record; truncating it once more changes nothing.
pub proof fn lemma_truncate_idempotent(table: TableModel)
    ensures
        truncated(truncated(table)) == truncated(table),
        truncated(table).next_row_id == 0,
        consistent(truncated(table), Seq::empty()),
        frames(Seq::<u8>::empty()).len() == 0,
        records(Seq::<u8>::empty()).len() == 0,
{
    assert(emptied(emptied(table.indexes)) =~= emptied(table.indexes));
    assert(records(Seq::<u8>::empty()) =~= Seq::empty());
}

/// A dropped table describes the empty log.
pub proof fn lemma_drop_consistent(table: TableModel)
    ensures
        consistent(dropped(table), Seq::empty()),
        dropped(table).next_row_id == 0,
{
}

/// The table after the rows were inserted one after the other.
pub open spec fn insert_all(table: TableModel, rows: Seq<Map<Seq<char>, ValueModel>>) -> TableModel
    decreases rows.len(),
{
    if rows.len() == 0 {
        table
    } else {
        inserted(insert_all(table, rows.drop_last()), rows.last())
    }
}

/// Row-id monotonicity. Of `k` rows inserted one after the other, the one
/// at position `i` is inserted into a table whose next row id is the first
/// id plus `i`, and that is the id it gets. On a table that was just
/// truncated, dropped or opened on an empty log the first id is 0, so the
/// ids given are exactly 0 to `k - 1` in insertion order.
pub proof fn lemma_row_ids_sequential(
    table: TableModel,
    rows: Seq<Map<Seq<char>, ValueModel>>,
    i: int,
)
    requires
        0 <= i <= rows.len(),
        table.next_row_id + rows.len() <= u64::MAX,
    ensures
        insert_all(table, rows.take(i)).next_row_id == table.next_row_id + i,
    decreases i,
{
    if i > 0 {
        lemma_row_ids_sequential(table, rows, i - 1);
        assert(rows.take(i).drop_last() =~= rows.take(i - 1));
    }
}

/// True when every row among the records that satisfies the filter holds
/// the column, with a cell whose key is the key of `value`.
pub open spec fn key_finds(
    records: Seq<Option<Map<Seq<char>, ValueModel>>>,
    filter: FilterModel,
    column: Seq<char>,
    value: ValueModel,
) -> bool {
    forall|i: int|
        0 <= i < records.len() && (#[trigger] records[i]) is Some && satisfies(
            filter,
            records[i]->0,
        ) ==> holds_key(records, i, column, index_key(value))
}

/// An equality filter on a literal that is neither null nor a zero finds
/// only rows that hold the column with the literal's key.
pub proof fn lemma_key_finds(
    records: Seq<Option<Map<Seq<char>, ValueModel>>>,
    filter: FilterModel,
    column: Seq<char>,
    value: ValueModel,
)
    requires
        equality_shape(filter) == Some((column, value)),
        !(value is Null),
        value is Number ==> magnitude(value->Number_0) != 0,
    ensures
        key_finds(records, filter, column, value),
{
    assert forall|i: int|
        0 <= i < records.len() && (#[trigger] records[i]) is Some && satisfies(
            filter,
            records[i]->0,
        ) implies holds_key(records, i, column, index_key(value)) by {
        let row = records[i]->0;
        let cell = if row.contains_key(column) {
            row[column]
        } else {
            ValueModel::Null
        };
        match filter {
            FilterModel::Equals(l, r) => {
                assert(resolve(*l, row) is Some && resolve(*r, row) is Some);
                assert(cell.equals(value) || value.equals(cell));
                match (cell, value) {
                    (ValueModel::Number(a), ValueModel::Number(b)) => {
                        assert(a == b) by {
                            assert(a == (a / crate::db::number::SIGN_BIT)
                                * crate::db::number::SIGN_BIT + a % crate::db::number::SIGN_BIT);
                            assert(b == (b / crate::db::number::SIGN_BIT)
                                * crate::db::number::SIGN_BIT + b % crate::db::number::SIGN_BIT);
                        }
                    },
                    _ => {},
                }
            },
            _ => {},
        }
    }
}

/// Among the first `n` records, the candidates of a bucket that satisfy the
/// filter are the rows that satisfy it.
proof fn lemma_among_is_all(
    records: Seq<Option<Map<Seq<char>, ValueModel>>>,
    ids: Seq<u64>,
    filter: FilterModel,
    n: int,
)
    requires
        0 <= n <= records.len(),
        forall|i: int|
            0 <= i < records.len() && (#[trigger] records[i]) is Some && satisfies(
                filter,
                records[i]->0,
            ) ==> ids.contains(i as u64),
    ensures
        selected_among(records.take(n), ids, filter) == selected(records.take(n), filter),
    decreases n,
{
    if n > 0 {
        lemma_among_is_all(records, ids, filter, n - 1);
        assert(records.take(n).drop_last() =~= records.take(n - 1));
        assert(records.take(n).last() == records[n - 1]);
    }
}

/// Index/scan equivalence. On a consistent table, a query for the equality
/// of a column with a literal returns the same rows, in the same order,
/// whether or not the column is indexed, as long as the index can find
/// every row that the filter accepts: where the indexes give candidates,
/// every accepted row holds the column with the literal's key. (By
/// `lemma_key_finds` that holds of every literal that is neither null nor
/// a zero.)
pub proof fn lemma_index_scan_equivalence(
    table: TableModel,
    log: Seq<u8>,
    filter: FilterModel,
    column: Seq<char>,
    value: ValueModel,
)
    requires
        consistent(table, log),
        equality_shape(filter) == Some((column, value)),
        index_lookup(table.indexes, filter) is Some ==> key_finds(
            records(log),
            filter,
            column,
            value,
        ),
    ensures
        query_result(table.indexes, log, filter) == selected(records(log), filter),
        query_result(table.indexes, log, filter) == query_result(Map::empty(), log, filter),
{
    let all = records(log);
    if index_lookup(table.indexes, filter) is Some {
        let ids = index_lookup(table.indexes, filter)->0;
        assert(table.indexes.contains_key(column));
        assert(all.len() == frames(log).len());
        lemma_index_complete(all, column);
        assert forall|i: int|
            0 <= i < all.len() && (#[trigger] all[i]) is Some && satisfies(
                filter,
                all[i]->0,
            ) implies ids.contains(i as u64) by {
            assert(holds_key(all, i, column, index_key(value)));
        }
        lemma_among_is_all(all, ids, filter, all.len() as int);
        assert(all.take(all.len() as int) =~= all);
    }
}

} // verus!
