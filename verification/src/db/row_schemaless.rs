//! The table of a schemaless row store.
//!
//! A table is a handle on a record log and an index snapshot that live on
//! disk. The handle keeps the indexes, the next row id and the columns seen
//! so far. It never touches the disk: the caller hands in the bytes of the
//! log where an operation reads it, and gets back the bytes to write
//! where an operation changes what is stored.

use vstd::prelude::*;
use crate::db::index::{
    emptied, index_key, indexes_of_listing, recorded, snapshot_bytes, snapshot_listing,
    to_index_key, with_row_id, Index, IndexSet,
};
use crate::db::log::{
    count_frames, encode_frame, frame, frame_ranges, frames, read_record, records,
};
use crate::db::codec::{encode_columns, parse_row};
use crate::db::query_engine::{execute_query, satisfies};
use crate::db::row::Row;
use crate::db::{DBValue, DBValueType, FilterEntity, FilterModel, ValueModel};
use crate::text::{join3, str_eq};

verus! {

broadcast use vstd::std_specs::hash::group_hash_axioms;

/// Where a table keeps its files.
#[derive(Debug)]
pub struct Settings {
    pub base_path: String,
}

impl Clone for Settings {
    fn clone(&self) -> (r: Self)
        ensures
            r.base_path@ == self.base_path@,
    {
        Settings { base_path: self.base_path.clone() }
    }
}

/// The columns seen so far, each with the type of a value seen in it.
#[derive(Debug)]
pub struct KnownColumns {
    entries: Vec<(String, DBValueType)>,
}

impl View for KnownColumns {
    type V = Set<(Seq<char>, DBValueType)>;

    /// The pairs of column name and type that were seen.
    closed spec fn view(&self) -> Set<(Seq<char>, DBValueType)> {
        Set::new(
            |p: (Seq<char>, DBValueType)|
                exists|i: int|
                    0 <= i < self.entries.len() && self.entries[i].0@ == p.0 && self.entries[i].1
                        == p.1,
        )
    }
}

impl KnownColumns {
    /// No column seen.
    pub fn new() -> (known: Self)
        ensures
            known@ == Set::<(Seq<char>, DBValueType)>::empty(),
    {
        let known = KnownColumns { entries: Vec::new() };
        assert(known@ =~= Set::<(Seq<char>, DBValueType)>::empty());
        known
    }

    /// True when the column was seen with that type.
    pub fn contains(&self, item: &(String, DBValueType)) -> (b: bool)
        ensures
            b == self@.contains((item.0@, item.1)),
    {
        let mut i: usize = 0;
        while i < self.entries.len()
            invariant
                forall|j: int|
                    0 <= j < i && j < self.entries.len() ==> !(self.entries[j].0@ == item.0@
                        && self.entries[j].1 == item.1),
            decreases self.entries.len() - i,
        {
            if str_eq(self.entries[i].0.as_str(), item.0.as_str()) && self.entries[i].1 == item.1 {
                return true;
            }
            i += 1;
        }
        false
    }

    /// Notes that the column was seen with that type.
    pub fn insert(&mut self, name: &str, kind: DBValueType)
        ensures
            final(self)@ == old(self)@.insert((name@, kind)),
    {
        let item = (name.to_owned(), kind);
        if !self.contains(&item) {
            self.entries.push(item);
            proof {
                let n = old(self).entries.len() as int;
                assert forall|p: (Seq<char>, DBValueType)|
                    old(self)@.insert((name@, kind)).contains(p) implies self@.contains(p) by {
                    if p == (name@, kind) {
                        assert(self.entries[n].0@ == p.0 && self.entries[n].1 == p.1);
                    } else {
                        let i = choose|i: int|
                            0 <= i < old(self).entries.len() && old(self).entries[i].0@ == p.0
                                && old(self).entries[i].1 == p.1;
                        assert(self.entries[i].0@ == p.0 && self.entries[i].1 == p.1);
                    }
                }
                assert forall|p: (Seq<char>, DBValueType)| self@.contains(p) implies old(self)@.insert((name@, kind)).contains(p) by {
                    let i = choose|i: int|
                        0 <= i < self.entries.len() && self.entries[i].0@ == p.0
                            && self.entries[i].1 == p.1;
                    if i < n {
                        assert(old(self).entries[i].0@ == p.0 && old(self).entries[i].1 == p.1);
                    }
                }
                assert(self@ =~= old(self)@.insert((name@, kind)));
            }
        } else {
            assert(self@ =~= old(self)@.insert((name@, kind)));
        }
    }
}

/// What a table handle knows.
pub ghost struct TableModel {
    /// The directory that holds the table's files.
    pub base_path: Seq<char>,
    /// The name of the table's primary key, which names its files.
    pub primary_key: Seq<char>,
    /// The pairs of column name and type seen in inserted rows.
    pub known_columns: Set<(Seq<char>, DBValueType)>,
    /// For each indexed column, the row ids by canonical key.
    pub indexes: Map<Seq<char>, Map<Seq<char>, Seq<u64>>>,
    /// The id that the next inserted row gets.
    pub next_row_id: u64,
}

/// The pairs of column name and type that a row shows.
pub open spec fn columns_of(row: Map<Seq<char>, ValueModel>) -> Set<(Seq<char>, DBValueType)> {
    Set::new(|p: (Seq<char>, DBValueType)| row.contains_key(p.0) && row[p.0].vtype() == p.1)
}

/// The index of a column over the records of a log: record `i`, where it
/// is a row that holds the column, puts `i` at the end of the bucket of the
/// key of its cell.
pub open spec fn index_of_records(
    records: Seq<Option<Map<Seq<char>, ValueModel>>>,
    column: Seq<char>,
) -> Map<Seq<char>, Seq<u64>>
    decreases records.len(),
{
    if records.len() == 0 {
        Map::empty()
    } else {
        let before = index_of_records(records.drop_last(), column);
        match records.last() {
            Some(row) => if row.contains_key(column) {
                with_row_id(before, index_key(row[column]), (records.len() - 1) as u64)
            } else {
                before
            },
            None => before,
        }
    }
}

/// The rows among the records that satisfy the filter, in log order.
pub open spec fn selected(
    records: Seq<Option<Map<Seq<char>, ValueModel>>>,
    filter: FilterModel,
) -> Seq<Map<Seq<char>, ValueModel>>
    decreases records.len(),
{
    if records.len() == 0 {
        Seq::empty()
    } else {
        let before = selected(records.drop_last(), filter);
        match records.last() {
            Some(row) => if satisfies(filter, row) {
                before.push(row)
            } else {
                before
            },
            None => before,
        }
    }
}

/// The rows among the records whose row id is one of `ids` and that
/// satisfy the filter, in log order.
pub open spec fn selected_among(
    records: Seq<Option<Map<Seq<char>, ValueModel>>>,
    ids: Seq<u64>,
    filter: FilterModel,
) -> Seq<Map<Seq<char>, ValueModel>>
    decreases records.len(),
{
    if records.len() == 0 {
        Seq::empty()
    } else {
        let before = selected_among(records.drop_last(), ids, filter);
        match records.last() {
            Some(row) => if ids.contains((records.len() - 1) as u64) && satisfies(filter, row) {
                before.push(row)
            } else {
                before
            },
            None => before,
        }
    }
}

/// The column and the literal of a filter that has exactly the shape
/// `Equals(Column, Value)` or `Equals(Value, Column)`.
pub open spec fn equality_shape(filter: FilterModel) -> Option<(Seq<char>, ValueModel)> {
    match filter {
        FilterModel::Equals(l, r) => match (*l, *r) {
            (FilterModel::Column(column), FilterModel::Value(value)) => Some((column, value)),
            (FilterModel::Value(value), FilterModel::Column(column)) => Some((column, value)),
            _ => None,
        },
        _ => None,
    }
}

/// The candidate row ids that the indexes give for a filter: the bucket of
/// the literal's key, when the filter has the equality shape, its column
/// is indexed and the key has a bucket.
pub open spec fn index_lookup(
    indexes: Map<Seq<char>, Map<Seq<char>, Seq<u64>>>,
    filter: FilterModel,
) -> Option<Seq<u64>> {
    match equality_shape(filter) {
        Some((column, value)) => if indexes.contains_key(column) && indexes[column].contains_key(
            index_key(value),
        ) {
            Some(indexes[column][index_key(value)])
        } else {
            None
        },
        None => None,
    }
}

/// What a query returns: where the indexes give candidates, the candidates
/// that satisfy the filter; otherwise every row that satisfies it.
pub open spec fn query_result(
    indexes: Map<Seq<char>, Map<Seq<char>, Seq<u64>>>,
    log: Seq<u8>,
    filter: FilterModel,
) -> Seq<Map<Seq<char>, ValueModel>> {
    match index_lookup(indexes, filter) {
        Some(ids) => selected_among(records(log), ids, filter),
        None => selected(records(log), filter),
    }
}

/// The rows of a list as maps.
pub open spec fn rows_model(rows: Seq<Row>) -> Seq<Map<Seq<char>, ValueModel>> {
    rows.map_values(|row: Row| row@)
}

/// The table after a row was inserted.
pub open spec fn inserted(table: TableModel, row: Map<Seq<char>, ValueModel>) -> TableModel {
    TableModel {
        known_columns: table.known_columns.union(columns_of(row)),
        indexes: recorded(table.indexes, row, table.next_row_id),
        next_row_id: (table.next_row_id + 1) as u64,
        ..table
    }
}

/// The table after an index on `column` was asked for: a column that has
/// an index keeps it, another gets the index of the log's records.
pub open spec fn with_index(table: TableModel, column: Seq<char>, log: Seq<u8>) -> TableModel {
    if table.indexes.contains_key(column) {
        table
    } else {
        TableModel {
            indexes: table.indexes.insert(column, index_of_records(records(log), column)),
            ..table
        }
    }
}

/// The table without the index on `column`.
pub open spec fn without_index(table: TableModel, column: Seq<char>) -> TableModel {
    TableModel { indexes: table.indexes.remove(column), ..table }
}

/// The table after its rows were erased: the indexes stay but are empty,
/// and row ids start again at 0.
pub open spec fn truncated(table: TableModel) -> TableModel {
    TableModel { indexes: emptied(table.indexes), next_row_id: 0, ..table }
}

/// The table after it was dropped: no index, and row ids start again at 0.
pub open spec fn dropped(table: TableModel) -> TableModel {
    TableModel { indexes: Map::empty(), next_row_id: 0, ..table }
}

/// The indexes that a table starts with: those of the snapshot, where
/// there is one and it can be read, else none.
pub open spec fn loaded(snapshot: Option<Seq<u8>>) -> Map<Seq<char>, Map<Seq<char>, Seq<u64>>> {
    match snapshot {
        Some(bytes) => match snapshot_listing(bytes) {
            Some(listing) => indexes_of_listing(listing),
            None => Map::empty(),
        },
        None => Map::empty(),
    }
}

/// The snapshot that is written after a change: none while no index is
/// defined, else the snapshot of the indexes.
pub open spec fn snapshot_if_indexed(indexes: Map<Seq<char>, Map<Seq<char>, Seq<u64>>>) -> Option<
    Seq<u8>,
> {
    if indexes == Map::<Seq<char>, Map<Seq<char>, Seq<u64>>>::empty() {
        None
    } else {
        snapshot_bytes(indexes)
    }
}

/// The bytes of an optional byte vector.
pub open spec fn bytes_model(bytes: Option<Vec<u8>>) -> Option<Seq<u8>> {
    match bytes {
        Some(b) => Some(b@),
        None => None,
    }
}

/// Why a row was not inserted.
#[derive(Debug, Clone, Copy, PartialEq, Eq, Structural)]
pub enum InsertError {
    /// The encoded row is longer than a frame can announce.
    RowTooLarge,
    /// Every row id has been given out.
    RowIdsExhausted,
}

/// What inserting a row asks the caller to store.
#[derive(Debug)]
pub struct Inserted {
    /// The id given to the row.
    pub row_id: u64,
    /// The frame to append to the log.
    pub frame: Vec<u8>,
    /// The snapshot to write in place of the one on disk, if any.
    pub snapshot: Option<Vec<u8>>,
}

/// A table of schemaless rows.
#[derive(Debug)]
pub struct TableRowSchemaless {
    pub settings: Settings,
    pub primary_key: String,
    pub known_columns: KnownColumns,
    indexes: IndexSet,
    next_row_id: u64,
}

impl View for TableRowSchemaless {
    type V = TableModel;

    closed spec fn view(&self) -> TableModel {
        TableModel {
            base_path: self.settings.base_path@,
            primary_key: self.primary_key@,
            known_columns: self.known_columns@,
            indexes: self.indexes@,
            next_row_id: self.next_row_id,
        }
    }
}

impl TableRowSchemaless {
    /// Well-formedness: the index set is well-formed.
    pub closed spec fn wf(&self) -> bool {
        self.indexes.wf()
    }

    /// Opens a table. `snapshot` is the content of the index snapshot file,
    /// if the file exists; `log` is the content of the log, empty where
    /// there is none yet. The indexes are those of the snapshot, and the
    /// next row id is the number of records in the log.
    pub fn new(pk: String, settings: Settings, snapshot: Option<&[u8]>, log: &[u8]) -> (table: Self)
        ensures
            table.wf(),
            table@.primary_key == pk@,
            table@.base_path == settings.base_path@,
            table@.known_columns == Set::<(Seq<char>, DBValueType)>::empty(),
            table@.indexes == loaded(
                match snapshot {
                    Some(bytes) => Some(bytes@),
                    None => None,
                },
            ),
            table@.next_row_id == frames(log@).len(),
    {
        let mut table = Self {
            settings,
            primary_key: pk,
            known_columns: KnownColumns::new(),
            indexes: IndexSet::new(),
            next_row_id: 0,
        };
        match snapshot {
            Some(bytes) => {
                table.load_indexes(bytes);
            },
            None => {},
        }
        let row_count = table.size(Some(log));
        table.next_row_id = row_count as u64;
        table
    }

    /// The canonical index key of a cell value.
    pub fn value_to_index_key(value: &DBValue) -> (key: String)
        ensures
            key@ == index_key(value@),
    {
        to_index_key(value)
    }

    /// The path of the log file: the base path, a slash, the primary key.
    pub fn log_path(&self) -> (path: String)
        ensures
            path@ == self@.base_path + seq!['/'] + self@.primary_key,
    {
        proof {
            reveal_strlit("/");
        }
        let path = join3(self.settings.base_path.as_str(), "/", self.primary_key.as_str());
        assert("/"@ =~= seq!['/']);
        path
    }

    /// The path of the index snapshot file: the path of the log file
    /// followed by `.idx`.
    pub fn index_path(&self) -> (path: String)
        ensures
            path@ == self@.base_path + seq!['/'] + self@.primary_key + seq![
                '.',
                'i',
                'd',
                'x',
            ],
    {
        proof {
            reveal_strlit(".idx");
        }
        let log_path = self.log_path();
        let path = join3(log_path.as_str(), ".idx", "");
        assert(".idx"@ =~= seq!['.', 'i', 'd', 'x']);
        assert(""@.len() == 0) by {
            reveal_strlit("");
        }
        assert(path@ =~= log_path@ + seq!['.', 'i', 'd', 'x']);
        path
    }

    /// Makes an index on `column` from the records of the log, unless the
    /// column has one. Returns the snapshot to write: none where the column
    /// had an index already.
    pub fn create_index(&mut self, column: &str, log: &[u8]) -> (snapshot: Option<Vec<u8>>)
        requires
            old(self).wf(),
        ensures
            final(self).wf(),
            final(self)@ == with_index(old(self)@, column@, log@),
            bytes_model(snapshot) == (if old(self)@.indexes.contains_key(column@) {
                None
            } else {
                snapshot_bytes(final(self)@.indexes)
            }),
    {
        if self.indexes.contains(column) {
            return None;
        }
        let mut index = Index::new();
        let ranges = frame_ranges(log);
        let ghost all = records(log@);
        let mut row_id: usize = 0;
        assert(all.take(0) =~= Seq::<Option<Map<Seq<char>, ValueModel>>>::empty());
        while row_id < ranges.len()
            invariant
                row_id <= ranges.len(),
                all == records(log@),
                ranges.len() == frames(log@).len(),
                forall|i: int|
                    0 <= i < ranges.len() ==> (#[trigger] ranges[i]).0 <= ranges[i].1 <= log.len()
                        && log@.subrange(ranges[i].0 as int, ranges[i].1 as int) == frames(
                        log@,
                    )[i],
                index.wf(),
                index@ == index_of_records(all.take(row_id as int), column@),
            decreases ranges.len() - row_id,
        {
            let range = ranges[row_id];
            proof {
                assert(all.take(row_id + 1).drop_last() =~= all.take(row_id as int));
                assert(all.take(row_id + 1).last() == parse_row(frames(log@)[row_id as int]));
            }
            match read_record(log, range.0, range.1) {
                Some(row) => {
                    match row.get(column) {
                        Some(value) => {
                            let key = to_index_key(value);
                            index.add(key, row_id as u64);
                        },
                        None => {},
                    }
                },
                None => {},
            }
            row_id += 1;
        }
        proof {
            assert(all.take(row_id as int) =~= all);
        }
        self.indexes.define(column.to_owned(), index);
        self.save_indexes()
    }

    /// Removes the index on `column`, if there is one. Returns the snapshot
    /// to write.
    pub fn drop_index(&mut self, column: &str) -> (snapshot: Option<Vec<u8>>)
        requires
            old(self).wf(),
        ensures
            final(self).wf(),
            final(self)@ == without_index(old(self)@, column@),
            bytes_model(snapshot) == snapshot_bytes(final(self)@.indexes),
    {
        self.indexes.remove(column);
        self.save_indexes()
    }

    /// The indexed columns, each once.
    pub fn list_indexes(&self) -> (columns: Vec<String>)
        requires
            self.wf(),
        ensures
            columns.len() == self@.indexes.dom().len(),
            forall|c: Seq<char>|
                self@.indexes.contains_key(c) <==> columns@.map_values(|name: String| name@).contains(
                    c,
                ),
            columns@.map_values(|name: String| name@).no_duplicates(),
    {
        proof {
            self.indexes.lemma_listing();
        }
        self.indexes.list_names()
    }

    /// The snapshot of the indexes; `None` where it cannot be encoded.
    fn save_indexes(&self) -> (snapshot: Option<Vec<u8>>)
        requires
            self.wf(),
        ensures
            bytes_model(snapshot) == snapshot_bytes(self@.indexes),
    {
        self.indexes.to_snapshot()
    }

    /// Takes the indexes of a snapshot in place of the present ones; bytes
    /// that hold no index set change nothing.
    fn load_indexes(&mut self, snapshot: &[u8])
        requires
            old(self).wf(),
        ensures
            final(self).wf(),
            final(self)@.indexes == (match snapshot_listing(snapshot@) {
                Some(listing) => indexes_of_listing(listing),
                None => old(self)@.indexes,
            }),
            final(self)@.known_columns == old(self)@.known_columns,
            final(self)@.next_row_id == old(self)@.next_row_id,
            final(self)@.base_path == old(self)@.base_path,
            final(self)@.primary_key == old(self)@.primary_key,
    {
        match IndexSet::from_snapshot(snapshot) {
            Some(loaded_indexes) => {
                self.indexes = loaded_indexes;
            },
            None => {},
        }
    }

    /// Inserts a row: notes its columns, gives it the next row id, adds
    /// the id to every index whose column the row holds, and returns the
    /// frame to append to the log and, where an index is defined, the
    /// snapshot to write. A row that cannot be stored changes nothing.
    pub fn insert(&mut self, data: &Row) -> (r: Result<Inserted, InsertError>)
        requires
            old(self).wf(),
            data.wf(),
        ensures
            final(self).wf(),
            match r {
                Ok(stored) => {
                    &&& encode_columns(data.names(), data.cells()).len() <= u32::MAX
                    &&& old(self)@.next_row_id < u64::MAX
                    &&& final(self)@ == inserted(old(self)@, data@)
                    &&& stored.row_id == old(self)@.next_row_id
                    &&& stored.frame@ == frame(encode_columns(data.names(), data.cells()))
                    &&& bytes_model(stored.snapshot) == snapshot_if_indexed(final(self)@.indexes)
                },
                Err(InsertError::RowTooLarge) => {
                    &&& encode_columns(data.names(), data.cells()).len() > u32::MAX
                    &&& final(self)@ == old(self)@
                },
                Err(InsertError::RowIdsExhausted) => {
                    &&& encode_columns(data.names(), data.cells()).len() <= u32::MAX
                    &&& old(self)@.next_row_id == u64::MAX
                    &&& final(self)@ == old(self)@
                },
            },
    {
        let frame = match encode_frame(data) {
            Some(frame) => frame,
            None => {
                return Err(InsertError::RowTooLarge);
            },
        };
        if self.next_row_id == u64::MAX {
            return Err(InsertError::RowIdsExhausted);
        }
        let n = data.len();
        let mut i: usize = 0;
        while i < n
            invariant
                i <= n,
                n == data.names().len(),
                data.wf(),
                self.indexes == old(self).indexes,
                self.next_row_id == old(self).next_row_id,
                self.settings == old(self).settings,
                self.primary_key == old(self).primary_key,
                forall|p: (Seq<char>, DBValueType)|
                    self.known_columns@.contains(p) <==> old(self).known_columns@.contains(p) || (
                    exists|j: int|
                        0 <= j < i && data.names()[j] == p.0 && data.cells()[j].vtype() == p.1),
            decreases n - i,
        {
            let ghost before = self.known_columns@;
            self.known_columns.insert(data.name_at(i).as_str(), data.value_at(i).vtype());
            proof {
                let added = (data.names()[i as int], data.cells()[i as int].vtype());
                assert forall|p: (Seq<char>, DBValueType)|
                    self.known_columns@.contains(p) <==> old(self).known_columns@.contains(p) || (
                    exists|j: int|
                        0 <= j < i + 1 && data.names()[j] == p.0 && data.cells()[j].vtype()
                            == p.1) by {
                    if p == added {
                        assert(data.names()[i as int] == p.0 && data.cells()[i as int].vtype()
                            == p.1);
                    }
                    if before.contains(p) && !old(self).known_columns@.contains(p) {
                        let j = choose|j: int|
                            0 <= j < i && data.names()[j] == p.0 && data.cells()[j].vtype()
                                == p.1;
                        assert(0 <= j < i + 1);
                    }
                }
            }
            i += 1;
        }
        proof {
            data.lemma_wf();
            let want = old(self).known_columns@.union(columns_of(data@));
            assert forall|p: (Seq<char>, DBValueType)| self.known_columns@.contains(p)
                <==> want.contains(p) by {
                if columns_of(data@).contains(p) {
                    let j = data.names().index_of(p.0);
                    assert(data.names().contains(p.0));
                    data.lemma_entry(j);
                }
                if exists|j: int|
                    0 <= j < n && data.names()[j] == p.0 && data.cells()[j].vtype() == p.1 {
                    let j = choose|j: int|
                        0 <= j < n && data.names()[j] == p.0 && data.cells()[j].vtype() == p.1;
                    data.lemma_entry(j);
                }
            }
            assert(self.known_columns@ =~= want);
        }
        let row_id = self.next_row_id;
        self.next_row_id = self.next_row_id + 1;
        self.indexes.record(data, row_id);
        let snapshot = if !self.indexes.is_empty() {
            self.save_indexes()
        } else {
            None
        };
        Ok(Inserted { row_id, frame, snapshot })
    }

    /// Drops the table: forgets every index and starts row ids again at 0.
    /// The caller removes the log and the snapshot, and does not use the
    /// handle again.
    pub fn drop(&mut self)
        ensures
            final(self).wf(),
            final(self)@ == dropped(old(self)@),
    {
        self.indexes.clear();
        self.next_row_id = 0;
    }

    /// Erases the rows: empties every index, keeps the indexes themselves,
    /// and starts row ids again at 0. The caller puts an empty log in place
    /// of the old one and writes the returned snapshot, if any.
    pub fn truncate(&mut self) -> (snapshot: Option<Vec<u8>>)
        requires
            old(self).wf(),
        ensures
            final(self).wf(),
            final(self)@ == truncated(old(self)@),
            bytes_model(snapshot) == snapshot_if_indexed(final(self)@.indexes),
    {
        self.indexes.clear_buckets();
        self.next_row_id = 0;
        if !self.indexes.is_empty() {
            self.save_indexes()
        } else {
            None
        }
    }

    /// The rows of the log that satisfy the query. Where the query has the
    /// shape of an equality between a column and a literal, the column is
    /// indexed and the literal's key has a bucket, only the rows of that
    /// bucket are read, and each is still tested against the query;
    /// otherwise every record is read.
    pub fn query(&self, query: FilterEntity, log: &[u8]) -> (rows: Vec<Row>)
        requires
            self.wf(),
        ensures
            rows_model(rows@) == query_result(self@.indexes, log@, query@),
            forall|i: int| 0 <= i < rows.len() ==> (#[trigger] rows[i]).wf(),
    {
        match self.try_use_index(&query) {
            Some((_column, _value, row_ids)) => Self::query_by_row_ids(log, &row_ids, &query),
            None => Self::query_full_scan(log, query),
        }
    }

    /// The column, the literal and the candidate row ids, where the indexes
    /// can answer the query.
    fn try_use_index(&self, query: &FilterEntity) -> (r: Option<(String, DBValue, Vec<u64>)>)
        requires
            self.wf(),
        ensures
            match r {
                Some((column, value, row_ids)) => index_lookup(self@.indexes, query@) == Some(
                    row_ids@,
                ) && equality_shape(query@) == Some((column@, value@)),
                None => index_lookup(self@.indexes, query@) is None,
            },
    {
        if let FilterEntity::Equals(left, right) = query {
            assert(query@ == FilterModel::Equals(Box::new((**left)@), Box::new((**right)@)));
            match (&**left, &**right) {
                (FilterEntity::Column(col), FilterEntity::Value(val)) => {
                    assert((**left)@ == FilterModel::Column(col@));
                    assert((**right)@ == FilterModel::Value(val@));
                    return self.lookup(col, val);
                },
                (FilterEntity::Value(val), FilterEntity::Column(col)) => {
                    assert((**left)@ == FilterModel::Value(val@));
                    assert((**right)@ == FilterModel::Column(col@));
                    return self.lookup(col, val);
                },
                _ => {},
            }
        }
        None
    }

    /// The bucket of the literal's key in the index of the column.
    fn lookup(&self, col: &String, val: &DBValue) -> (r: Option<(String, DBValue, Vec<u64>)>)
        requires
            self.wf(),
        ensures
            match r {
                Some((column, value, row_ids)) => self@.indexes.contains_key(col@)
                    && self@.indexes[col@].contains_key(index_key(val@)) && row_ids@
                    == self@.indexes[col@][index_key(val@)] && column@ == col@ && value@ == val@,
                None => !(self@.indexes.contains_key(col@) && self@.indexes[col@].contains_key(
                    index_key(val@),
                )),
            },
    {
        if let Some(index) = self.indexes.get(col.as_str()) {
            let key = to_index_key(val);
            if let Some(row_ids) = index.get(key.as_str()) {
                let ids = row_ids.clone();
                assert(ids@ =~= row_ids@);
                return Some((col.clone(), val.clone(), ids));
            }
        }
        None
    }

    /// The rows with one of the given ids that satisfy the query.
    fn query_by_row_ids(log: &[u8], row_ids: &Vec<u64>, query: &FilterEntity) -> (result: Vec<Row>)
        ensures
            rows_model(result@) == selected_among(records(log@), row_ids@, query@),
            forall|i: int| 0 <= i < result.len() ==> (#[trigger] result[i]).wf(),
    {
        let mut result: Vec<Row> = Vec::new();
        let mut row_id_set: std::collections::HashSet<u64> = std::collections::HashSet::new();
        let mut k: usize = 0;
        while k < row_ids.len()
            invariant
                k <= row_ids.len(),
                forall|id: u64|
                    row_id_set@.contains(id) <==> exists|j: int| 0 <= j < k && row_ids[j] == id,
            decreases row_ids.len() - k,
        {
            let ghost before = row_id_set@;
            row_id_set.insert(row_ids[k]);
            proof {
                assert forall|id: u64|
                    row_id_set@.contains(id) <==> exists|j: int|
                        0 <= j < k + 1 && row_ids[j] == id by {
                    if id == row_ids[k as int] {
                        assert(row_ids[k as int] == id);
                    }
                    if before.contains(id) {
                        let j = choose|j: int| 0 <= j < k && row_ids[j] == id;
                        assert(0 <= j < k + 1);
                    }
                }
            }
            k += 1;
        }
        proof {
            assert forall|id: u64| row_id_set@.contains(id) <==> row_ids@.contains(id) by {
                if row_ids@.contains(id) {
                    let j = row_ids@.index_of(id);
                    assert(row_ids[j] == id);
                }
            }
        }
        let ranges = frame_ranges(log);
        let ghost all = records(log@);
        let mut current_row_id: usize = 0;
        assert(all.take(0) =~= Seq::<Option<Map<Seq<char>, ValueModel>>>::empty());
        assert(rows_model(result@) =~= Seq::<Map<Seq<char>, ValueModel>>::empty());
        while current_row_id < ranges.len()
            invariant
                current_row_id <= ranges.len(),
                all == records(log@),
                ranges.len() == frames(log@).len(),
                forall|i: int|
                    0 <= i < ranges.len() ==> (#[trigger] ranges[i]).0 <= ranges[i].1 <= log.len()
                        && log@.subrange(ranges[i].0 as int, ranges[i].1 as int) == frames(
                        log@,
                    )[i],
                forall|id: u64| row_id_set@.contains(id) <==> row_ids@.contains(id),
                rows_model(result@) == selected_among(
                    all.take(current_row_id as int),
                    row_ids@,
                    query@,
                ),
                forall|i: int| 0 <= i < result.len() ==> (#[trigger] result[i]).wf(),
            decreases ranges.len() - current_row_id,
        {
            let range = ranges[current_row_id];
            let id: u64 = current_row_id as u64;
            proof {
                assert(all.take(current_row_id + 1).drop_last() =~= all.take(
                    current_row_id as int,
                ));
                assert(all.take(current_row_id + 1).last() == parse_row(
                    frames(log@)[current_row_id as int],
                ));
            }
            if row_id_set.contains(&id) {
                match read_record(log, range.0, range.1) {
                    Some(row) => {
                        if execute_query(query, &row) {
                            let ghost before = result@;
                            result.push(row);
                            assert(rows_model(result@) =~= rows_model(before).push(row@));
                        }
                    },
                    None => {},
                }
            }
            current_row_id += 1;
        }
        proof {
            assert(all.take(current_row_id as int) =~= all);
        }
        result
    }

    /// Every row of the log that satisfies the query.
    fn query_full_scan(log: &[u8], query: FilterEntity) -> (result: Vec<Row>)
        ensures
            rows_model(result@) == selected(records(log@), query@),
            forall|i: int| 0 <= i < result.len() ==> (#[trigger] result[i]).wf(),
    {
        let mut result: Vec<Row> = Vec::new();
        let ranges = frame_ranges(log);
        let ghost all = records(log@);
        let mut i: usize = 0;
        assert(all.take(0) =~= Seq::<Option<Map<Seq<char>, ValueModel>>>::empty());
        assert(rows_model(result@) =~= Seq::<Map<Seq<char>, ValueModel>>::empty());
        while i < ranges.len()
            invariant
                i <= ranges.len(),
                all == records(log@),
                ranges.len() == frames(log@).len(),
                forall|j: int|
                    0 <= j < ranges.len() ==> (#[trigger] ranges[j]).0 <= ranges[j].1 <= log.len()
                        && log@.subrange(ranges[j].0 as int, ranges[j].1 as int) == frames(
                        log@,
                    )[j],
                rows_model(result@) == selected(all.take(i as int), query@),
                forall|j: int| 0 <= j < result.len() ==> (#[trigger] result[j]).wf(),
            decreases ranges.len() - i,
        {
            let range = ranges[i];
            proof {
                assert(all.take(i + 1).drop_last() =~= all.take(i as int));
                assert(all.take(i + 1).last() == parse_row(frames(log@)[i as int]));
            }
            match read_record(log, range.0, range.1) {
                Some(row) => {
                    if execute_query(&query, &row) {
                        let ghost before = result@;
                        result.push(row);
                        assert(rows_model(result@) =~= rows_model(before).push(row@));
                    }
                },
                None => {},
            }
            i += 1;
        }
        proof {
            assert(all.take(i as int) =~= all);
        }
        result
    }

    /// True when there is no log file, or the log holds no byte. Records
    /// are not counted.
    pub fn is_empty(&self, log: Option<&[u8]>) -> (b: bool)
        ensures
            b == match log {
                Some(bytes) => bytes@.len() == 0,
                None => true,
            },
    {
        match log {
            Some(bytes) => bytes.len() == 0,
            None => true,
        }
    }

    /// The number of records in the log; 0 when there is no log file.
    pub fn size(&self, log: Option<&[u8]>) -> (count: usize)
        ensures
            count == match log {
                Some(bytes) => frames(bytes@).len(),
                None => 0,
            },
    {
        match log {
            Some(bytes) => count_frames(bytes),
            None => 0,
        }
    }
}

} // verus!
