use mouse_lang::db::row::Row;
use mouse_lang::db::row_schemaless::{InsertError, Settings, TableRowSchemaless};
use mouse_lang::db::{DBValue, DBValueType, FilterEntity};

/// A table with its two files held in memory.
struct Store {
    table: TableRowSchemaless,
    log: Vec<u8>,
    snapshot: Option<Vec<u8>>,
}

impl Store {
    fn open(pk: &str, base_path: &str) -> Store {
        Store::reopen(pk, base_path, Vec::new(), None)
    }

    fn reopen(pk: &str, base_path: &str, log: Vec<u8>, snapshot: Option<Vec<u8>>) -> Store {
        let table = TableRowSchemaless::new(
            pk.to_string(),
            Settings {
                base_path: base_path.to_string(),
            },
            snapshot.as_deref(),
            &log,
        );
        Store {
            table,
            log,
            snapshot,
        }
    }

    fn insert(&mut self, pairs: Vec<(String, DBValue)>) -> u64 {
        let stored = self.table.insert(&Row::from_pairs(pairs)).unwrap();
        self.log.extend_from_slice(&stored.frame);
        if let Some(snapshot) = stored.snapshot {
            self.snapshot = Some(snapshot);
        }
        stored.row_id
    }

    fn truncate(&mut self) {
        if let Some(snapshot) = self.table.truncate() {
            self.snapshot = Some(snapshot);
        }
        self.log.clear();
    }

    fn drop(&mut self) {
        self.table.drop();
        self.log.clear();
        self.snapshot = None;
    }

    fn create_index(&mut self, column: &str) {
        if let Some(snapshot) = self.table.create_index(column, &self.log) {
            self.snapshot = Some(snapshot);
        }
    }

    fn drop_index(&mut self, column: &str) {
        if let Some(snapshot) = self.table.drop_index(column) {
            self.snapshot = Some(snapshot);
        }
    }

    fn query(&self, query: FilterEntity) -> Vec<Row> {
        self.table.query(query, &self.log)
    }

    fn size(&self) -> usize {
        self.table.size(Some(&self.log))
    }

    fn is_empty(&self) -> bool {
        self.table.is_empty(Some(&self.log))
    }
}

fn number(n: f64) -> DBValue {
    DBValue::Number(n.to_bits())
}

fn text(s: &str) -> DBValue {
    DBValue::String(s.to_string())
}

fn column_equals(column: &str, value: DBValue) -> FilterEntity {
    FilterEntity::Equals(
        Box::new(FilterEntity::Column(column.to_string())),
        Box::new(FilterEntity::Value(value)),
    )
}

fn ids_of(rows: &[Row]) -> Vec<f64> {
    rows.iter()
        .map(|row| match row.get("id") {
            Some(DBValue::Number(bits)) => f64::from_bits(*bits),
            _ => panic!("a row without a numeric id"),
        })
        .collect()
}

fn same_rows(a: &[Row], b: &[Row]) -> bool {
    a.len() == b.len() && a.iter().zip(b.iter()).all(|(x, y)| x.equals(y))
}

fn insert_test_data_if_not_exists(store: &mut Store, count: i64) {
    if store.is_empty() {
        for i in 0..count {
            store.insert(vec![
                ("id".to_string(), number(i as f64)),
                ("column1".to_string(), text(&format!("value{}", i))),
                ("column2".to_string(), text(&format!("value{}- {}", i, i))),
                ("date".to_string(), DBValue::Timestamp(1672531200 + i * 86400)),
                ("amount".to_string(), number((i * 2) as f64)),
            ]);
        }
    }
}

#[test]
fn test_insert() {
    let mut table = Store::open("id", "test");
    table.truncate();
    table.insert(vec![
        ("id".to_string(), number(1.0)),
        ("column1".to_string(), text("value1")),
        ("column2".to_string(), text("value2")),
    ]);
    table.insert(vec![
        ("id".to_string(), number(2.0)),
        ("column1".to_string(), text("value3")),
        ("column2".to_string(), text("value4")),
    ]);
    assert!(table
        .table
        .known_columns
        .contains(&("column1".to_string(), DBValueType::String)));
    assert!(table
        .table
        .known_columns
        .contains(&("id".to_string(), DBValueType::Number)));
    assert!(!table
        .table
        .known_columns
        .contains(&("column1".to_string(), DBValueType::Number)));
    table.drop();
}

#[test]
fn test_query() {
    let mut table = Store::open("id", "test_db/test_query");
    table.truncate();
    table.insert(vec![
        ("id".to_string(), number(1.0)),
        ("column1".to_string(), text("value1")),
        ("column2".to_string(), text("value2")),
    ]);
    table.insert(vec![
        ("id".to_string(), number(2.0)),
        ("column1".to_string(), text("value3")),
        ("column2".to_string(), text("value4")),
    ]);
    let query = FilterEntity::And(
        Box::new(column_equals("column1", text("value1"))),
        Box::new(column_equals("column2", text("value2"))),
    );
    let rows = table.query(query);
    assert_eq!(rows.len(), 1);
    assert_eq!(ids_of(&rows), vec![1.0]);
    table.drop();
}

#[test]
fn test_query_performance() {
    let mut table = Store::open("id", "test_db/test_performance");
    insert_test_data_if_not_exists(&mut table, 10_000);
    let query = FilterEntity::Or(
        Box::new(FilterEntity::Or(
            Box::new(column_equals("column1", text("value5000"))),
            Box::new(column_equals("amount", number(2.0))),
        )),
        Box::new(column_equals("column2", text("value2"))),
    );
    let rows = table.query(query);
    assert_eq!(rows.len(), 2);
    assert_eq!(ids_of(&rows), vec![1.0, 5000.0]);
}

#[test]
fn test_fuzzy_search() {
    let mut table = Store::open("id", "test_db/test_fuzzy_search");
    table.truncate();
    insert_test_data_if_not_exists(&mut table, 10_000);
    table.insert(vec![
        ("id".to_string(), number(1.0)),
        ("column1".to_string(), text("Buch")),
        ("column2".to_string(), text("value2")),
    ]);
    let query = FilterEntity::FuzzyMatch(
        Box::new(FilterEntity::Column("column1".to_string())),
        Box::new(FilterEntity::Value(text("buche"))),
        2,
    );
    let rows = table.query(query);
    assert_eq!(rows.len(), 1);
    table.drop();
}

#[test]
fn test_debug_simple_insert_read() {
    let mut table = Store::open("id", "test_db/test_debug");
    table.truncate();
    let num_records = 100000;
    for i in 0..num_records {
        table.insert(vec![
            ("id".to_string(), number(i as f64)),
            ("column1".to_string(), text(&format!("value{}", i))),
            ("column2".to_string(), text(&format!("value{}- {}", i, i))),
            (
                "date".to_string(),
                DBValue::Timestamp(1672531200 + (i as i64) * 86400),
            ),
            ("amount".to_string(), number((i * 2) as f64)),
        ]);
    }
    assert_eq!(table.size(), 100000);
}

#[test]
fn test_create_index() {
    let mut table = Store::open("test_table_idx", "test_db/test_create_index");
    table.truncate();
    for i in 0..10 {
        table.insert(vec![
            ("id".to_string(), number(i as f64)),
            ("name".to_string(), text(&format!("Person{}", i))),
        ]);
    }
    table.create_index("name");
    let indexes = table.table.list_indexes();
    assert!(indexes.contains(&"name".to_string()));
    table.drop();
}

#[test]
fn test_query_with_index() {
    let mut table = Store::open("test_table_idx2", "test_db/test_query_with_index");
    table.truncate();
    for i in 0..20 {
        table.insert(vec![
            ("id".to_string(), number(i as f64)),
            (
                "status".to_string(),
                text(if i % 2 == 0 { "active" } else { "inactive" }),
            ),
        ]);
    }
    table.create_index("status");
    let result = table.query(column_equals("status", text("active")));
    assert_eq!(result.len(), 10);
    table.drop();
}

#[test]
fn test_index_persistence() {
    let (log, snapshot) = {
        let mut table = Store::open("test_table_persist", "test_db/test_index_persistence");
        table.truncate();
        for i in 0..5 {
            table.insert(vec![
                ("id".to_string(), number(i as f64)),
                ("category".to_string(), text(&format!("cat{}", i % 3))),
            ]);
        }
        table.create_index("category");
        (table.log, table.snapshot)
    };
    assert!(snapshot.is_some());
    let table = Store::reopen(
        "test_table_persist",
        "test_db/test_index_persistence",
        log,
        snapshot,
    );
    let indexes = table.table.list_indexes();
    assert!(indexes.contains(&"category".to_string()));
    let result = table.query(column_equals("category", text("cat1")));
    assert_eq!(result.len(), 2);
    assert_eq!(ids_of(&result), vec![1.0, 4.0]);
}

#[test]
fn test_drop_index() {
    let mut table = Store::open("test_table_drop_idx", "test_db/test_drop_index");
    table.truncate();
    for i in 0..5 {
        table.insert(vec![
            ("id".to_string(), number(i as f64)),
            ("field".to_string(), text(&format!("value{}", i))),
        ]);
    }
    table.create_index("field");
    assert!(table.table.list_indexes().contains(&"field".to_string()));
    table.drop_index("field");
    assert!(!table.table.list_indexes().contains(&"field".to_string()));
    let result = table.query(column_equals("field", text("value2")));
    assert_eq!(result.len(), 1);
    table.drop();
}

#[test]
fn test_index_performance() {
    let mut table = Store::open("test_table_perf", "test_db/test_index_performance");
    table.truncate();
    for i in 0..1000 {
        table.insert(vec![
            ("id".to_string(), number(i as f64)),
            ("email".to_string(), text(&format!("user{}@example.com", i))),
        ]);
    }
    let query = column_equals("email", text("user500@example.com"));
    let result_no_index = table.query(query.clone());
    table.create_index("email");
    let result_with_index = table.query(query);
    assert_eq!(result_no_index.len(), 1);
    assert_eq!(result_with_index.len(), 1);
    assert!(same_rows(&result_no_index, &result_with_index));
    table.drop();
}

#[test]
fn test_index_with_null_values() {
    let mut table = Store::open("test_table_null", "test_db/test_index_null");
    table.truncate();
    for i in 0..5 {
        let value = if i % 2 == 0 {
            DBValue::Null
        } else {
            text(&format!("value{}", i))
        };
        table.insert(vec![
            ("id".to_string(), number(i as f64)),
            ("optional_field".to_string(), value),
        ]);
    }
    table.create_index("optional_field");
    let result = table.query(column_equals("optional_field", DBValue::Null));
    assert_eq!(result.len(), 3);
    table.drop();
}

#[test]
fn test_multiple_indexes() {
    let mut table = Store::open("test_table_multi", "test_db/test_multiple_indexes");
    table.truncate();
    for i in 0..10 {
        table.insert(vec![
            ("id".to_string(), number(i as f64)),
            ("name".to_string(), text(&format!("Person{}", i))),
            ("age".to_string(), number((20 + i) as f64)),
        ]);
    }
    table.create_index("name");
    table.create_index("age");
    let indexes = table.table.list_indexes();
    assert_eq!(indexes.len(), 2);
    assert!(indexes.contains(&"name".to_string()));
    assert!(indexes.contains(&"age".to_string()));
    let result1 = table.query(column_equals("name", text("Person5")));
    assert_eq!(result1.len(), 1);
    let result2 = table.query(column_equals("age", number(25.0)));
    assert_eq!(result2.len(), 1);
    table.drop();
}

#[test]
fn rows_with_the_same_name_are_found_with_and_without_an_index() {
    let mut table = Store::open("id", "mem");
    table.insert(vec![("id".to_string(), number(0.0)), ("name".to_string(), text("a"))]);
    table.insert(vec![("id".to_string(), number(1.0)), ("name".to_string(), text("b"))]);
    table.insert(vec![("id".to_string(), number(1000.0)), ("name".to_string(), text("a"))]);
    let query = column_equals("name", text("a"));
    let scanned = table.query(query.clone());
    assert_eq!(ids_of(&scanned), vec![0.0, 1000.0]);
    table.create_index("name");
    let indexed = table.query(query.clone());
    assert_eq!(ids_of(&indexed), vec![0.0, 1000.0]);
    assert!(same_rows(&scanned, &indexed));
    let mirrored = FilterEntity::Equals(
        Box::new(FilterEntity::Value(text("a"))),
        Box::new(FilterEntity::Column("name".to_string())),
    );
    assert_eq!(ids_of(&table.query(mirrored)), vec![0.0, 1000.0]);
}

#[test]
fn an_index_on_status_finds_the_even_rows() {
    let mut table = Store::open("id", "mem");
    for i in 0..5 {
        table.insert(vec![
            ("id".to_string(), number(i as f64)),
            (
                "status".to_string(),
                text(if i % 2 == 0 { "active" } else { "inactive" }),
            ),
        ]);
    }
    table.create_index("status");
    let result = table.query(column_equals("status", text("active")));
    assert_eq!(ids_of(&result), vec![0.0, 2.0, 4.0]);
}

#[test]
fn fuzzy_match_takes_buch_for_buche_and_not_xyz123() {
    let mut table = Store::open("id", "mem");
    table.insert(vec![("id".to_string(), number(0.0)), ("name".to_string(), text("Buch"))]);
    table.insert(vec![("id".to_string(), number(1.0)), ("name".to_string(), text("xyz123"))]);
    let query = FilterEntity::FuzzyMatch(
        Box::new(FilterEntity::Column("name".to_string())),
        Box::new(FilterEntity::Value(text("buche"))),
        2,
    );
    assert_eq!(ids_of(&table.query(query)), vec![0.0]);
    let strict = FilterEntity::FuzzyMatch(
        Box::new(FilterEntity::Column("name".to_string())),
        Box::new(FilterEntity::Value(text("buche"))),
        1,
    );
    assert!(table.query(strict).is_empty());
}

#[test]
fn a_dropped_index_changes_no_result() {
    let mut table = Store::open("id", "mem");
    for i in 0..6 {
        table.insert(vec![
            ("id".to_string(), number(i as f64)),
            ("kind".to_string(), text(if i < 2 { "x" } else { "y" })),
        ]);
    }
    table.create_index("kind");
    let indexed = table.query(column_equals("kind", text("y")));
    table.drop_index("kind");
    assert!(table.table.list_indexes().is_empty());
    let scanned = table.query(column_equals("kind", text("y")));
    assert_eq!(ids_of(&indexed), vec![2.0, 3.0, 4.0, 5.0]);
    assert!(same_rows(&indexed, &scanned));
}

#[test]
fn row_ids_count_up_from_zero() {
    let mut table = Store::open("id", "mem");
    for i in 0..7u64 {
        let id = table.insert(vec![("id".to_string(), number(i as f64))]);
        assert_eq!(id, i);
    }
    table.truncate();
    assert_eq!(table.insert(vec![("id".to_string(), number(0.0))]), 0);
    assert_eq!(table.insert(vec![("id".to_string(), number(1.0))]), 1);
    table.drop();
    assert_eq!(table.insert(vec![("id".to_string(), number(0.0))]), 0);
}

#[test]
fn row_ids_go_on_after_reopening() {
    let mut table = Store::open("id", "mem");
    for i in 0..3 {
        table.insert(vec![("id".to_string(), number(i as f64))]);
    }
    let mut again = Store::reopen("id", "mem", table.log.clone(), None);
    assert_eq!(again.insert(vec![("id".to_string(), number(3.0))]), 3);
    assert_eq!(again.size(), 4);
}

#[test]
fn truncate_twice_leaves_an_empty_table_both_times() {
    let mut table = Store::open("id", "mem");
    table.insert(vec![("id".to_string(), number(0.0)), ("name".to_string(), text("a"))]);
    table.create_index("name");
    table.truncate();
    assert_eq!(table.size(), 0);
    assert!(table.is_empty());
    assert!(table.query(column_equals("name", text("a"))).is_empty());
    table.truncate();
    assert_eq!(table.size(), 0);
    assert!(table.is_empty());
    assert_eq!(table.table.list_indexes(), vec!["name".to_string()]);
    table.insert(vec![("id".to_string(), number(5.0)), ("name".to_string(), text("a"))]);
    assert_eq!(ids_of(&table.query(column_equals("name", text("a")))), vec![5.0]);
}

#[test]
fn an_index_is_kept_up_by_inserts() {
    let mut table = Store::open("id", "mem");
    table.create_index("name");
    table.insert(vec![("id".to_string(), number(0.0)), ("name".to_string(), text("a"))]);
    table.insert(vec![("id".to_string(), number(1.0))]);
    table.insert(vec![("id".to_string(), number(2.0)), ("name".to_string(), text("a"))]);
    assert_eq!(ids_of(&table.query(column_equals("name", text("a")))), vec![0.0, 2.0]);
    let rebuilt = {
        let mut other = Store::reopen("id", "mem", table.log.clone(), None);
        other.create_index("name");
        other.snapshot
    };
    assert_eq!(table.snapshot, rebuilt);
}

#[test]
fn creating_an_index_twice_changes_nothing() {
    let mut table = Store::open("id", "mem");
    table.insert(vec![("id".to_string(), number(0.0)), ("name".to_string(), text("a"))]);
    assert!(table.table.create_index("name", &table.log).is_some());
    assert!(table.table.create_index("name", &[]).is_none());
    assert_eq!(ids_of(&table.query(column_equals("name", text("a")))), vec![0.0]);
}

#[test]
fn a_row_is_stored_without_a_snapshot_while_no_index_is_defined() {
    let mut table = TableRowSchemaless::new(
        "id".to_string(),
        Settings {
            base_path: "mem".to_string(),
        },
        None,
        &[],
    );
    let stored = table
        .insert(&Row::from_pairs(vec![("id".to_string(), number(1.0))]))
        .unwrap();
    assert!(stored.snapshot.is_none());
    assert_eq!(stored.row_id, 0);
    assert_eq!(stored.frame.len(), 4 + 1 + 1 + 2 + 1 + 8);
    assert_eq!(&stored.frame[0..4], &[13, 0, 0, 0]);
    table.create_index("id", &stored.frame);
    let next = table
        .insert(&Row::from_pairs(vec![("id".to_string(), number(2.0))]))
        .unwrap();
    assert!(next.snapshot.is_some());
    assert_eq!(next.row_id, 1);
}

#[test]
fn insert_errors_compare_by_kind() {
    assert_ne!(InsertError::RowTooLarge, InsertError::RowIdsExhausted);
}

#[test]
fn a_log_that_ends_in_a_broken_frame_is_read_up_to_it() {
    let mut table = Store::open("id", "mem");
    table.insert(vec![("id".to_string(), number(0.0))]);
    table.insert(vec![("id".to_string(), number(1.0))]);
    let whole = table.log.clone();
    let mut broken = whole.clone();
    broken.extend_from_slice(&[50, 0, 0, 0, 1, 2, 3]);
    assert_eq!(table.table.size(Some(&broken)), 2);
    broken.truncate(whole.len() + 2);
    assert_eq!(table.table.size(Some(&broken)), 2);
    assert_eq!(table.table.size(None), 0);
    assert!(table.table.is_empty(None));
    assert!(table.table.is_empty(Some(&[])));
    assert!(!table.table.is_empty(Some(&[0])));
}

#[test]
fn a_record_that_holds_no_row_is_passed_over_and_keeps_its_id() {
    let mut table = Store::open("id", "mem");
    table.insert(vec![("id".to_string(), number(0.0)), ("name".to_string(), text("a"))]);
    table.log.extend_from_slice(&[2, 0, 0, 0, 9, 9]);
    let mut again = Store::reopen("id", "mem", table.log.clone(), None);
    assert_eq!(again.size(), 2);
    assert_eq!(
        again.insert(vec![("id".to_string(), number(2.0)), ("name".to_string(), text("a"))]),
        2
    );
    again.create_index("name");
    assert_eq!(ids_of(&again.query(column_equals("name", text("a")))), vec![0.0, 2.0]);
    let everything = FilterEntity::Not(Box::new(column_equals("name", text("zzz"))));
    assert_eq!(again.query(everything).len(), 2);
}

#[test]
fn paths_are_made_of_the_base_path_and_the_primary_key() {
    let table = Store::open("users", "data/db");
    assert_eq!(table.table.log_path(), "data/db/users");
    assert_eq!(table.table.index_path(), "data/db/users.idx");
    assert_eq!(table.table.primary_key, "users");
    assert_eq!(table.table.settings.base_path, "data/db");
}

#[test]
fn a_snapshot_that_cannot_be_read_leaves_no_index() {
    let table = Store::reopen("id", "mem", Vec::new(), Some(vec![250, 1, 2, 3]));
    assert!(table.table.list_indexes().is_empty());
    let empty = Store::reopen("id", "mem", Vec::new(), Some(Vec::new()));
    assert!(empty.table.list_indexes().is_empty());
}

#[test]
fn an_explicit_null_hides_rows_without_the_column_from_the_index() {
    let mut table = Store::open("id", "mem");
    table.insert(vec![("id".to_string(), number(0.0)), ("opt".to_string(), DBValue::Null)]);
    table.insert(vec![("id".to_string(), number(1.0))]);
    let query = column_equals("opt", DBValue::Null);
    assert_eq!(ids_of(&table.query(query.clone())), vec![0.0, 1.0]);
    table.create_index("opt");
    assert_eq!(ids_of(&table.query(query)), vec![0.0]);
}
