use mouse_lang::db::index::{Index, IndexSet};
use mouse_lang::db::order::{place_of, place_of_bytes, Place};
use mouse_lang::db::row::Row;
use mouse_lang::db::row_schemaless::{Settings, TableRowSchemaless};
use mouse_lang::db::{DBValue, FilterEntity};

fn expected_place(a: &str, b: &str) -> Place {
    if a < b {
        Place::Before
    } else if a > b {
        Place::After
    } else {
        Place::Same
    }
}

#[test]
fn keys_are_ordered_as_strings_are() {
    let words = [
        "", "a", "aa", "ab", "b", "B", "s:1", "s:10", "s:2", "n:0000000000025.000000",
        "n:-000000000001.000000", "null", "t:00000000000000000007", "ü", "z", "日本", "\u{10348}",
        "é", "e\u{301}",
    ];
    for a in words {
        for b in words {
            assert_eq!(place_of(a, b), expected_place(a, b), "{:?} / {:?}", a, b);
            assert_eq!(place_of_bytes(a.as_bytes(), b.as_bytes()), expected_place(a, b));
        }
    }
    assert_eq!(place_of_bytes(&[1, 2], &[1, 2, 0]), Place::Before);
    assert_eq!(place_of_bytes(&[255], &[1, 2, 0]), Place::After);
    assert_eq!(place_of_bytes(&[], &[]), Place::Same);
}

#[test]
fn an_index_keeps_its_keys_in_order() {
    let mut index = Index::new();
    for (i, key) in ["m", "c", "x", "a", "m", "b", "zz", "c", "", "a"].iter().enumerate() {
        index.add(key.to_string(), i as u64);
    }
    let keys: Vec<String> = (0..index.len()).map(|i| index.key_at(i).clone()).collect();
    assert_eq!(keys, vec!["", "a", "b", "c", "m", "x", "zz"]);
    assert_eq!(index.get("m"), Some(&vec![0, 4]));
    assert_eq!(index.get("c"), Some(&vec![1, 7]));
    assert_eq!(index.get("a"), Some(&vec![3, 9]));
    assert_eq!(index.get(""), Some(&vec![8]));
    assert_eq!(index.get("zz"), Some(&vec![6]));
    assert_eq!(index.get("z"), None);
    assert_eq!(index.get("aa"), None);
    assert_eq!(index.search("b"), (true, 2));
    assert_eq!(index.search("bb"), (false, 3));
    assert_eq!(index.search("zzz"), (false, 7));
    index.set_bucket("b".to_string(), vec![70, 71]);
    index.set_bucket("d".to_string(), vec![]);
    assert_eq!(index.get("b"), Some(&vec![70, 71]));
    assert_eq!(index.get("d"), Some(&vec![]));
    assert_eq!(index.len(), 8);
    let rebuilt = Index::from_buckets(&vec![
        ("k2".to_string(), vec![1]),
        ("k1".to_string(), vec![2]),
        ("k2".to_string(), vec![3]),
    ]);
    assert_eq!(rebuilt.len(), 2);
    assert_eq!(rebuilt.key_at(0), "k1");
    assert_eq!(rebuilt.get("k2"), Some(&vec![3]));
}

#[test]
fn an_index_set_holds_one_index_per_column() {
    let mut set = IndexSet::new();
    assert!(set.is_empty());
    set.define("a".to_string(), Index::new());
    let mut b = Index::new();
    b.add("s:x".to_string(), 4);
    set.define("b".to_string(), b);
    assert_eq!(set.len(), 2);
    assert!(set.contains("a"));
    assert!(!set.contains("c"));
    assert_eq!(set.name_at(1), "b");
    assert_eq!(set.list_names(), vec!["a", "b"]);
    let row = Row::from_pairs(vec![
        ("a".to_string(), DBValue::Null),
        ("c".to_string(), DBValue::Timestamp(1)),
    ]);
    set.record(&row, 9);
    assert_eq!(set.get("a").unwrap().get("null"), Some(&vec![9]));
    assert_eq!(set.get("b").unwrap().get("s:x"), Some(&vec![4]));
    assert_eq!(set.get("b").unwrap().len(), 1);
    set.clear_buckets();
    assert_eq!(set.len(), 2);
    assert_eq!(set.get("a").unwrap().len(), 0);
    assert_eq!(set.get("b").unwrap().len(), 0);
    set.remove("a");
    set.remove("zzz");
    assert_eq!(set.list_names(), vec!["b"]);
    set.clear();
    assert!(set.is_empty());
    let listed = IndexSet::from_listing(&vec![
        ("x".to_string(), vec![("k".to_string(), vec![1, 2])]),
        ("y".to_string(), vec![]),
        ("x".to_string(), vec![("k".to_string(), vec![3])]),
    ]);
    assert_eq!(listed.len(), 2);
    assert_eq!(listed.get("x").unwrap().get("k"), Some(&vec![3]));
}

#[test]
fn an_index_with_many_keys_finds_each_row() {
    let mut table = TableRowSchemaless::new(
        "id".to_string(),
        Settings {
            base_path: "mem".to_string(),
        },
        None,
        &[],
    );
    let mut log: Vec<u8> = Vec::new();
    let count = 6000u64;
    for i in 0..count {
        let scattered = (i * 7919) % count;
        let row = Row::from_pairs(vec![
            ("id".to_string(), DBValue::Number((i as f64).to_bits())),
            ("email".to_string(), DBValue::String(format!("user{}@example.com", scattered))),
        ]);
        let stored = table.insert(&row).unwrap();
        assert_eq!(stored.row_id, i);
        log.extend_from_slice(&stored.frame);
    }
    assert!(table.create_index("email", &log).is_some());
    for wanted in [0u64, 1, 17, 2999, 5999] {
        let query = FilterEntity::Equals(
            Box::new(FilterEntity::Column("email".to_string())),
            Box::new(FilterEntity::Value(DBValue::String(format!(
                "user{}@example.com",
                wanted
            )))),
        );
        let rows = table.query(query, &log);
        assert_eq!(rows.len(), 1);
        match rows[0].get("id") {
            Some(DBValue::Number(bits)) => {
                assert_eq!(((f64::from_bits(*bits) as u64) * 7919) % count, wanted)
            }
            _ => panic!("a row without an id"),
        }
    }
    let missing = FilterEntity::Equals(
        Box::new(FilterEntity::Column("email".to_string())),
        Box::new(FilterEntity::Value(DBValue::String("nobody".to_string()))),
    );
    assert!(table.query(missing, &log).is_empty());
}

#[test]
fn every_bucket_holds_the_rows_of_its_key() {
    let mut table = TableRowSchemaless::new(
        "id".to_string(),
        Settings {
            base_path: "mem".to_string(),
        },
        None,
        &[],
    );
    let mut log: Vec<u8> = Vec::new();
    let mut snapshot: Option<Vec<u8>> = None;
    let cells = [
        Some(DBValue::String("a".to_string())),
        None,
        Some(DBValue::Number(2.0f64.to_bits())),
        Some(DBValue::String("a".to_string())),
        Some(DBValue::Null),
        Some(DBValue::Timestamp(-3)),
        Some(DBValue::Number(2.0f64.to_bits())),
        None,
        Some(DBValue::String("b".to_string())),
    ];
    for (i, cell) in cells.iter().enumerate() {
        if i == 4 {
            snapshot = table.create_index("c", &log);
        }
        let mut pairs = vec![("id".to_string(), DBValue::Timestamp(i as i64))];
        if let Some(value) = cell {
            pairs.push(("c".to_string(), value.clone()));
        }
        let stored = table.insert(&Row::from_pairs(pairs)).unwrap();
        log.extend_from_slice(&stored.frame);
        if stored.snapshot.is_some() {
            snapshot = stored.snapshot;
        }
    }
    let indexes = IndexSet::from_snapshot(&snapshot.unwrap()).unwrap();
    let index = indexes.get("c").unwrap();
    assert_eq!(index.len(), 5);
    assert_eq!(index.get("s:a"), Some(&vec![0, 3]));
    assert_eq!(index.get("s:b"), Some(&vec![8]));
    assert_eq!(index.get("n:0000000000002.000000"), Some(&vec![2, 6]));
    assert_eq!(index.get("null"), Some(&vec![4]));
    assert_eq!(index.get("t:-0000000000000000003"), Some(&vec![5]));
    let mut listed = 0;
    for i in 0..index.len() {
        listed += index.get(index.key_at(i)).unwrap().len();
    }
    assert_eq!(listed, cells.iter().filter(|cell| cell.is_some()).count());
}
