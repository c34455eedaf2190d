use mouse_lang::assoc::StringMap;
use mouse_lang::db::query_engine::{
    execute_query, infer_from_comparison, infer_numeric_type, infer_string_type, pre_select,
    PreSelectedField,
};
use mouse_lang::db::row::Row;
use mouse_lang::db::{DBValue, DBValueType, FilterEntity};

fn column(name: &str) -> Box<FilterEntity> {
    Box::new(FilterEntity::Column(name.to_string()))
}

fn value(v: DBValue) -> Box<FilterEntity> {
    Box::new(FilterEntity::Value(v))
}

fn number(n: f64) -> DBValue {
    DBValue::Number(n.to_bits())
}

fn text(s: &str) -> DBValue {
    DBValue::String(s.to_string())
}

fn sample() -> Row {
    Row::from_pairs(vec![
        ("name".to_string(), text("Buch")),
        ("age".to_string(), number(30.0)),
        ("seen".to_string(), DBValue::Timestamp(100)),
        ("note".to_string(), DBValue::Null),
    ])
}

#[test]
fn equals_compares_values_of_one_type() {
    let row = sample();
    assert!(execute_query(&FilterEntity::Equals(column("name"), value(text("Buch"))), &row));
    assert!(execute_query(&FilterEntity::Equals(value(text("Buch")), column("name")), &row));
    assert!(!execute_query(&FilterEntity::Equals(column("name"), value(text("buch"))), &row));
    assert!(execute_query(&FilterEntity::Equals(column("age"), value(number(30.0))), &row));
    assert!(!execute_query(&FilterEntity::Equals(column("age"), value(text("30"))), &row));
    assert!(execute_query(
        &FilterEntity::Equals(column("seen"), value(DBValue::Timestamp(100))),
        &row
    ));
    assert!(!execute_query(&FilterEntity::Equals(column("seen"), value(number(100.0))), &row));
    assert!(execute_query(&FilterEntity::Equals(column("note"), value(DBValue::Null)), &row));
    assert!(execute_query(&FilterEntity::Equals(column("name"), column("name")), &row));
    assert!(execute_query(&FilterEntity::Equals(value(number(1.0)), value(number(1.0))), &row));
}

#[test]
fn a_missing_column_is_null() {
    let row = sample();
    assert!(execute_query(&FilterEntity::Equals(column("absent"), value(DBValue::Null)), &row));
    assert!(!execute_query(&FilterEntity::Equals(column("absent"), value(text(""))), &row));
    assert!(execute_query(&FilterEntity::Equals(column("absent"), column("note")), &row));
}

#[test]
fn order_is_defined_between_numbers_only() {
    let row = sample();
    assert!(execute_query(&FilterEntity::GreaterThan(column("age"), value(number(29.5))), &row));
    assert!(!execute_query(&FilterEntity::GreaterThan(column("age"), value(number(30.0))), &row));
    assert!(execute_query(&FilterEntity::LessThan(column("age"), value(number(30.5))), &row));
    assert!(!execute_query(&FilterEntity::LessThan(column("age"), value(number(-1.0))), &row));
    assert!(execute_query(&FilterEntity::LessThan(value(number(-2.0)), value(number(-1.0))), &row));
    assert!(!execute_query(
        &FilterEntity::GreaterThan(column("seen"), value(DBValue::Timestamp(1))),
        &row
    ));
    assert!(!execute_query(
        &FilterEntity::LessThan(column("seen"), value(DBValue::Timestamp(1000))),
        &row
    ));
    assert!(!execute_query(&FilterEntity::GreaterThan(column("name"), value(text("A"))), &row));
    assert!(!execute_query(&FilterEntity::LessThan(column("absent"), value(number(1.0))), &row));
    assert!(!execute_query(
        &FilterEntity::LessThan(value(number(f64::NAN)), value(number(1.0))),
        &row
    ));
}

#[test]
fn fuzzy_match_counts_edits() {
    let row = sample();
    let fuzzy = |pattern: &str, threshold: u8| {
        FilterEntity::FuzzyMatch(column("name"), value(text(pattern)), threshold)
    };
    assert!(execute_query(&fuzzy("buche", 2), &row));
    assert!(!execute_query(&fuzzy("buche", 1), &row));
    assert!(execute_query(&fuzzy("Buch", 0), &row));
    assert!(!execute_query(&fuzzy("xyz123", 2), &row));
    assert!(execute_query(&fuzzy("xyz123", 6), &row));
    assert!(!execute_query(&fuzzy("xyz123", 5), &row));
    assert!(execute_query(&fuzzy("", 4), &row));
    assert!(!execute_query(&fuzzy("", 3), &row));
    let kitten = Row::from_pairs(vec![("w".to_string(), text("kitten"))]);
    let sitting = |threshold: u8| {
        FilterEntity::FuzzyMatch(column("w"), value(text("sitting")), threshold)
    };
    assert!(execute_query(&sitting(3), &kitten));
    assert!(!execute_query(&sitting(2), &kitten));
    let accents = Row::from_pairs(vec![("w".to_string(), text("näher"))]);
    assert!(execute_query(
        &FilterEntity::FuzzyMatch(column("w"), value(text("naher")), 1),
        &accents
    ));
    assert!(!execute_query(
        &FilterEntity::FuzzyMatch(column("age"), value(text("30")), 255),
        &row
    ));
    assert!(!execute_query(
        &FilterEntity::FuzzyMatch(column("absent"), value(text("")), 255),
        &row
    ));
}

#[test]
fn predicates_combine() {
    let row = sample();
    let yes = || Box::new(FilterEntity::Equals(column("name"), value(text("Buch"))));
    let no = || Box::new(FilterEntity::Equals(column("name"), value(text("x"))));
    assert!(execute_query(&FilterEntity::And(yes(), yes()), &row));
    assert!(!execute_query(&FilterEntity::And(yes(), no()), &row));
    assert!(!execute_query(&FilterEntity::And(no(), yes()), &row));
    assert!(execute_query(&FilterEntity::Or(no(), yes()), &row));
    assert!(!execute_query(&FilterEntity::Or(no(), no()), &row));
    assert!(execute_query(&FilterEntity::Xor(yes(), no()), &row));
    assert!(!execute_query(&FilterEntity::Xor(yes(), yes()), &row));
    assert!(!execute_query(&FilterEntity::Xor(no(), no()), &row));
    assert!(execute_query(&FilterEntity::Not(no()), &row));
    assert!(!execute_query(&FilterEntity::Not(yes()), &row));
}

#[test]
fn a_bare_value_or_column_is_no_predicate() {
    let row = sample();
    assert!(!execute_query(&FilterEntity::Value(text("Buch")), &row));
    assert!(!execute_query(&FilterEntity::Column("name".to_string()), &row));
    assert!(!execute_query(&FilterEntity::Null, &row));
    assert!(!execute_query(
        &FilterEntity::Equals(Box::new(FilterEntity::Null), Box::new(FilterEntity::Null)),
        &row
    ));
    assert!(!execute_query(
        &FilterEntity::Equals(
            Box::new(FilterEntity::Not(column("name"))),
            value(text("Buch"))
        ),
        &row
    ));
    assert!(execute_query(
        &FilterEntity::Not(Box::new(FilterEntity::Column("name".to_string()))),
        &row
    ));
}

fn kinds_of(filter: &FilterEntity) -> Vec<(String, DBValueType)> {
    let mut fields: Vec<(String, DBValueType)> = pre_select(filter)
        .unwrap_or_default()
        .into_iter()
        .map(|field| {
            assert!(field.range.is_none());
            (field.name, field.kind)
        })
        .collect();
    fields.sort_by(|a, b| a.0.cmp(&b.0));
    fields
}

#[test]
fn pre_select_collects_each_column_once() {
    let filter = FilterEntity::And(
        Box::new(FilterEntity::Equals(column("a"), value(number(1.0)))),
        Box::new(FilterEntity::Or(
            Box::new(FilterEntity::FuzzyMatch(column("b"), value(text("x")), 1)),
            Box::new(FilterEntity::Not(Box::new(FilterEntity::LessThan(
                column("c"),
                column("a"),
            )))),
        )),
    );
    assert_eq!(
        kinds_of(&filter),
        vec![
            ("a".to_string(), DBValueType::Number),
            ("b".to_string(), DBValueType::String),
            ("c".to_string(), DBValueType::Number),
        ]
    );
}

#[test]
fn pre_select_lets_the_last_inference_stand() {
    let filter = FilterEntity::And(
        Box::new(FilterEntity::Equals(column("a"), value(DBValue::Timestamp(1)))),
        Box::new(FilterEntity::Equals(value(DBValue::Null), column("a"))),
    );
    assert_eq!(kinds_of(&filter), vec![("a".to_string(), DBValueType::Null)]);
    let filter = FilterEntity::Xor(
        Box::new(FilterEntity::GreaterThan(column("a"), value(number(1.0)))),
        Box::new(FilterEntity::Column("a".to_string())),
    );
    assert_eq!(kinds_of(&filter), vec![("a".to_string(), DBValueType::Number)]);
    assert_eq!(
        kinds_of(&FilterEntity::Column("solo".to_string())),
        vec![("solo".to_string(), DBValueType::String)]
    );
    assert_eq!(
        kinds_of(&FilterEntity::Equals(column("l"), column("r"))),
        vec![
            ("l".to_string(), DBValueType::String),
            ("r".to_string(), DBValueType::String)
        ]
    );
}

#[test]
fn pre_select_of_a_filter_without_columns_is_none() {
    assert!(pre_select(&FilterEntity::Null).is_none());
    assert!(pre_select(&FilterEntity::Value(DBValue::Null)).is_none());
    assert!(pre_select(&FilterEntity::Equals(value(number(1.0)), value(number(1.0)))).is_none());
    assert!(pre_select(&FilterEntity::Not(Box::new(FilterEntity::Null))).is_none());
}

#[test]
fn inference_sets_the_type_of_a_column() {
    let mut columns: StringMap<PreSelectedField> = StringMap::new();
    infer_numeric_type(&FilterEntity::Column("n".to_string()), &mut columns);
    infer_string_type(&FilterEntity::Column("s".to_string()), &mut columns);
    infer_string_type(&FilterEntity::Value(DBValue::Null), &mut columns);
    infer_from_comparison(
        &FilterEntity::Column("t".to_string()),
        &FilterEntity::Value(DBValue::Timestamp(0)),
        &mut columns,
    );
    infer_from_comparison(
        &FilterEntity::Value(DBValue::Null),
        &FilterEntity::Column("n".to_string()),
        &mut columns,
    );
    infer_from_comparison(
        &FilterEntity::Column("x".to_string()),
        &FilterEntity::Column("y".to_string()),
        &mut columns,
    );
    assert_eq!(columns.len(), 3);
    assert_eq!(columns.get("n").unwrap().kind, DBValueType::Null);
    assert_eq!(columns.get("s").unwrap().kind, DBValueType::String);
    assert_eq!(columns.get("t").unwrap().kind, DBValueType::Timestamp);
    assert_eq!(columns.get("t").unwrap().name, "t");
    assert!(columns.get("x").is_none());
    let field = PreSelectedField::from_column(("c".to_string(), DBValueType::Number));
    assert_eq!(field.name, "c");
    assert_eq!(field.kind, DBValueType::Number);
    assert_eq!(field.range, None);
}

#[test]
fn rows_hold_each_column_once() {
    let mut row = Row::new();
    assert!(row.is_empty());
    assert!(row.insert("a".to_string(), number(1.0)).is_none());
    assert!(row.insert("b".to_string(), DBValue::Null).is_none());
    let previous = row.insert("a".to_string(), text("again")).unwrap();
    assert!(previous.equals(&number(1.0)));
    assert_eq!(row.len(), 2);
    assert_eq!(row.name_at(0), "a");
    assert_eq!(row.name_at(1), "b");
    assert!(row.value_at(0).equals(&text("again")));
    assert!(row.contains_key("b"));
    assert!(!row.contains_key("c"));
    assert!(row.get("c").is_none());
    let other = Row::from_pairs(vec![
        ("b".to_string(), DBValue::Null),
        ("a".to_string(), text("again")),
    ]);
    assert!(row.equals(&other));
    assert!(other.equals(&row));
    assert!(row.clone().equals(&row));
    let shorter = Row::from_pairs(vec![("a".to_string(), text("again"))]);
    assert!(!row.equals(&shorter));
    assert!(!shorter.equals(&row));
    let different = Row::from_pairs(vec![
        ("a".to_string(), text("again")),
        ("b".to_string(), number(0.0)),
    ]);
    assert!(!row.equals(&different));
    let renamed = Row::from_pairs(vec![
        ("a".to_string(), text("again")),
        ("c".to_string(), DBValue::Null),
    ]);
    assert!(!row.equals(&renamed));
}

#[test]
fn string_maps_keep_insertion_order() {
    let mut map: StringMap<u32> = StringMap::new();
    assert!(map.is_empty());
    assert_eq!(map.insert("x".to_string(), 1), None);
    assert_eq!(map.insert("y".to_string(), 2), None);
    assert_eq!(map.insert("x".to_string(), 3), Some(1));
    assert_eq!(map.len(), 2);
    assert_eq!(map.position("y"), Some(1));
    assert_eq!(map.position("z"), None);
    assert_eq!(map.get("x"), Some(&3));
    assert_eq!(map.key_at(0), "x");
    assert_eq!(*map.value_at(1), 2);
    assert_eq!(map.replace_at(1, 5), 2);
    assert_eq!(map.keys(), &vec!["x".to_string(), "y".to_string()]);
    assert_eq!(map.values(), &vec![3, 5]);
    assert_eq!(map.clone().into_values(), vec![3, 5]);
    assert_eq!(map.remove("x"), Some(3));
    assert_eq!(map.remove("x"), None);
    assert!(map.contains_key("y"));
    assert_eq!(map.key_at(0), "y");
    map.clear();
    assert!(map.is_empty());
}
