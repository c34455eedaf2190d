use mouse_lang::db::codec::{
    decode_row, encode_row, from_zigzag, read_varint, to_zigzag, write_varint,
};
use mouse_lang::db::index::{Index, IndexSet};
use mouse_lang::db::log::{count_frames, encode_frame, frame_ranges, next_frame, read_record};
use mouse_lang::db::row::Row;
use mouse_lang::db::DBValue;
use std::collections::{BTreeMap, HashMap};

fn sample_rows() -> Vec<Row> {
    vec![
        Row::new(),
        Row::from_pairs(vec![("id".to_string(), DBValue::Number(12345.0f64.to_bits()))]),
        Row::from_pairs(vec![
            ("id".to_string(), DBValue::Number(12345.0f64.to_bits())),
            (
                "column1".to_string(),
                DBValue::String("test_value_with_some_length".to_string()),
            ),
            (
                "column2".to_string(),
                DBValue::String("another_test_value".to_string()),
            ),
            ("date".to_string(), DBValue::Timestamp(1672531200)),
            ("amount".to_string(), DBValue::Number(999.99f64.to_bits())),
            ("nothing".to_string(), DBValue::Null),
            ("before".to_string(), DBValue::Timestamp(-1)),
            ("least".to_string(), DBValue::Timestamp(i64::MIN)),
            ("most".to_string(), DBValue::Timestamp(i64::MAX)),
            ("nan".to_string(), DBValue::Number(f64::NAN.to_bits())),
            ("ünï→code".to_string(), DBValue::String("日本語 text".to_string())),
            ("".to_string(), DBValue::String("".to_string())),
        ]),
        Row::from_pairs(vec![(
            "long".to_string(),
            DBValue::String("x".repeat(70_000)),
        )]),
    ]
}

/// The bytes that bincode writes for one cell.
fn bincode_value(value: &DBValue) -> Vec<u8> {
    let config = bincode::config::standard();
    match value {
        DBValue::String(s) => bincode::encode_to_vec((0u32, s.as_str()), config).unwrap(),
        DBValue::Number(bits) => {
            bincode::encode_to_vec((1u32, f64::from_bits(*bits)), config).unwrap()
        }
        DBValue::Timestamp(t) => bincode::encode_to_vec((2u32, *t), config).unwrap(),
        DBValue::Null => bincode::encode_to_vec(3u32, config).unwrap(),
    }
}

/// The bytes that bincode writes for a map with the columns of the row,
/// taken in the row's order.
fn bincode_row(row: &Row) -> Vec<u8> {
    let config = bincode::config::standard();
    let mut bytes = bincode::encode_to_vec(row.len() as u64, config).unwrap();
    for i in 0..row.len() {
        bytes.extend(bincode::encode_to_vec(row.name_at(i).as_str(), config).unwrap());
        bytes.extend(bincode_value(row.value_at(i)));
    }
    bytes
}

#[test]
fn rows_are_encoded_as_bincode_encodes_a_map() {
    for row in sample_rows() {
        assert_eq!(encode_row(&row), bincode_row(&row));
    }
    let one = Row::from_pairs(vec![("a".to_string(), DBValue::String("b".to_string()))]);
    let mut map: HashMap<String, (u32, String)> = HashMap::new();
    map.insert("a".to_string(), (0, "b".to_string()));
    assert_eq!(
        encode_row(&one),
        bincode::encode_to_vec(&map, bincode::config::standard()).unwrap()
    );
    assert_eq!(encode_row(&one), vec![1, 1, b'a', 0, 1, b'b']);
}

#[test]
fn a_row_read_back_is_the_row_written() {
    for row in sample_rows() {
        let bytes = encode_row(&row);
        let back = decode_row(&bytes).unwrap();
        assert_eq!(back.len(), row.len());
        for i in 0..row.len() {
            assert_eq!(back.name_at(i), row.name_at(i));
            match (back.value_at(i), row.value_at(i)) {
                (DBValue::Number(a), DBValue::Number(b)) => assert_eq!(a, b),
                (a, b) => assert!(a.equals(b)),
            }
        }
        let mut longer = bytes.clone();
        longer.extend_from_slice(&[7, 7, 7]);
        assert_eq!(decode_row(&longer).unwrap().len(), row.len());
    }
}

#[test]
fn bincode_reads_what_the_row_codec_writes() {
    let row = Row::from_pairs(vec![
        ("a".to_string(), DBValue::String("x".to_string())),
        ("b".to_string(), DBValue::String("y".to_string())),
    ]);
    let (map, used): (HashMap<String, (u32, String)>, usize) =
        bincode::decode_from_slice(&encode_row(&row), bincode::config::standard()).unwrap();
    assert_eq!(used, encode_row(&row).len());
    assert_eq!(map.get("a"), Some(&(0, "x".to_string())));
    assert_eq!(map.get("b"), Some(&(0, "y".to_string())));
    let numbers = Row::from_pairs(vec![("n".to_string(), DBValue::Number(2.5f64.to_bits()))]);
    let (map, _): (HashMap<String, (u32, f64)>, usize) =
        bincode::decode_from_slice(&encode_row(&numbers), bincode::config::standard()).unwrap();
    assert_eq!(map.get("n"), Some(&(1, 2.5)));
    let times = Row::from_pairs(vec![("t".to_string(), DBValue::Timestamp(-77))]);
    let (map, _): (HashMap<String, (u32, i64)>, usize) =
        bincode::decode_from_slice(&encode_row(&times), bincode::config::standard()).unwrap();
    assert_eq!(map.get("t"), Some(&(2, -77)));
}

#[test]
fn bytes_that_hold_no_row_are_refused() {
    assert!(decode_row(&[]).is_none());
    assert!(decode_row(&[1]).is_none());
    assert!(decode_row(&[1, 1, b'a']).is_none());
    assert!(decode_row(&[1, 1, b'a', 4]).is_none());
    assert!(decode_row(&[1, 1, b'a', 0, 5, b'x']).is_none());
    assert!(decode_row(&[1, 1, 0xff, 3]).is_none());
    assert!(decode_row(&[1, 1, b'a', 253, 0, 0, 0, 0, 0, 0, 0, 0]).is_none());
    assert!(decode_row(&[254]).is_none());
    assert!(decode_row(&[255]).is_none());
    assert!(decode_row(&[253, 255, 255, 255, 255, 255, 255, 255, 255]).is_none());
    assert!(decode_row(&[1, 1, b'a', 1, 0, 0, 0]).is_none());
    assert!(decode_row(&[0]).unwrap().is_empty());
    let wide = decode_row(&[1, 1, b'a', 251, 3, 0]).unwrap();
    assert!(wide.get("a").unwrap().equals(&DBValue::Null));
}

#[test]
fn a_repeated_column_keeps_its_last_value() {
    let bytes = vec![2, 1, b'a', 2, 2, 1, b'a', 2, 4];
    let row = decode_row(&bytes).unwrap();
    assert_eq!(row.len(), 1);
    assert!(row.get("a").unwrap().equals(&DBValue::Timestamp(2)));
    let (map, _): (HashMap<String, (u32, i64)>, usize) =
        bincode::decode_from_slice(&bytes, bincode::config::standard()).unwrap();
    assert_eq!(map.get("a"), Some(&(2, 2)));
}

#[test]
fn variable_length_integers_are_bincodes() {
    let config = bincode::config::standard();
    for n in [
        0u64,
        1,
        250,
        251,
        252,
        65535,
        65536,
        0xffff_ffff,
        0x1_0000_0000,
        u64::MAX,
        1234567890123,
    ] {
        let mut out = vec![9u8];
        write_varint(&mut out, n);
        assert_eq!(&out[1..], &bincode::encode_to_vec(n, config).unwrap()[..]);
        assert_eq!(read_varint(&out, 1), Some((n, out.len())));
        assert_eq!(read_varint(&out[..out.len() - 1], 1).is_none(), true);
    }
    assert_eq!(read_varint(&[251, 5, 0], 0), Some((5, 3)));
    assert_eq!(read_varint(&[254, 0, 0], 0), None);
    for t in [0i64, 1, -1, 2, -2, 1672531200, i64::MAX, i64::MIN] {
        let mut out = Vec::new();
        write_varint(&mut out, to_zigzag(t));
        assert_eq!(out, bincode::encode_to_vec(t, config).unwrap());
        assert_eq!(from_zigzag(to_zigzag(t)), t);
    }
    assert_eq!(to_zigzag(0), 0);
    assert_eq!(to_zigzag(-1), 1);
    assert_eq!(to_zigzag(1), 2);
    assert_eq!(to_zigzag(-2), 3);
}

#[test]
fn a_frame_is_a_length_and_a_payload() {
    let row = Row::from_pairs(vec![("a".to_string(), DBValue::Null)]);
    let frame = encode_frame(&row).unwrap();
    assert_eq!(frame, vec![4, 0, 0, 0, 1, 1, b'a', 3]);
    let mut log = frame.clone();
    log.extend_from_slice(&encode_frame(&Row::new()).unwrap());
    log.extend_from_slice(&frame);
    assert_eq!(count_frames(&log), 3);
    assert_eq!(frame_ranges(&log), vec![(4, 8), (12, 13), (17, 21)]);
    assert_eq!(next_frame(&log, 0), Some((4, 8)));
    assert_eq!(next_frame(&log, 8), Some((12, 13)));
    assert_eq!(next_frame(&log, 21), None);
    assert_eq!(next_frame(&log, 19), None);
    assert!(read_record(&log, 4, 8).unwrap().equals(&row));
    assert!(read_record(&log, 12, 13).unwrap().is_empty());
    assert!(read_record(&log, 4, 6).is_none());
    assert_eq!(count_frames(&[]), 0);
    assert_eq!(count_frames(&[1, 0, 0]), 0);
    assert_eq!(count_frames(&[1, 0, 0, 0]), 0);
    assert_eq!(count_frames(&[0, 0, 0, 0]), 1);
}

#[test]
fn a_row_framed_and_read_back_is_the_row() {
    for row in sample_rows() {
        let frame = encode_frame(&row).unwrap();
        let ranges = frame_ranges(&frame);
        assert_eq!(ranges.len(), 1);
        let back = read_record(&frame, ranges[0].0, ranges[0].1).unwrap();
        assert_eq!(back.len(), row.len());
        for i in 0..row.len() {
            assert_eq!(back.name_at(i), row.name_at(i));
            match (back.value_at(i), row.value_at(i)) {
                (DBValue::Number(a), DBValue::Number(b)) => assert_eq!(a, b),
                (a, b) => assert!(a.equals(b)),
            }
        }
    }
}

fn sample_indexes() -> IndexSet {
    let mut name = Index::new();
    name.add("s:b".to_string(), 1);
    name.add("s:a".to_string(), 0);
    name.add("s:a".to_string(), 1000);
    let mut age = Index::new();
    age.add("n:0000000000025.000000".to_string(), 7);
    let mut set = IndexSet::new();
    set.define("name".to_string(), name);
    set.define("age".to_string(), age);
    set.define("empty".to_string(), Index::new());
    set
}

#[test]
fn a_snapshot_is_what_bincode_writes_for_the_indexes() {
    let mut indexes: BTreeMap<String, BTreeMap<String, Vec<u64>>> = BTreeMap::new();
    indexes.entry("name".to_string()).or_default().insert("s:a".to_string(), vec![0, 1000]);
    indexes.entry("name".to_string()).or_default().insert("s:b".to_string(), vec![1]);
    indexes
        .entry("age".to_string())
        .or_default()
        .insert("n:0000000000025.000000".to_string(), vec![7]);
    indexes.entry("empty".to_string()).or_default();
    let expected = bincode::encode_to_vec(&indexes, bincode::config::standard()).unwrap();
    let snapshot = sample_indexes().to_snapshot().unwrap();
    assert_eq!(snapshot, expected);
    let (as_hash_map, used): (HashMap<String, BTreeMap<String, Vec<u64>>>, usize) =
        bincode::decode_from_slice(&snapshot, bincode::config::standard()).unwrap();
    assert_eq!(used, snapshot.len());
    assert_eq!(as_hash_map.len(), 3);
    assert_eq!(as_hash_map["name"]["s:a"], vec![0, 1000]);
}

#[test]
fn a_snapshot_read_back_holds_the_indexes() {
    let snapshot = sample_indexes().to_snapshot().unwrap();
    let back = IndexSet::from_snapshot(&snapshot).unwrap();
    assert_eq!(back.len(), 3);
    let mut names = back.list_names();
    names.sort();
    assert_eq!(names, vec!["age", "empty", "name"]);
    assert_eq!(back.get("name").unwrap().get("s:a"), Some(&vec![0, 1000]));
    assert_eq!(back.get("name").unwrap().get("s:b"), Some(&vec![1]));
    assert_eq!(back.get("name").unwrap().get("s:c"), None);
    assert_eq!(back.get("empty").unwrap().len(), 0);
    assert!(back.get("other").is_none());
    assert_eq!(back.to_snapshot().unwrap(), snapshot);
    let mut hashed: HashMap<String, BTreeMap<String, Vec<u64>>> = HashMap::new();
    hashed.entry("k".to_string()).or_default().insert("s:v".to_string(), vec![3, 4]);
    let written = bincode::encode_to_vec(&hashed, bincode::config::standard()).unwrap();
    let read = IndexSet::from_snapshot(&written).unwrap();
    assert_eq!(read.get("k").unwrap().get("s:v"), Some(&vec![3, 4]));
}

#[test]
fn bytes_that_hold_no_snapshot_are_refused() {
    assert!(IndexSet::from_snapshot(&[]).is_none());
    assert!(IndexSet::from_snapshot(&[1]).is_none());
    assert!(IndexSet::from_snapshot(&[1, 1, b'a', 1, 1, 0xff, 0]).is_none());
    assert!(IndexSet::from_snapshot(&[253, 255, 255, 255, 255, 255, 255, 255, 127]).is_none());
    assert!(IndexSet::from_snapshot(&[1, 253, 255, 255, 255, 255, 255, 255, 255, 127]).is_none());
    assert!(IndexSet::from_snapshot(&[1, 252, 0, 0, 0, 128]).is_none());
    assert!(IndexSet::from_snapshot(&[0]).unwrap().is_empty());
}
