use mouse_lang::db::index::to_index_key;
use mouse_lang::db::number::{number_equal, number_is_nan, number_less};
use mouse_lang::db::row_schemaless::TableRowSchemaless;
use mouse_lang::db::{DBValue, DBValueType};

fn samples() -> Vec<f64> {
    let mut values = vec![
        0.0,
        -0.0,
        1.0,
        -1.0,
        0.5,
        2.5,
        1.5,
        0.0078125,
        0.0234375,
        -0.0078125,
        0.1,
        0.2,
        0.3,
        1.0000005,
        1.0000015,
        0.0000005,
        0.00000049999,
        0.0000004,
        0.000001,
        0.9999995,
        0.99999949,
        999.99,
        12345.0,
        123456789.123456789,
        1e15,
        1e16,
        1e17,
        1e18,
        1e19,
        1e20,
        1e21,
        1e22,
        1e23,
        1.7976931348623157e308,
        -1.7976931348623157e308,
        4.9e-324,
        2.2250738585072014e-308,
        2.2250738585072009e-308,
        9007199254740992.0,
        9007199254740993.0,
        4503599627370496.0,
        4503599627370495.5,
        2251799813685247.75,
        0.3333333333333333,
        2.0f64.powi(-20),
        2.0f64.powi(-21),
        2.0f64.powi(-74),
        2.0f64.powi(-75),
        3.0 * 2.0f64.powi(-7),
        5.0 * 2.0f64.powi(-7),
        1234567.8901234567,
        f64::INFINITY,
        f64::NEG_INFINITY,
        f64::NAN,
        -f64::NAN,
        f64::MAX,
        f64::MIN,
        f64::MIN_POSITIVE,
        f64::EPSILON,
    ];
    let mut seed: u64 = 0x9e3779b97f4a7c15;
    for _ in 0..4000 {
        seed ^= seed << 13;
        seed ^= seed >> 7;
        seed ^= seed << 17;
        values.push(f64::from_bits(seed));
        values.push((seed % 2_000_000_000) as f64 / 1024.0 - 400_000.0);
        values.push((seed % 20_000_001) as f64 / 128.0);
    }
    for k in 0..2000u32 {
        values.push(k as f64 / 128.0);
        values.push(-(k as f64) / 64.0);
        values.push(2.0f64.powi(k as i32 - 1000));
        values.push(3.0 * 2.0f64.powi(1000 - k as i32));
    }
    values
}

#[test]
fn number_keys_are_the_fixed_width_decimal_of_the_number() {
    for x in samples() {
        let key = to_index_key(&DBValue::Number(x.to_bits()));
        assert_eq!(key, format!("n:{:020.6}", x), "for {:?}", x);
    }
}

#[test]
fn number_keys_of_given_values() {
    let key = |x: f64| to_index_key(&DBValue::Number(x.to_bits()));
    assert_eq!(key(25.0), "n:0000000000025.000000");
    assert_eq!(key(0.0), "n:0000000000000.000000");
    assert_eq!(key(-0.0), "n:-000000000000.000000");
    assert_eq!(key(-1.5), "n:-000000000001.500000");
    assert_eq!(key(999.99), "n:0000000000999.990000");
    assert_eq!(key(0.0078125), "n:0000000000000.007812");
    assert_eq!(key(0.0234375), "n:0000000000000.023438");
    assert_eq!(key(1e20), "n:100000000000000000000.000000");
    assert_eq!(key(f64::INFINITY), "n:00000000000000000inf");
    assert_eq!(key(f64::NEG_INFINITY), "n:-0000000000000000inf");
    assert_eq!(key(f64::NAN), "n:00000000000000000NaN");
}

#[test]
fn timestamp_keys_are_twenty_characters() {
    let key = |t: i64| to_index_key(&DBValue::Timestamp(t));
    assert_eq!(key(0), "t:00000000000000000000");
    assert_eq!(key(1672531200), "t:00000000001672531200");
    assert_eq!(key(-5), "t:-0000000000000000005");
    assert_eq!(key(i64::MAX), "t:09223372036854775807");
    assert_eq!(key(i64::MIN), "t:-9223372036854775808");
    for t in [0i64, 1, -1, 42, -42, 1672531200, i64::MAX, i64::MIN, i64::MIN + 1] {
        assert_eq!(key(t), format!("t:{:020}", t));
    }
}

#[test]
fn string_and_null_keys() {
    assert_eq!(to_index_key(&DBValue::String("abc".to_string())), "s:abc");
    assert_eq!(to_index_key(&DBValue::String("".to_string())), "s:");
    assert_eq!(to_index_key(&DBValue::String("ü→x".to_string())), "s:ü→x");
    assert_eq!(to_index_key(&DBValue::Null), "null");
    assert_eq!(
        TableRowSchemaless::value_to_index_key(&DBValue::String("k".to_string())),
        "s:k"
    );
}

#[test]
fn numbers_compare_as_their_values_do() {
    let values = samples();
    let picked: Vec<f64> = values.iter().copied().step_by(37).collect();
    for &a in &picked {
        for &b in &picked {
            assert_eq!(number_equal(a.to_bits(), b.to_bits()), a == b, "{:?} == {:?}", a, b);
            assert_eq!(number_less(a.to_bits(), b.to_bits()), a < b, "{:?} < {:?}", a, b);
        }
    }
    for &a in &values {
        assert_eq!(number_is_nan(a.to_bits()), a.is_nan());
    }
    assert!(number_equal(0.0f64.to_bits(), (-0.0f64).to_bits()));
    assert!(!number_equal(f64::NAN.to_bits(), f64::NAN.to_bits()));
    assert!(number_less(f64::NEG_INFINITY.to_bits(), f64::MIN.to_bits()));
    assert!(!number_less((-0.0f64).to_bits(), 0.0f64.to_bits()));
}

#[test]
fn values_are_equal_within_their_type_only() {
    let s = DBValue::String("1".to_string());
    let n = DBValue::Number(1.0f64.to_bits());
    let t = DBValue::Timestamp(1);
    assert!(s.equals(&DBValue::String("1".to_string())));
    assert!(!s.equals(&DBValue::String("2".to_string())));
    assert!(n.equals(&DBValue::Number(1.0f64.to_bits())));
    assert!(t.equals(&DBValue::Timestamp(1)));
    assert!(DBValue::Null.equals(&DBValue::Null));
    assert!(!s.equals(&n));
    assert!(!n.equals(&t));
    assert!(!t.equals(&DBValue::Null));
    assert!(!DBValue::Null.equals(&s));
    assert!(s == s.clone());
    assert!(n != t);
    assert!(DBValue::Number(f64::NAN.to_bits()) != DBValue::Number(f64::NAN.to_bits()));
    assert!(DBValue::Number(0.0f64.to_bits()) == DBValue::Number((-0.0f64).to_bits()));
}

#[test]
fn vtype_gives_the_tag() {
    assert_eq!(DBValue::String("a".to_string()).vtype(), DBValueType::String);
    assert_eq!(DBValue::Number(1.5f64.to_bits()).vtype(), DBValueType::Number);
    assert_eq!(DBValue::Timestamp(7).vtype(), DBValueType::Timestamp);
    assert_eq!(DBValue::Null.vtype(), DBValueType::Null);
}
