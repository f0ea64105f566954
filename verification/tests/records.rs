use event_store::model::{floats_equal, Number};
use event_store::value::{Record, Value};

fn text(s: &str) -> Value {
    Value::String(s.to_string())
}

fn uint(n: u64) -> Value {
    Value::Number(Number::PosInt(n))
}

fn keys(r: &Record) -> Vec<String> {
    let mut out = Vec::new();
    let mut i = 0;
    while let Some((k, _)) = r.entry(i) {
        out.push(k.clone());
        i += 1;
    }
    out
}

#[test]
fn new_record_is_empty() {
    let r = Record::new();
    assert_eq!(r.len(), 0);
    assert_eq!(r.get("a"), None);
    assert!(!r.contains_key("a"));
    assert!(r.entry(0).is_none());
}

#[test]
fn insert_appends_new_keys_in_order() {
    let mut r = Record::new();
    r.insert("b".to_string(), uint(1));
    r.insert("a".to_string(), uint(2));
    r.insert("c".to_string(), uint(3));
    assert_eq!(keys(&r), vec!["b", "a", "c"]);
    assert_eq!(r.len(), 3);
}

#[test]
fn insert_on_present_key_keeps_place_and_takes_value() {
    let mut r = Record::new();
    r.insert("a".to_string(), uint(1));
    r.insert("b".to_string(), uint(2));
    r.insert("a".to_string(), text("x"));
    assert_eq!(keys(&r), vec!["a", "b"]);
    assert_eq!(r.get("a"), Some(&text("x")));
    assert_eq!(r.get("b"), Some(&uint(2)));
}

#[test]
fn remove_moves_last_entry_into_the_gap() {
    let mut r = Record::new();
    r.insert("a".to_string(), uint(1));
    r.insert("b".to_string(), uint(2));
    r.insert("c".to_string(), uint(3));
    r.insert("d".to_string(), uint(4));
    assert_eq!(r.remove("b"), Some(uint(2)));
    assert_eq!(keys(&r), vec!["a", "d", "c"]);
    assert_eq!(r.get("b"), None);
    assert_eq!(r.get("d"), Some(&uint(4)));
}

#[test]
fn remove_last_and_absent() {
    let mut r = Record::new();
    r.insert("a".to_string(), uint(1));
    r.insert("b".to_string(), uint(2));
    assert_eq!(r.remove("b"), Some(uint(2)));
    assert_eq!(keys(&r), vec!["a"]);
    assert_eq!(r.remove("zz"), None);
    assert_eq!(keys(&r), vec!["a"]);
    assert_eq!(r.remove("a"), Some(uint(1)));
    assert_eq!(r.len(), 0);
}

#[test]
fn append_overwrites_and_extends() {
    let mut base = Record::new();
    base.insert("a".to_string(), uint(1));
    base.insert("b".to_string(), uint(2));
    let mut other = Record::new();
    other.insert("c".to_string(), uint(3));
    other.insert("a".to_string(), uint(9));
    base.append(&other);
    assert_eq!(keys(&base), vec!["a", "b", "c"]);
    assert_eq!(base.get("a"), Some(&uint(9)));
    assert_eq!(other.len(), 2);
}

#[test]
fn entry_gives_key_and_value_by_position() {
    let mut r = Record::new();
    r.insert("a".to_string(), uint(1));
    r.insert("b".to_string(), text("t"));
    let (k, v) = r.entry(1).unwrap();
    assert_eq!(k, "b");
    assert_eq!(v, &text("t"));
    assert!(r.entry(2).is_none());
}

#[test]
fn clone_is_deep_and_equal() {
    let mut inner = Record::new();
    inner.insert("x".to_string(), Value::Array(vec![Value::Null, Value::Bool(true), uint(7)]));
    let mut r = Record::new();
    r.insert("o".to_string(), Value::Object(inner));
    r.insert("s".to_string(), text("hello"));
    let c = r.clone();
    assert_eq!(c, r);
    let v = Value::Object(r);
    assert_eq!(v.clone(), v);
}

#[test]
fn number_readings() {
    assert_eq!(Number::PosInt(5).as_i64(), Some(5));
    assert_eq!(Number::PosInt(5).as_u64(), Some(5));
    assert_eq!(Number::PosInt(5).float_bits(), None);
    assert_eq!(Number::PosInt(i64::MAX as u64).as_i64(), Some(i64::MAX));
    assert_eq!(Number::PosInt(i64::MAX as u64 + 1).as_i64(), None);
    assert_eq!(Number::PosInt(u64::MAX).as_u64(), Some(u64::MAX));
    assert_eq!(Number::NegInt(-3).as_i64(), Some(-3));
    assert_eq!(Number::NegInt(-3).as_u64(), None);
    assert_eq!(Number::NegInt(4).as_u64(), Some(4));
    assert_eq!(Number::NegInt(-3).float_bits(), None);
    assert_eq!(Number::Float(1.5f64.to_bits()).as_i64(), None);
    assert_eq!(Number::Float(1.5f64.to_bits()).as_u64(), None);
    assert_eq!(Number::Float(1.5f64.to_bits()).float_bits(), Some(1.5f64.to_bits()));
}

#[test]
fn large_integers_round_to_the_nearest_float() {
    let samples: Vec<u64> = vec![
        1u64 << 63,
        (1u64 << 63) + 1,
        (1u64 << 63) + 1024,
        (1u64 << 63) + 1025,
        (1u64 << 63) + 2047,
        (1u64 << 63) + 2048,
        (1u64 << 63) + 3072,
        (1u64 << 63) + 3073,
        0xdead_beef_dead_beef,
        u64::MAX - 1024,
        u64::MAX - 1023,
        u64::MAX,
    ];
    for u in samples {
        assert_eq!(Number::PosInt(u).float_bits(), Some((u as f64).to_bits()), "{}", u);
    }
}

#[test]
fn float_equality_on_bits() {
    let values: Vec<f64> = vec![
        0.0,
        -0.0,
        1.0,
        -1.0,
        1.5,
        f64::MIN_POSITIVE,
        f64::MAX,
        f64::INFINITY,
        f64::NEG_INFINITY,
        f64::NAN,
        -f64::NAN,
        5e-324,
    ];
    for a in &values {
        for b in &values {
            assert_eq!(floats_equal(a.to_bits(), b.to_bits()), a == b, "{} {}", a, b);
        }
    }
}
