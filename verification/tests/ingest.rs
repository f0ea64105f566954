use event_store::ingest::{collect_columns, flatten_record, DecodeError};
use event_store::model::Number;
use event_store::value::{Record, Value};

fn text(s: &str) -> Value {
    Value::String(s.to_string())
}

fn uint(n: u64) -> Value {
    Value::Number(Number::PosInt(n))
}

fn object(entries: Vec<(&str, Value)>) -> Record {
    let mut r = Record::new();
    for (k, v) in entries {
        r.insert(k.to_string(), v);
    }
    r
}

fn event(system: Value, data: Option<Value>) -> Value {
    let mut inner = vec![("System", system)];
    if let Some(d) = data {
        inner.push(("EventData", d));
    }
    Value::Object(object(vec![("Event", Value::Object(object(inner)))]))
}

fn keys(r: &Record) -> Vec<String> {
    let mut out = Vec::new();
    let mut i = 0;
    while let Some((k, _)) = r.entry(i) {
        out.push(k.clone());
        i += 1;
    }
    out
}

#[test]
fn flatten_takes_system_fields_and_adds_bookkeeping() {
    let raw = event(
        Value::Object(object(vec![("EventRecordID", uint(1)), ("Channel", text("Security"))])),
        None,
    );
    let flat = flatten_record(&raw, "a.evtx").unwrap();
    assert_eq!(keys(&flat), vec!["EventRecordID", "Channel", "Flagged", "SourceFile"]);
    assert_eq!(flat.get("EventRecordID"), Some(&uint(1)));
    assert_eq!(flat.get("Channel"), Some(&text("Security")));
    assert_eq!(flat.get("Flagged"), Some(&Value::Bool(false)));
    assert_eq!(flat.get("SourceFile"), Some(&text("a.evtx")));
}

#[test]
fn flatten_merges_event_data_over_system() {
    let raw = event(
        Value::Object(object(vec![("EventRecordID", uint(1)), ("Level", uint(4))])),
        Some(Value::Object(object(vec![("User", text("bob")), ("Level", uint(2))]))),
    );
    let flat = flatten_record(&raw, "f").unwrap();
    assert_eq!(keys(&flat), vec!["EventRecordID", "Level", "User", "Flagged", "SourceFile"]);
    assert_eq!(flat.get("Level"), Some(&uint(2)));
    assert_eq!(flat.get("User"), Some(&text("bob")));
}

#[test]
fn flatten_ignores_event_data_that_is_no_object() {
    let raw = event(Value::Object(object(vec![("EventRecordID", uint(1))])), Some(Value::Null));
    let flat = flatten_record(&raw, "f").unwrap();
    assert_eq!(keys(&flat), vec!["EventRecordID", "Flagged", "SourceFile"]);
}

#[test]
fn flatten_hoists_attributes_and_drops_the_holder() {
    let provider = Value::Object(object(vec![
        (
            "#attributes",
            Value::Object(object(vec![("Name", text("Svc")), ("Guid", text("{1}"))])),
        ),
        ("#text", text("lost")),
    ]));
    let raw = event(
        Value::Object(object(vec![
            ("Provider", provider),
            ("EventRecordID", uint(7)),
            ("Channel", text("System")),
        ])),
        None,
    );
    let flat = flatten_record(&raw, "f").unwrap();
    assert_eq!(
        keys(&flat),
        vec!["Provider.Guid", "EventRecordID", "Channel", "Provider.Name", "Flagged", "SourceFile"]
    );
    assert_eq!(flat.get("Provider"), None);
    assert_eq!(flat.get("Provider.Name"), Some(&text("Svc")));
    assert_eq!(flat.get("Provider.Guid"), Some(&text("{1}")));
}

#[test]
fn flatten_hoists_into_a_present_key() {
    let holder =
        Value::Object(object(vec![("#attributes", Value::Object(object(vec![("x", uint(1))])))]));
    let raw = event(
        Value::Object(object(vec![("A", holder), ("A.x", text("old")), ("B", uint(2))])),
        None,
    );
    let flat = flatten_record(&raw, "f").unwrap();
    assert_eq!(keys(&flat), vec!["B", "A.x", "Flagged", "SourceFile"]);
    assert_eq!(flat.get("A.x"), Some(&uint(1)));
}

#[test]
fn flatten_keeps_objects_without_attributes() {
    let nested = Value::Object(object(vec![("k", uint(1))]));
    let raw = event(
        Value::Object(object(vec![("N", nested.clone()), ("L", Value::Array(vec![uint(1)]))])),
        None,
    );
    let flat = flatten_record(&raw, "f").unwrap();
    assert_eq!(flat.get("N"), Some(&nested));
    assert_eq!(flat.get("L"), Some(&Value::Array(vec![uint(1)])));
}

#[test]
fn flatten_overwrites_bookkeeping_keys_of_the_input() {
    let raw = event(
        Value::Object(object(vec![("Flagged", Value::Bool(true)), ("SourceFile", text("x"))])),
        None,
    );
    let flat = flatten_record(&raw, "real").unwrap();
    assert_eq!(keys(&flat), vec!["Flagged", "SourceFile"]);
    assert_eq!(flat.get("Flagged"), Some(&Value::Bool(false)));
    assert_eq!(flat.get("SourceFile"), Some(&text("real")));
}

#[test]
fn flatten_fails_without_event() {
    assert_eq!(flatten_record(&Value::Null, "f"), Err(DecodeError::MissingEvent));
    assert_eq!(
        flatten_record(&Value::Object(Record::new()), "f"),
        Err(DecodeError::MissingEvent)
    );
    let raw = Value::Object(object(vec![("Event", text("no object"))]));
    assert_eq!(flatten_record(&raw, "f"), Err(DecodeError::MissingEvent));
}

#[test]
fn flatten_fails_without_system() {
    let raw = Value::Object(object(vec![("Event", Value::Object(Record::new()))]));
    assert_eq!(flatten_record(&raw, "f"), Err(DecodeError::MissingSystem));
    let raw = event(Value::Array(vec![]), None);
    assert_eq!(flatten_record(&raw, "f"), Err(DecodeError::MissingSystem));
}

#[test]
fn flatten_fails_on_attributes_that_are_no_object() {
    let holder = Value::Object(object(vec![("#attributes", text("oops"))]));
    let raw = event(Value::Object(object(vec![("A", holder)])), None);
    assert_eq!(flatten_record(&raw, "f"), Err(DecodeError::MalformedAttributes));
}

#[test]
fn flatten_again_gives_the_same_record() {
    let raw = event(
        Value::Object(object(vec![("EventRecordID", uint(1)), ("Channel", text("Security"))])),
        Some(Value::Object(object(vec![("User", text("bob"))]))),
    );
    let flat = flatten_record(&raw, "a.evtx").unwrap();
    let again = flatten_record(&event(Value::Object(flat.clone()), None), "a.evtx").unwrap();
    assert_eq!(again, flat);
}

#[test]
fn columns_come_in_first_seen_order_without_repeats() {
    let records = vec![
        object(vec![("a", uint(1)), ("b", uint(2))]),
        object(vec![("c", uint(1)), ("a", uint(2))]),
        object(vec![]),
        object(vec![("d", uint(1)), ("b", uint(2)), ("e", uint(3))]),
    ];
    assert_eq!(collect_columns(&records), vec!["a", "b", "c", "d", "e"]);
    assert_eq!(collect_columns(&Vec::new()), Vec::<String>::new());
}
