use event_store::filter::{filter_events, matches_record, matches_value, Column, QueryError};
use event_store::model::Number;
use event_store::page::page_bounds;
use event_store::sort::{is_before, sort_events, SortBy};
use event_store::store::{EventStore, LoadError, SourceRecords, DEFAULT_PAGE_SIZE};
use event_store::ingest::DecodeError;
use event_store::value::{Record, Value};

fn text(s: &str) -> Value {
    Value::String(s.to_string())
}

fn uint(n: u64) -> Value {
    Value::Number(Number::PosInt(n))
}

fn float(f: f64) -> Value {
    Value::Number(Number::Float(f.to_bits()))
}

fn object(entries: Vec<(&str, Value)>) -> Record {
    let mut r = Record::new();
    for (k, v) in entries {
        r.insert(k.to_string(), v);
    }
    r
}

fn column(name: &str, filter: &str) -> Column {
    Column {
        name: name.to_string(),
        selected: true,
        filter: filter.to_string(),
        filter_float: filter.parse::<f64>().ok().map(|f| f.to_bits()),
    }
}

fn by(name: &str, ascending: bool) -> SortBy {
    SortBy { column: column(name, ""), ascending }
}

fn raw(id: u64, channel: &str) -> Value {
    let system = object(vec![("EventRecordID", uint(id)), ("Channel", text(channel))]);
    Value::Object(object(vec![(
        "Event",
        Value::Object(object(vec![("System", Value::Object(system))])),
    )]))
}

fn loaded(raws: Vec<Value>) -> EventStore {
    let mut store = EventStore::new();
    store.load(&vec![SourceRecords { path: "log.evtx".to_string(), records: raws }]).unwrap();
    store
}

fn ids(events: &Vec<Record>) -> Vec<u64> {
    events
        .iter()
        .map(|e| match e.get("EventRecordID") {
            Some(Value::Number(n)) => n.as_u64().unwrap(),
            _ => panic!("no id"),
        })
        .collect()
}

#[test]
fn filter_on_missing_column_fails_the_record() {
    let r = object(vec![("a", uint(1))]);
    assert_eq!(matches_value(r.get("b"), &column("b", "anything")), Some(false));
    assert_eq!(matches_record(&r, &vec![column("b", "1")]), Ok(false));
}

#[test]
fn filter_on_bool_needs_a_boolean_literal() {
    let t = Value::Bool(true);
    assert_eq!(matches_value(Some(&t), &column("f", "true")), Some(true));
    assert_eq!(matches_value(Some(&t), &column("f", "false")), Some(false));
    assert_eq!(matches_value(Some(&t), &column("f", "yes")), None);
}

#[test]
fn filter_on_integer_is_exact() {
    let v = uint(4624);
    assert_eq!(matches_value(Some(&v), &column("id", "4624")), Some(true));
    assert_eq!(matches_value(Some(&v), &column("id", "+4624")), Some(true));
    assert_eq!(matches_value(Some(&v), &column("id", "4625")), Some(false));
    assert_eq!(matches_value(Some(&v), &column("id", "46")), Some(false));
    assert_eq!(matches_value(Some(&v), &column("id", "4624.0")), None);
    assert_eq!(matches_value(Some(&v), &column("id", "")), None);
    let n = Value::Number(Number::NegInt(-5));
    assert_eq!(matches_value(Some(&n), &column("id", "-5")), Some(true));
    assert_eq!(matches_value(Some(&n), &column("id", "5")), Some(false));
}

#[test]
fn filter_on_float_is_equality() {
    let v = float(1.5);
    assert_eq!(matches_value(Some(&v), &column("x", "1.5")), Some(true));
    assert_eq!(matches_value(Some(&v), &column("x", "1.50")), Some(true));
    assert_eq!(matches_value(Some(&v), &column("x", "15e-1")), Some(true));
    assert_eq!(matches_value(Some(&v), &column("x", "2")), Some(false));
    assert_eq!(matches_value(Some(&v), &column("x", "NaN")), Some(false));
    assert_eq!(matches_value(Some(&v), &column("x", "abc")), None);
    assert_eq!(matches_value(Some(&float(0.0)), &column("x", "-0")), Some(true));
}

#[test]
fn filter_on_large_unsigned_goes_by_float() {
    let v = uint(u64::MAX);
    assert_eq!(matches_value(Some(&v), &column("x", "18446744073709551615")), Some(true));
    assert_eq!(matches_value(Some(&v), &column("x", "18446744073709551616")), Some(true));
    assert_eq!(matches_value(Some(&v), &column("x", "1")), Some(false));
    assert_eq!(matches_value(Some(&v), &column("x", "x")), None);
}

#[test]
fn filter_on_text_ignores_case() {
    let v = text("Security");
    assert_eq!(matches_value(Some(&v), &column("c", "sec")), Some(true));
    assert_eq!(matches_value(Some(&v), &column("c", "SEC")), Some(true));
    assert_eq!(matches_value(Some(&v), &column("c", "URIT")), Some(true));
    assert_eq!(matches_value(Some(&v), &column("c", "")), Some(true));
    assert_eq!(matches_value(Some(&v), &column("c", "system")), Some(false));
    assert_eq!(matches_value(Some(&text("GRÜSSE")), &column("c", "grü")), Some(true));
}

#[test]
fn filter_on_other_kinds_fails() {
    assert_eq!(matches_value(Some(&Value::Null), &column("c", "")), Some(false));
    assert_eq!(matches_value(Some(&Value::Array(vec![])), &column("c", "")), Some(false));
    assert_eq!(matches_value(Some(&Value::Object(Record::new())), &column("c", "")), Some(false));
}

#[test]
fn filters_are_tried_in_order_up_to_the_first_miss() {
    let r = object(vec![("a", uint(1)), ("f", Value::Bool(true))]);
    assert_eq!(matches_record(&r, &vec![]), Ok(true));
    assert_eq!(matches_record(&r, &vec![column("a", "1"), column("f", "true")]), Ok(true));
    assert_eq!(matches_record(&r, &vec![column("a", "2"), column("f", "bad")]), Ok(false));
    assert_eq!(matches_record(&r, &vec![column("a", "1"), column("f", "bad")]), Err(1));
    assert_eq!(matches_record(&r, &vec![column("a", "x"), column("f", "bad")]), Err(0));
}

#[test]
fn filter_events_keeps_matching_records_in_order() {
    let events = vec![
        object(vec![("id", uint(1)), ("c", text("Security"))]),
        object(vec![("id", uint(2)), ("c", text("System"))]),
        object(vec![("id", uint(3)), ("c", text("security-audit"))]),
        object(vec![("id", uint(4))]),
    ];
    let kept = filter_events(&events, &vec![column("c", "SEC")]).unwrap();
    assert_eq!(kept, vec![events[0].clone(), events[2].clone()]);
    let kept = filter_events(&events, &vec![column("c", "s"), column("id", "2")]).unwrap();
    assert_eq!(kept, vec![events[1].clone()]);
}

#[test]
fn filter_events_without_filters_keeps_everything() {
    let events = vec![object(vec![("id", uint(1))]), object(vec![]), object(vec![("x", Value::Null)])];
    assert_eq!(filter_events(&events, &vec![]).unwrap(), events);
}

#[test]
fn filter_events_reports_the_unreadable_filter() {
    let events = vec![
        object(vec![("id", uint(1)), ("f", Value::Bool(false))]),
        object(vec![("id", uint(2)), ("f", Value::Bool(false))]),
    ];
    assert_eq!(
        filter_events(&events, &vec![column("id", "2"), column("f", "maybe")]),
        Err(QueryError::FilterParse { column: 1 })
    );
    assert_eq!(
        filter_events(&events, &vec![column("id", "3"), column("f", "maybe")]),
        Ok(vec![])
    );
}

#[test]
fn order_of_records_by_text_and_number() {
    let a = object(vec![("c", text("apple")), ("n", uint(10))]);
    let b = object(vec![("c", text("banana")), ("n", uint(9))]);
    let none = object(vec![]);
    assert!(is_before(&a, &b, "c"));
    assert!(!is_before(&b, &a, "c"));
    assert!(!is_before(&a, &a, "c"));
    assert!(is_before(&b, &a, "n"));
    assert!(!is_before(&a, &b, "n"));
    assert!(!is_before(&a, &none, "c"));
    assert!(!is_before(&none, &a, "c"));
    let mixed = object(vec![("c", uint(1))]);
    assert!(!is_before(&a, &mixed, "c"));
    assert!(!is_before(&mixed, &a, "c"));
    let negative = object(vec![("n", Value::Number(Number::NegInt(-1)))]);
    assert!(!is_before(&negative, &a, "n"));
    assert!(!is_before(&a, &negative, "n"));
}

#[test]
fn sort_is_stable_and_descending_is_its_reverse() {
    let events = vec![
        object(vec![("id", uint(1)), ("c", text("b"))]),
        object(vec![("id", uint(2)), ("c", text("a"))]),
        object(vec![("id", uint(3)), ("c", text("b"))]),
        object(vec![("id", uint(4)), ("c", text("a"))]),
        object(vec![("id", uint(5)), ("c", text("c"))]),
    ];
    let up = sort_events(events.clone(), Some(&by("c", true)));
    let key = |e: &Record| match e.get("id") {
        Some(Value::Number(n)) => n.as_u64().unwrap(),
        _ => 0,
    };
    assert_eq!(up.iter().map(key).collect::<Vec<u64>>(), vec![2, 4, 1, 3, 5]);
    let down = sort_events(events.clone(), Some(&by("c", false)));
    assert_eq!(down.iter().map(key).collect::<Vec<u64>>(), vec![5, 3, 1, 4, 2]);
    let same = sort_events(events.clone(), None);
    assert_eq!(same, events);
}

#[test]
fn sort_by_number_compares_as_unsigned() {
    let events = vec![
        object(vec![("n", uint(10))]),
        object(vec![("n", uint(9))]),
        object(vec![("n", uint(u64::MAX))]),
        object(vec![("n", uint(0))]),
    ];
    let up = sort_events(events, Some(&by("n", true)));
    let ns: Vec<Value> = up.iter().map(|e| e.get("n").unwrap().clone()).collect();
    assert_eq!(ns, vec![uint(0), uint(9), uint(10), uint(u64::MAX)]);
}

#[test]
fn sort_leaves_records_without_the_column_where_they_fall() {
    let events = vec![
        object(vec![("id", uint(1)), ("c", text("b"))]),
        object(vec![("id", uint(2))]),
        object(vec![("id", uint(3)), ("c", text("a"))]),
    ];
    let up = sort_events(events.clone(), Some(&by("c", true)));
    assert_eq!(up, events);
    let up = sort_events(events.clone(), Some(&by("missing", true)));
    assert_eq!(up, events);
}

#[test]
fn page_bounds_follow_the_formula() {
    assert_eq!(page_bounds(25, 1, 10), Some((0, 10)));
    assert_eq!(page_bounds(25, 2, 10), Some((10, 20)));
    assert_eq!(page_bounds(25, 3, 10), Some((20, 25)));
    assert_eq!(page_bounds(25, 4, 10), Some((0, 10)));
    assert_eq!(page_bounds(20, 3, 10), Some((0, 10)));
    assert_eq!(page_bounds(0, 1, 10), Some((0, 0)));
    assert_eq!(page_bounds(3, 1, 10), Some((0, 3)));
    assert_eq!(page_bounds(3, 1, usize::MAX), Some((0, 3)));
    assert_eq!(page_bounds(3, usize::MAX, usize::MAX), Some((0, 3)));
    assert_eq!(page_bounds(usize::MAX, 2, usize::MAX - 1), Some((usize::MAX - 1, usize::MAX)));
    assert_eq!(page_bounds(25, 0, 10), None);
    assert_eq!(page_bounds(25, 1, 0), None);
    assert_eq!(page_bounds(25, 0, 0), None);
}

#[test]
fn pages_cover_the_sequence_once() {
    for n in 0usize..23 {
        for size in 1usize..8 {
            let pages = (n + size - 1) / size;
            let mut seen = Vec::new();
            for p in 1..=pages {
                let (s, e) = page_bounds(n, p, size).unwrap();
                seen.extend(s..e);
            }
            assert_eq!(seen, (0..n).collect::<Vec<usize>>());
        }
    }
}

#[test]
fn load_replaces_the_store_and_gives_the_first_page() {
    let mut store = EventStore::new();
    assert_eq!(store.events().len(), 0);
    assert_eq!(DEFAULT_PAGE_SIZE, 10);
    let first: Vec<Value> = (1..=12).map(|i| raw(i, "Security")).collect();
    let files = vec![
        SourceRecords { path: "a.evtx".to_string(), records: first },
        SourceRecords { path: "b.evtx".to_string(), records: vec![raw(13, "System")] },
    ];
    let page = store.load(&files).unwrap();
    assert_eq!(page.page_num, 1);
    assert_eq!(page.page_size, 10);
    assert_eq!(page.total_events, 13);
    assert_eq!(ids(&page.events), (1..=10).collect::<Vec<u64>>());
    assert_eq!(
        page.column_names,
        Some(vec![
            "EventRecordID".to_string(),
            "Channel".to_string(),
            "Flagged".to_string(),
            "SourceFile".to_string()
        ])
    );
    assert_eq!(store.events().len(), 13);
    assert_eq!(store.events()[12].get("SourceFile"), Some(&text("b.evtx")));
    assert_eq!(store.events()[0].get("SourceFile"), Some(&text("a.evtx")));
    assert_eq!(store.column_names().len(), 4);

    let page = store
        .load(&vec![SourceRecords { path: "c".to_string(), records: vec![raw(1, "X"), raw(2, "Y")] }])
        .unwrap();
    assert_eq!(page.page_size, 2);
    assert_eq!(page.total_events, 2);
    assert_eq!(store.events().len(), 2);
}

#[test]
fn load_of_nothing_gives_an_empty_page() {
    let mut store = loaded(vec![raw(1, "a")]);
    let page = store.load(&vec![]).unwrap();
    assert_eq!(page.page_size, 0);
    assert_eq!(page.total_events, 0);
    assert_eq!(page.events, vec![]);
    assert_eq!(page.column_names, Some(vec![]));
    assert_eq!(store.events().len(), 0);
}

#[test]
fn failed_load_names_the_record_and_leaves_the_store() {
    let mut store = loaded(vec![raw(1, "a"), raw(2, "b")]);
    let files = vec![
        SourceRecords { path: "a".to_string(), records: vec![raw(3, "c")] },
        SourceRecords { path: "b".to_string(), records: vec![raw(4, "d"), Value::Null, Value::Null] },
    ];
    assert_eq!(
        store.load(&files),
        Err(LoadError { file: 1, record: 1, reason: DecodeError::MissingEvent })
    );
    assert_eq!(ids(store.events()), vec![1, 2]);
    assert_eq!(store.column_names().len(), 4);
}

#[test]
fn select_page_filters_sorts_and_cuts() {
    let raws: Vec<Value> =
        (1..=25).map(|i| raw(i, if i % 2 == 0 { "System" } else { "Security" })).collect();
    let store = loaded(raws);
    let page = store.select_page(2, 5, &vec![column("Channel", "sec")], None).unwrap();
    assert_eq!(page.total_events, 13);
    assert_eq!(page.page_num, 2);
    assert_eq!(page.page_size, 5);
    assert_eq!(page.column_names, None);
    assert_eq!(ids(&page.events), vec![11, 13, 15, 17, 19]);

    let page = store
        .select_page(1, 4, &vec![column("Channel", "sys")], Some(&by("EventRecordID", false)))
        .unwrap();
    assert_eq!(page.total_events, 12);
    assert_eq!(ids(&page.events), vec![24, 22, 20, 18]);

    let page = store.select_page(3, 10, &vec![], None).unwrap();
    assert_eq!(ids(&page.events), vec![21, 22, 23, 24, 25]);
    let page = store.select_page(4, 10, &vec![], None).unwrap();
    assert_eq!(ids(&page.events), (1..=10).collect::<Vec<u64>>());
    assert_eq!(page.page_num, 4);
    assert_eq!(ids(store.events()), (1..=25).collect::<Vec<u64>>());
}

#[test]
fn select_page_rejects_zero_page_and_zero_size() {
    let store = loaded(vec![raw(1, "a")]);
    assert_eq!(store.select_page(0, 10, &vec![], None), Err(QueryError::InvalidPage));
    assert_eq!(store.select_page(1, 0, &vec![], None), Err(QueryError::InvalidPage));
    assert_eq!(
        store.select_page(0, 10, &vec![column("Flagged", "bad")], None),
        Err(QueryError::InvalidPage)
    );
    assert_eq!(
        store.select_page(1, 10, &vec![column("Flagged", "bad")], None),
        Err(QueryError::FilterParse { column: 0 })
    );
}

#[test]
fn toggling_twice_restores_the_flag() {
    let mut store = loaded(vec![raw(1, "a"), raw(2, "b"), raw(1, "c")]);
    let before = store.events().clone();
    store.flag_event(1);
    assert_eq!(store.events()[0].get("Flagged"), Some(&Value::Bool(true)));
    assert_eq!(store.events()[1].get("Flagged"), Some(&Value::Bool(false)));
    assert_eq!(store.events()[2].get("Flagged"), Some(&Value::Bool(true)));
    assert_ne!(store.events(), &before);
    store.flag_event(1);
    assert_eq!(store.events(), &before);
    store.flag_event(99);
    assert_eq!(store.events(), &before);
    assert_eq!(store.column_names().len(), 4);
}

#[test]
fn end_to_end_filter_then_flag() {
    let mut store = loaded(vec![raw(1, "Security"), raw(2, "System")]);
    let page = store.select_page(1, 10, &vec![column("Channel", "sec")], None).unwrap();
    assert_eq!(page.events.len(), 1);
    assert_eq!(page.total_events, 1);
    assert_eq!(page.events[0].get("EventRecordID"), Some(&uint(1)));
    assert_eq!(page.events[0].get("Flagged"), Some(&Value::Bool(false)));
    store.flag_event(1);
    let page = store.select_page(1, 10, &vec![column("Channel", "sec")], None).unwrap();
    assert_eq!(page.events.len(), 1);
    assert_eq!(page.events[0].get("Flagged"), Some(&Value::Bool(true)));
    let page = store.select_page(1, 10, &vec![column("Flagged", "true")], None).unwrap();
    assert_eq!(ids(&page.events), vec![1]);
}
