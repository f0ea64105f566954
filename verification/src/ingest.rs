use crate::model::{
    distinct_keys, has_key, index_of, insert, keys_of, lemma_has_key, lemma_index_of,
    lemma_insert, lemma_merge_distinct, lemma_remove, lookup, merge, remove, RecordView,
    ValueView,
};
use crate::text::{concat3, same_text};
use crate::value::{Record, Value};
use vstd::prelude::*;
use vstd::string::StringExecFns;

verus! {

/// Why a decoded record could not be flattened.
#[derive(Clone, Copy, Debug, PartialEq, Eq)]
pub enum DecodeError {
    /// The record is no object with an object under `Event`.
    MissingEvent,
    /// The event has no object under `System`.
    MissingSystem,
    /// A value with `#attributes` holds something other than an object under that key.
    MalformedAttributes,
}

/// The object under `Event`, where the record is an object that has one.
pub open spec fn event_of(raw: ValueView) -> Option<RecordView> {
    match raw {
        ValueView::Object(top) => match lookup(top, "Event"@) {
            Some(ValueView::Object(event)) => Some(event),
            _ => None,
        },
        _ => None,
    }
}

/// The object under `System`, where the event has one.
pub open spec fn system_of(event: RecordView) -> Option<RecordView> {
    match lookup(event, "System"@) {
        Some(ValueView::Object(system)) => Some(system),
        _ => None,
    }
}

/// The fields of `system`, with those of the event's `EventData` object merged over them
/// where the event has one.
pub open spec fn merged_fields(event: RecordView, system: RecordView) -> RecordView {
    match lookup(event, "EventData"@) {
        Some(ValueView::Object(data)) => merge(system, data),
        _ => system,
    }
}

/// The key under which the attribute `attr` of the entry `key` is hoisted.
pub open spec fn dotted(key: Seq<char>, attr: Seq<char>) -> Seq<char> {
    key + "."@ + attr
}

/// `live` after each attribute of `attrs` has been inserted under its dotted key, first to
/// last.
pub open spec fn hoist_attributes(live: RecordView, key: Seq<char>, attrs: RecordView) -> RecordView
    decreases attrs.len(),
{
    if attrs.len() == 0 {
        live
    } else {
        insert(
            hoist_attributes(live, key, attrs.drop_last()),
            dotted(key, attrs.last().0),
            attrs.last().1,
        )
    }
}

/// What an entry holds under `#attributes`, where it is an object that has that key.
pub open spec fn attributes_of(value: ValueView) -> Option<ValueView> {
    match value {
        ValueView::Object(inner) => lookup(inner, "#attributes"@),
        _ => None,
    }
}

/// `live` after one entry has been looked at: where the entry has attributes they are
/// hoisted and the entry leaves; `None` where what stands under `#attributes` is no object.
pub open spec fn hoist_entry(live: RecordView, key: Seq<char>, value: ValueView) -> Option<
    RecordView,
> {
    match attributes_of(value) {
        Some(ValueView::Object(attrs)) => Some(remove(hoist_attributes(live, key, attrs), key)),
        Some(_) => None,
        None => Some(live),
    }
}

/// `live` after the entries of `snapshot` have been looked at, first to last.
pub open spec fn hoist_all(live: RecordView, snapshot: RecordView) -> Option<RecordView>
    decreases snapshot.len(),
{
    if snapshot.len() == 0 {
        Some(live)
    } else {
        match hoist_all(live, snapshot.drop_last()) {
            Some(before) => hoist_entry(before, snapshot.last().0, snapshot.last().1),
            None => None,
        }
    }
}

/// `fields` with the two bookkeeping entries: `Flagged`, false, and `SourceFile`, the source.
pub open spec fn with_bookkeeping(fields: RecordView, source: Seq<char>) -> RecordView {
    insert(
        insert(fields, "Flagged"@, ValueView::Bool(false)),
        "SourceFile"@,
        ValueView::String(source),
    )
}

/// The record holds a boolean under `Flagged` and a text under `SourceFile`.
pub open spec fn is_flat(record: RecordView) -> bool {
    &&& lookup(record, "Flagged"@) matches Some(ValueView::Bool(_))
    &&& lookup(record, "SourceFile"@) matches Some(ValueView::String(_))
}

/// After the bookkeeping entries have been added the record holds false under `Flagged` and
/// the source under `SourceFile`.
pub proof fn lemma_bookkeeping(fields: RecordView, source: Seq<char>)
    requires
        distinct_keys(fields),
    ensures
        distinct_keys(with_bookkeeping(fields, source)),
        lookup(with_bookkeeping(fields, source), "Flagged"@) == Some(ValueView::Bool(false)),
        lookup(with_bookkeeping(fields, source), "SourceFile"@) == Some(
            ValueView::String(source),
        ),
        is_flat(with_bookkeeping(fields, source)),
{
    reveal_strlit("Flagged");
    reveal_strlit("SourceFile");
    assert("Flagged"@.len() != "SourceFile"@.len());
    let first = insert(fields, "Flagged"@, ValueView::Bool(false));
    lemma_insert(fields, "Flagged"@, ValueView::Bool(false));
    lemma_insert(first, "SourceFile"@, ValueView::String(source));
}

/// The flat record made of `fields`: attributes hoisted, bookkeeping entries added.
pub open spec fn normalize(fields: RecordView, source: Seq<char>) -> Option<RecordView> {
    match hoist_all(fields, fields) {
        Some(hoisted) => Some(with_bookkeeping(hoisted, source)),
        None => None,
    }
}

/// The flat record of a decoded record, or the reason why there is none.
pub open spec fn flatten(raw: ValueView, source: Seq<char>) -> Result<RecordView, DecodeError> {
    match event_of(raw) {
        None => Err(DecodeError::MissingEvent),
        Some(event) => match system_of(event) {
            None => Err(DecodeError::MissingSystem),
            Some(system) => match normalize(merged_fields(event, system), source) {
                Some(flat) => Ok(flat),
                None => Err(DecodeError::MalformedAttributes),
            },
        },
    }
}

/// Inserts each attribute of `attrs` into `live` under its dotted key.
fn hoist_into(live: &mut Record, key: &str, attrs: &Record)
    ensures
        final(live)@ == hoist_attributes(old(live)@, key@, attrs@),
{
    let ghost before = live@;
    let mut j: usize = 0;
    assert(attrs@.take(0) =~= RecordView::empty());
    while j < attrs.len()
        invariant
            j <= attrs@.len(),
            live@ == hoist_attributes(before, key@, attrs@.take(j as int)),
        decreases attrs@.len() - j,
    {
        match attrs.entry(j) {
            Some((attr, value)) => {
                proof {
                    let next = attrs@.take(j + 1);
                    assert(next.drop_last() =~= attrs@.take(j as int));
                    assert(next.last() == attrs@[j as int]);
                }
                live.insert(concat3(key, ".", attr.as_str()), value.clone());
            },
            None => {},
        }
        j += 1;
    }
    assert(attrs@.take(j as int) =~= attrs@);
}

/// Hoists the attributes of every entry that `fields` held on entry.
fn hoist(fields: &mut Record) -> (r: Result<(), DecodeError>)
    ensures
        match r {
            Ok(()) => hoist_all(old(fields)@, old(fields)@) == Some(final(fields)@),
            Err(e) => e == DecodeError::MalformedAttributes && hoist_all(
                old(fields)@,
                old(fields)@,
            ).is_none(),
        },
{
    let snapshot = fields.clone();
    let ghost start = fields@;
    let mut i: usize = 0;
    assert(snapshot@.take(0) =~= RecordView::empty());
    while i < snapshot.len()
        invariant
            i <= snapshot@.len(),
            snapshot@ == start,
            start == old(fields)@,
            hoist_all(start, snapshot@.take(i as int)) == Some(fields@),
        decreases snapshot@.len() - i,
    {
        proof {
            let next = snapshot@.take(i + 1);
            assert(next.drop_last() =~= snapshot@.take(i as int));
            assert(next.last() == snapshot@[i as int]);
        }
        match snapshot.entry(i) {
            Some((key, value)) => {
                match value {
                    Value::Object(inner) => {
                        match inner.get("#attributes") {
                            Some(Value::Object(attrs)) => {
                                hoist_into(fields, key.as_str(), attrs);
                                fields.remove(key.as_str());
                            },
                            Some(other) => {
                                proof {
                                    assert(!(other@ is Object));
                                    assert(attributes_of(value@) == Some(other@));
                                    assert(hoist_all(start, snapshot@.take(i + 1)).is_none());
                                    lemma_hoist_fails(start, snapshot@, i + 1);
                                }
                                return Err(DecodeError::MalformedAttributes);
                            },
                            None => {},
                        }
                    },
                    _ => {},
                }
            },
            None => {},
        }
        i += 1;
    }
    assert(snapshot@.take(i as int) =~= snapshot@);
    Ok(())
}

/// Once hoisting has failed on the first entries of a snapshot it fails on the whole.
proof fn lemma_hoist_fails(live: RecordView, snapshot: RecordView, n: int)
    requires
        0 <= n <= snapshot.len(),
        hoist_all(live, snapshot.take(n)).is_none(),
    ensures
        hoist_all(live, snapshot).is_none(),
    decreases snapshot.len() - n,
{
    if n == snapshot.len() {
        assert(snapshot.take(n) =~= snapshot);
    } else {
        assert(snapshot.take(n + 1).drop_last() =~= snapshot.take(n));
        lemma_hoist_fails(live, snapshot, n + 1);
    }
}

/// Flattens one decoded record: the fields of its `System` object, those of its `EventData`
/// object merged over them, the attributes of each entry hoisted into dotted keys, and the
/// bookkeeping entries `Flagged` and `SourceFile` added.
pub fn flatten_record(raw: &Value, source: &str) -> (r: Result<Record, DecodeError>)
    ensures
        match r {
            Ok(flat) => flatten(raw@, source@) == Ok::<RecordView, DecodeError>(flat@),
            Err(e) => flatten(raw@, source@) == Err::<RecordView, DecodeError>(e),
        },
        r matches Ok(flat) ==> lookup(flat@, "Flagged"@) == Some(ValueView::Bool(false))
            && lookup(flat@, "SourceFile"@) == Some(ValueView::String(source@)),
{
    let event = match raw {
        Value::Object(top) => match top.get("Event") {
            Some(Value::Object(event)) => event,
            _ => { return Err(DecodeError::MissingEvent); },
        },
        _ => { return Err(DecodeError::MissingEvent); },
    };
    let system = match event.get("System") {
        Some(Value::Object(system)) => system,
        _ => { return Err(DecodeError::MissingSystem); },
    };
    let mut fields = system.clone();
    match event.get("EventData") {
        Some(Value::Object(data)) => {
            fields.append(data);
        },
        _ => {},
    }
    match hoist(&mut fields) {
        Err(e) => { return Err(e); },
        Ok(()) => {},
    }
    proof {
        use_type_invariant(&fields);
        lemma_bookkeeping(fields@, source@);
    }
    fields.insert(String::from_str("Flagged"), Value::Bool(false));
    fields.insert(String::from_str("SourceFile"), Value::String(String::from_str(source)));
    Ok(fields)
}

/// `acc` with each key of `keys` that it does not hold yet added at the end, first to last.
pub open spec fn add_columns(acc: Seq<Seq<char>>, keys: Seq<Seq<char>>) -> Seq<Seq<char>>
    decreases keys.len(),
{
    if keys.len() == 0 {
        acc
    } else {
        let before = add_columns(acc, keys.drop_last());
        if before.contains(keys.last()) {
            before
        } else {
            before.push(keys.last())
        }
    }
}

/// The column names of a run of records: every key, in the order in which a scan of the
/// records, first to last, and of each record's entries, first to last, meets it first.
pub open spec fn columns_of(records: Seq<RecordView>) -> Seq<Seq<char>>
    decreases records.len(),
{
    if records.len() == 0 {
        Seq::empty()
    } else {
        add_columns(columns_of(records.drop_last()), keys_of(records.last()))
    }
}

/// The views of a run of records.
pub open spec fn views(records: Seq<Record>) -> Seq<RecordView> {
    Seq::new(records.len(), |i: int| records[i]@)
}

/// The views of a run of texts.
pub open spec fn texts(names: Seq<String>) -> Seq<Seq<char>> {
    Seq::new(names.len(), |i: int| names[i]@)
}

/// Whether `name` is among `names`.
pub fn holds_name(names: &Vec<String>, name: &str) -> (r: bool)
    ensures
        r == texts(names@).contains(name@),
{
    let mut i: usize = 0;
    while i < names.len()
        invariant
            i <= names.len(),
            forall|k: int| 0 <= k < i ==> texts(names@)[k] != name@,
        decreases names.len() - i,
    {
        if same_text(&names[i], name) {
            assert(texts(names@)[i as int] == name@);
            return true;
        }
        i += 1;
    }
    false
}

/// Collects the column names of `records` in first-seen order.
pub fn collect_columns(records: &Vec<Record>) -> (names: Vec<String>)
    ensures
        texts(names@) == columns_of(views(records@)),
{
    let mut names: Vec<String> = Vec::new();
    let mut i: usize = 0;
    assert(views(records@).take(0) =~= Seq::<RecordView>::empty());
    assert(texts(names@) =~= Seq::<Seq<char>>::empty());
    while i < records.len()
        invariant
            i <= records.len(),
            texts(names@) == columns_of(views(records@).take(i as int)),
        decreases records.len() - i,
    {
        let record = &records[i];
        let ghost done = texts(names@);
        let ghost keys = keys_of(record@);
        let mut j: usize = 0;
        assert(keys.take(0) =~= Seq::<Seq<char>>::empty());
        while j < record.len()
            invariant
                j <= record@.len(),
                keys == keys_of(record@),
                texts(names@) == add_columns(done, keys.take(j as int)),
            decreases record@.len() - j,
        {
            match record.entry(j) {
                Some((key, _)) => {
                    proof {
                        let next = keys.take(j + 1);
                        assert(next.drop_last() =~= keys.take(j as int));
                        assert(next.last() == key@);
                    }
                    if !holds_name(&names, key.as_str()) {
                        let ghost old_names = texts(names@);
                        names.push(key.clone());
                        assert(texts(names@) =~= old_names.push(key@));
                    }
                },
                None => {},
            }
            j += 1;
        }
        proof {
            assert(keys.take(j as int) =~= keys);
            let next = views(records@).take(i + 1);
            assert(next.drop_last() =~= views(records@).take(i as int));
            assert(next.last() == record@);
        }
        i += 1;
    }
    assert(views(records@).take(i as int) =~= views(records@));
    names
}

/// No value of the record is an object with an entry under `#attributes`.
pub open spec fn no_attributes(record: RecordView) -> bool {
    forall|i: int| 0 <= i < record.len() ==> attributes_of((#[trigger] record[i]).1).is_none()
}

/// The decoded record whose event has `fields` as its `System` object and nothing else.
pub open spec fn as_event(fields: RecordView) -> ValueView {
    ValueView::Object(
        seq![("Event"@, ValueView::Object(seq![("System"@, ValueView::Object(fields))]))],
    )
}

/// A snapshot without attributes leaves the record as it is.
proof fn lemma_hoist_nothing(live: RecordView, snapshot: RecordView)
    requires
        no_attributes(snapshot),
    ensures
        hoist_all(live, snapshot) == Some(live),
    decreases snapshot.len(),
{
    if snapshot.len() > 0 {
        let rest = snapshot.drop_last();
        assert(no_attributes(rest)) by {
            assert forall|i: int| 0 <= i < rest.len() implies attributes_of(
                (#[trigger] rest[i]).1,
            ).is_none() by {
                assert(rest[i] == snapshot[i]);
            }
        }
        lemma_hoist_nothing(live, rest);
        assert(attributes_of(snapshot[snapshot.len() - 1].1).is_none());
    }
}

/// Hoisting attributes keeps the keys distinct.
proof fn lemma_hoist_attributes_distinct(live: RecordView, key: Seq<char>, attrs: RecordView)
    requires
        distinct_keys(live),
    ensures
        distinct_keys(hoist_attributes(live, key, attrs)),
    decreases attrs.len(),
{
    if attrs.len() > 0 {
        lemma_hoist_attributes_distinct(live, key, attrs.drop_last());
        lemma_insert(
            hoist_attributes(live, key, attrs.drop_last()),
            dotted(key, attrs.last().0),
            attrs.last().1,
        );
    }
}

/// Hoisting keeps the keys distinct.
proof fn lemma_hoist_distinct(live: RecordView, snapshot: RecordView)
    requires
        distinct_keys(live),
        hoist_all(live, snapshot).is_some(),
    ensures
        distinct_keys(hoist_all(live, snapshot)->0),
    decreases snapshot.len(),
{
    if snapshot.len() > 0 {
        lemma_hoist_distinct(live, snapshot.drop_last());
        let before = hoist_all(live, snapshot.drop_last())->0;
        match attributes_of(snapshot.last().1) {
            Some(ValueView::Object(attrs)) => {
                lemma_hoist_attributes_distinct(before, snapshot.last().0, attrs);
                lemma_remove(hoist_attributes(before, snapshot.last().0, attrs), snapshot.last().0);
            },
            _ => {},
        }
    }
}

/// The keys of the `System` object of a decoded record are distinct, as those of every
/// record are.
pub open spec fn valid_system(raw: ValueView) -> bool {
    event_of(raw).is_some() && system_of(event_of(raw)->0).is_some() ==> distinct_keys(
        system_of(event_of(raw)->0)->0,
    )
}

/// Law of the bookkeeping entries: every flat record holds false under `Flagged` and the
/// path of its source under `SourceFile`, and its keys are distinct.
pub proof fn law_flatten_bookkeeping(raw: ValueView, source: Seq<char>)
    requires
        valid_system(raw),
        flatten(raw, source).is_ok(),
    ensures
        lookup(flatten(raw, source)->Ok_0, "Flagged"@) == Some(ValueView::Bool(false)),
        lookup(flatten(raw, source)->Ok_0, "SourceFile"@) == Some(ValueView::String(source)),
        is_flat(flatten(raw, source)->Ok_0),
        distinct_keys(flatten(raw, source)->Ok_0),
{
    let event = event_of(raw)->0;
    let system = system_of(event)->0;
    let fields = merged_fields(event, system);
    match lookup(event, "EventData"@) {
        Some(ValueView::Object(data)) => {
            lemma_merge_distinct(system, data);
        },
        _ => {},
    }
    lemma_hoist_distinct(fields, fields);
    lemma_bookkeeping(hoist_all(fields, fields)->0, source);
}

/// A record that already holds the bookkeeping entries takes them again without change.
proof fn lemma_bookkeeping_again(flat: RecordView, source: Seq<char>)
    requires
        distinct_keys(flat),
        lookup(flat, "Flagged"@) == Some(ValueView::Bool(false)),
        lookup(flat, "SourceFile"@) == Some(ValueView::String(source)),
    ensures
        with_bookkeeping(flat, source) == flat,
{
    lemma_has_key(flat, "Flagged"@);
    let first = insert(flat, "Flagged"@, ValueView::Bool(false));
    assert(first =~= flat);
    lemma_has_key(flat, "SourceFile"@);
    assert(insert(first, "SourceFile"@, ValueView::String(source)) =~= flat);
}

/// Law of the second flattening: a flat record without attributes, handed in again as the
/// `System` object of an event from the same source, comes back as it is.
pub proof fn law_flatten_idempotent(raw: ValueView, source: Seq<char>)
    requires
        valid_system(raw),
        flatten(raw, source).is_ok(),
        no_attributes(flatten(raw, source)->Ok_0),
    ensures
        flatten(as_event(flatten(raw, source)->Ok_0), source) == flatten(raw, source),
{
    let flat = flatten(raw, source)->Ok_0;
    law_flatten_bookkeeping(raw, source);
    reveal_strlit("Event");
    reveal_strlit("System");
    reveal_strlit("EventData");
    let event = seq![("System"@, ValueView::Object(flat))];
    let top = seq![("Event"@, ValueView::Object(event))];
    assert(top[0].0 == "Event"@);
    assert(distinct_keys(top) && distinct_keys(event));
    lemma_index_of(top, "Event"@, 0);
    assert(event[0].0 == "System"@);
    lemma_index_of(event, "System"@, 0);
    assert(!has_key(event, "EventData"@)) by {
        if has_key(event, "EventData"@) {
            lemma_has_key(event, "EventData"@);
            assert("System"@.len() != "EventData"@.len());
        }
    }
    assert(event_of(as_event(flat)) == Some(event));
    assert(system_of(event) == Some(flat));
    assert(merged_fields(event, flat) == flat);
    lemma_hoist_nothing(flat, flat);
    lemma_bookkeeping_again(flat, source);
}

/// `names` holds no name twice.
pub open spec fn distinct_names(names: Seq<Seq<char>>) -> bool {
    forall|i: int, j: int| 0 <= i < j < names.len() ==> names[i] != names[j]
}

/// What adding the keys of one record does to the column names: none twice, none lost, and
/// none but the keys added.
proof fn lemma_add_columns(acc: Seq<Seq<char>>, keys: Seq<Seq<char>>)
    requires
        distinct_names(acc),
    ensures
        distinct_names(add_columns(acc, keys)),
        forall|name: Seq<char>|
            add_columns(acc, keys).contains(name) <==> (acc.contains(name) || keys.contains(name)),
    decreases keys.len(),
{
    let out = add_columns(acc, keys);
    if keys.len() == 0 {
        assert forall|name: Seq<char>| out.contains(name) <==> (acc.contains(name)
            || keys.contains(name)) by {}
    } else {
        let rest = keys.drop_last();
        let before = add_columns(acc, rest);
        lemma_add_columns(acc, rest);
        assert forall|name: Seq<char>| out.contains(name) <==> (acc.contains(name)
            || keys.contains(name)) by {
            if keys.contains(name) {
                let k = choose|k: int| 0 <= k < keys.len() && keys[k] == name;
                if k < rest.len() {
                    assert(rest[k] == name);
                    assert(rest.contains(name));
                }
            }
            if rest.contains(name) {
                let k = choose|k: int| 0 <= k < rest.len() && rest[k] == name;
                assert(keys[k] == name);
            }
            assert(keys[keys.len() - 1] == keys.last());
            if !before.contains(keys.last()) {
                if before.contains(name) {
                    let k = choose|k: int| 0 <= k < before.len() && before[k] == name;
                    assert(out[k] == name);
                }
                assert(out[before.len() as int] == keys.last());
                if out.contains(name) {
                    let k = choose|k: int| 0 <= k < out.len() && out[k] == name;
                    if k < before.len() {
                        assert(before[k] == name);
                    }
                }
            }
        }
        if !before.contains(keys.last()) {
            assert forall|i: int, j: int| 0 <= i < j < out.len() implies out[i] != out[j] by {
                if j < before.len() {
                    assert(before[i] != before[j]);
                } else {
                    assert(before[i] == out[i]);
                    assert(before.contains(out[i]));
                }
            }
        }
    }
}

/// Law of the column names: no name stands twice among them, and a text is among them if and
/// only if it is a key of one of the records.
pub proof fn law_columns(records: Seq<RecordView>)
    ensures
        distinct_names(columns_of(records)),
        forall|name: Seq<char>|
            columns_of(records).contains(name) <==> exists|i: int|
                0 <= i < records.len() && has_key(#[trigger] records[i], name),
    decreases records.len(),
{
    let out = columns_of(records);
    if records.len() == 0 {
        assert forall|name: Seq<char>| !out.contains(name) by {}
    } else {
        let rest = records.drop_last();
        law_columns(rest);
        lemma_add_columns(columns_of(rest), keys_of(records.last()));
        assert forall|name: Seq<char>|
            out.contains(name) <==> exists|i: int|
                0 <= i < records.len() && has_key(#[trigger] records[i], name) by {
            let last = records.last();
            assert(keys_of(last).contains(name) <==> has_key(last, name)) by {
                if keys_of(last).contains(name) {
                    let k = choose|k: int| 0 <= k < keys_of(last).len() && keys_of(last)[k] == name;
                    assert(last[k].0 == name);
                }
                if has_key(last, name) {
                    lemma_has_key(last, name);
                    assert(keys_of(last)[index_of(last, name)] == name);
                }
            }
            if columns_of(rest).contains(name) {
                let i = choose|i: int| 0 <= i < rest.len() && has_key(#[trigger] rest[i], name);
                assert(records[i] == rest[i]);
            }
            if has_key(last, name) {
                assert(records[records.len() - 1] == last);
            }
            if exists|i: int| 0 <= i < records.len() && has_key(#[trigger] records[i], name) {
                let i = choose|i: int| 0 <= i < records.len() && has_key(#[trigger] records[i], name);
                if i < rest.len() {
                    assert(rest[i] == records[i]);
                }
            }
        }
    }
}

} // verus!
