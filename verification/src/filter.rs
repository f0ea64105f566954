use crate::ingest::views;
use crate::model::{float_eq, floats_equal, lookup, RecordView, ValueView};
use crate::text::{
    contains, is_substring, lowercase, parse_bool, parse_integer, read_bool, read_integer,
    to_lowercase,
};
use crate::value::{Record, Value};
use vstd::prelude::*;

verus! {

/// A column of the view, with the filter text that the user has typed for it.
#[derive(Debug, Default, PartialEq)]
pub struct Column {
    /// The column's name: a key of the records.
    pub name: String,
    /// Whether the column is shown. The queries do not read it.
    pub selected: bool,
    /// The filter text.
    pub filter: String,
    /// The bits of the float that the filter text writes, where it writes one. The caller
    /// supplies them: this library computes on integers only.
    pub filter_float: Option<u64>,
}

/// The mathematical model of a [`Column`], without the `selected` mark.
pub struct ColumnView {
    pub name: Seq<char>,
    pub filter: Seq<char>,
    pub filter_float: Option<u64>,
}

impl View for Column {
    type V = ColumnView;

    open spec fn view(&self) -> ColumnView {
        ColumnView { name: self.name@, filter: self.filter@, filter_float: self.filter_float }
    }
}

impl Clone for Column {
    fn clone(&self) -> (r: Self)
        ensures
            r@ == self@,
            r.selected == self.selected,
    {
        Column {
            name: self.name.clone(),
            selected: self.selected,
            filter: self.filter.clone(),
            filter_float: self.filter_float,
        }
    }
}

/// The views of a run of columns.
pub open spec fn column_views(columns: Seq<Column>) -> Seq<ColumnView> {
    Seq::new(columns.len(), |i: int| columns[i]@)
}

/// Why a query could not be answered.
#[derive(Clone, Copy, Debug, PartialEq, Eq)]
pub enum QueryError {
    /// The page number or the page size is zero.
    InvalidPage,
    /// The filter text of the column at this position cannot be read as a value of the kind
    /// that a record holds in that column.
    FilterParse { column: usize },
}

/// Whether what a record holds in a column meets the column's filter; `None` where the filter
/// text cannot be read as the kind of the value demands.
///
/// A record without the column does not meet the filter. A boolean must equal the text read
/// as a boolean. A number with a signed 64-bit reading must equal the text read as such an
/// integer; any other number must equal, as a float, the float that the text writes. A text
/// must contain the filter text, both taken in lower case. No other value meets a filter.
pub open spec fn value_matches(value: Option<ValueView>, column: ColumnView) -> Option<bool> {
    match value {
        None => Some(false),
        Some(ValueView::Bool(b)) => match parse_bool(column.filter) {
            Some(wanted) => Some(b == wanted),
            None => None,
        },
        Some(ValueView::Number(n)) => match n.int_reading() {
            Some(i) => match parse_integer(column.filter) {
                Some(wanted) => Some(i == wanted),
                None => None,
            },
            None => match n.float_reading() {
                Some(bits) => match column.filter_float {
                    Some(wanted) => Some(float_eq(bits, wanted)),
                    None => None,
                },
                None => Some(false),
            },
        },
        Some(ValueView::String(s)) => Some(is_substring(lowercase(column.filter), lowercase(s))),
        Some(_) => Some(false),
    }
}

/// Whether a record meets the filters from position `from` on, tried in order up to the first
/// that it does not meet; `Err` with the position of the first filter whose text cannot be
/// read.
pub open spec fn record_matches(record: RecordView, columns: Seq<ColumnView>, from: int) -> Result<
    bool,
    usize,
>
    decreases columns.len() - from,
{
    if from < 0 || from >= columns.len() {
        Ok(true)
    } else {
        match value_matches(lookup(record, columns[from].name), columns[from]) {
            Some(true) => record_matches(record, columns, from + 1),
            Some(false) => Ok(false),
            None => Err(from as usize),
        }
    }
}

/// The records that meet every filter, in their order; `Err` with the position of the filter
/// on which the first record that cannot be judged fails.
pub open spec fn filtered(events: Seq<RecordView>, columns: Seq<ColumnView>) -> Result<
    Seq<RecordView>,
    usize,
>
    decreases events.len(),
{
    if events.len() == 0 {
        Ok(Seq::empty())
    } else {
        match filtered(events.drop_last(), columns) {
            Err(column) => Err(column),
            Ok(kept) => match record_matches(events.last(), columns, 0) {
                Err(column) => Err(column),
                Ok(true) => Ok(kept.push(events.last())),
                Ok(false) => Ok(kept),
            },
        }
    }
}

/// What filtering hands back: the records kept, or the error that names the filter whose text
/// cannot be read.
pub open spec fn filter_result(events: Seq<RecordView>, columns: Seq<ColumnView>) -> Result<
    Seq<RecordView>,
    QueryError,
> {
    match filtered(events, columns) {
        Ok(kept) => Ok(kept),
        Err(column) => Err(QueryError::FilterParse { column }),
    }
}

/// Judges one value against one column's filter.
pub fn matches_value(value: Option<&Value>, column: &Column) -> (r: Option<bool>)
    ensures
        r == value_matches(
            match value {
                Some(v) => Some(v@),
                None => None,
            },
            column@,
        ),
{
    match value {
        None => Some(false),
        Some(Value::Bool(b)) => match read_bool(column.filter.as_str()) {
            Some(wanted) => Some(*b == wanted),
            None => None,
        },
        Some(Value::Number(n)) => match n.as_i64() {
            Some(i) => match read_integer(column.filter.as_str()) {
                Some(wanted) => Some(i == wanted),
                None => None,
            },
            None => match n.float_bits() {
                Some(bits) => match column.filter_float {
                    Some(wanted) => Some(floats_equal(bits, wanted)),
                    None => None,
                },
                None => Some(false),
            },
        },
        Some(Value::String(s)) => {
            let hay = to_lowercase(s.as_str());
            let needle = to_lowercase(column.filter.as_str());
            Some(contains(hay.as_str(), needle.as_str()))
        },
        Some(_) => Some(false),
    }
}

/// Judges one record against every filter.
pub fn matches_record(record: &Record, columns: &Vec<Column>) -> (r: Result<bool, usize>)
    ensures
        r == record_matches(record@, column_views(columns@), 0),
{
    let mut j: usize = 0;
    while j < columns.len()
        invariant
            j <= columns.len(),
            record_matches(record@, column_views(columns@), 0) == record_matches(
                record@,
                column_views(columns@),
                j as int,
            ),
        decreases columns.len() - j,
    {
        let column = &columns[j];
        assert(column_views(columns@)[j as int] == column@);
        match matches_value(record.get(column.name.as_str()), column) {
            Some(true) => {},
            Some(false) => { return Ok(false); },
            None => { return Err(j); },
        }
        j += 1;
    }
    Ok(true)
}

/// Keeps the records that meet every filter, in their order. Without filters every record
/// is kept.
pub fn filter_events(events: &Vec<Record>, filtered_columns: &Vec<Column>) -> (r: Result<
    Vec<Record>,
    QueryError,
>)
    ensures
        match r {
            Ok(kept) => filter_result(views(events@), column_views(filtered_columns@)) == Ok::<
                Seq<RecordView>,
                QueryError,
            >(views(kept@)),
            Err(e) => filter_result(views(events@), column_views(filtered_columns@)) == Err::<
                Seq<RecordView>,
                QueryError,
            >(e),
        },
{
    let ghost all = views(events@);
    let ghost columns = column_views(filtered_columns@);
    let mut kept: Vec<Record> = Vec::new();
    let mut i: usize = 0;
    assert(all.take(0) =~= Seq::<RecordView>::empty());
    assert(views(kept@) =~= Seq::<RecordView>::empty());
    while i < events.len()
        invariant
            i <= events.len(),
            all == views(events@),
            columns == column_views(filtered_columns@),
            filtered(all.take(i as int), columns) == Ok::<Seq<RecordView>, usize>(views(kept@)),
        decreases events.len() - i,
    {
        let record = &events[i];
        proof {
            let next = all.take(i + 1);
            assert(next.drop_last() =~= all.take(i as int));
            assert(next.last() == record@);
        }
        match matches_record(record, filtered_columns) {
            Ok(true) => {
                let ghost before = views(kept@);
                kept.push(record.clone());
                assert(views(kept@) =~= before.push(record@));
            },
            Ok(false) => {},
            Err(column) => {
                proof {
                    lemma_filter_fails(all, columns, i + 1);
                }
                return Err(QueryError::FilterParse { column });
            },
        }
        i += 1;
    }
    assert(all.take(i as int) =~= all);
    Ok(kept)
}

/// A failure on the first records of a run is the failure on the whole run.
proof fn lemma_filter_fails(events: Seq<RecordView>, columns: Seq<ColumnView>, n: int)
    requires
        0 <= n <= events.len(),
        filtered(events.take(n), columns).is_err(),
    ensures
        filtered(events, columns) == filtered(events.take(n), columns),
    decreases events.len() - n,
{
    if n == events.len() {
        assert(events.take(n) =~= events);
    } else {
        assert(events.take(n + 1).drop_last() =~= events.take(n));
        lemma_filter_fails(events, columns, n + 1);
    }
}

/// The records that meet every filter.
pub open spec fn meets(columns: Seq<ColumnView>) -> spec_fn(RecordView) -> bool {
    |record: RecordView| record_matches(record, columns, 0) == Ok::<bool, usize>(true)
}

/// `sub` is made of items of `full`, in the order in which they stand there: there are
/// positions in `full`, one for each item of `sub` and each behind the one before, at which
/// the items of `sub` stand.
pub open spec fn is_subsequence<T>(sub: Seq<T>, full: Seq<T>) -> bool {
    exists|at: Seq<int>| positions_of(sub, full, at)
}

/// The positions `at` show that `sub` is a subsequence of `full`.
pub open spec fn positions_of<T>(sub: Seq<T>, full: Seq<T>, at: Seq<int>) -> bool {
    &&& at.len() == sub.len()
    &&& forall|i: int| 0 <= i < at.len() ==> 0 <= #[trigger] at[i] < full.len() && sub[i] == full[at[i]]
    &&& forall|i: int, j: int| 0 <= i < j < at.len() ==> at[i] < at[j]
}

/// Law of the empty filter: without filters a query keeps every record, in place.
pub proof fn law_filter_empty(events: Seq<RecordView>)
    ensures
        filtered(events, Seq::<ColumnView>::empty()) == Ok::<Seq<RecordView>, usize>(events),
    decreases events.len(),
{
    if events.len() == 0 {
        assert(events =~= Seq::<RecordView>::empty());
    } else {
        law_filter_empty(events.drop_last());
        assert(events.drop_last().push(events.last()) =~= events);
    }
}

/// Law of filtering: where the filters can be read, what is kept is exactly the records that
/// meet every filter, in their order.
pub proof fn law_filter_keeps_matching(events: Seq<RecordView>, columns: Seq<ColumnView>)
    requires
        filtered(events, columns).is_ok(),
    ensures
        filtered(events, columns) == Ok::<Seq<RecordView>, usize>(events.filter(meets(columns))),
    decreases events.len(),
{
    reveal(Seq::filter);
    let keep = meets(columns);
    if events.len() == 0 {
        assert(events.filter(keep) =~= Seq::<RecordView>::empty());
    } else {
        law_filter_keeps_matching(events.drop_last(), columns);
        assert(keep(events.last()) == (record_matches(events.last(), columns, 0) == Ok::<
            bool,
            usize,
        >(true)));
    }
}

/// Law of filtering: what is kept is a subsequence of the records, so no record is added and
/// the order among those kept is the one they had.
pub proof fn law_filter_subsequence(events: Seq<RecordView>, columns: Seq<ColumnView>)
    requires
        filtered(events, columns).is_ok(),
    ensures
        is_subsequence(filtered(events, columns)->Ok_0, events),
    decreases events.len(),
{
    let kept = filtered(events, columns)->Ok_0;
    if events.len() == 0 {
        assert(positions_of(kept, events, Seq::<int>::empty()));
    } else {
        let rest = events.drop_last();
        law_filter_subsequence(rest, columns);
        let before = filtered(rest, columns)->Ok_0;
        let at = choose|at: Seq<int>| positions_of(before, rest, at);
        if record_matches(events.last(), columns, 0) == Ok::<bool, usize>(true) {
            let more = at.push(events.len() - 1);
            assert(positions_of(kept, events, more)) by {
                assert forall|i: int| 0 <= i < more.len() implies 0 <= #[trigger] more[i]
                    < events.len() && kept[i] == events[more[i]] by {
                    if i < at.len() {
                        assert(more[i] == at[i]);
                        assert(before[i] == rest[at[i]]);
                    }
                }
                assert forall|i: int, j: int| 0 <= i < j < more.len() implies more[i] < more[j] by {
                    assert(more[i] == at[i]);
                    if j < at.len() {
                        assert(more[j] == at[j]);
                    }
                }
            }
        } else {
            assert(positions_of(kept, events, at)) by {
                assert forall|i: int| 0 <= i < at.len() implies 0 <= #[trigger] at[i]
                    < events.len() && kept[i] == events[at[i]] by {
                    assert(before[i] == rest[at[i]]);
                }
            }
        }
    }
}

} // verus!
