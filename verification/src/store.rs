use crate::export::{cell_views, csv_document, csv_text, row_views};
use crate::filter::{
    column_views, filter_events, filter_result, Column, ColumnView, QueryError,
};
use crate::ingest::{
    collect_columns, columns_of, flatten, flatten_record, is_flat, texts, views,
    DecodeError,
};
use crate::model::{
    distinct_keys, has_key, index_of, insert, keys_of, lemma_has_key, lemma_index_of,
    lemma_insert, lookup, RecordView, ValueView,
};
use crate::page::{page_bounds, page_of, slice_events, PageResult};
use crate::sort::{lemma_sorted_len, ordered, sort_events, sort_view, SortBy, SortView};
use crate::value::{Record, Value};
use vstd::prelude::*;
use vstd::string::StringExecFns;

verus! {

/// The page size of the page that a load hands back.
pub const DEFAULT_PAGE_SIZE: usize = 10;

/// The decoded records of one source file, first to last.
#[derive(Debug, PartialEq)]
pub struct SourceRecords {
    /// The path of the file.
    pub path: String,
    /// The records as the decoder gave them.
    pub records: Vec<Value>,
}

/// The mathematical model of [`SourceRecords`].
pub struct SourceView {
    pub path: Seq<char>,
    pub records: Seq<ValueView>,
}

impl View for SourceRecords {
    type V = SourceView;

    open spec fn view(&self) -> SourceView {
        SourceView {
            path: self.path@,
            records: Seq::new(self.records@.len(), |i: int| self.records@[i]@),
        }
    }
}

/// The views of a run of source files.
pub open spec fn source_views(files: Seq<SourceRecords>) -> Seq<SourceView> {
    Seq::new(files.len(), |i: int| files[i]@)
}

/// A load that failed: the position of the file, that of the record in it, and the reason.
#[derive(Clone, Copy, Debug, PartialEq, Eq)]
pub struct LoadError {
    pub file: usize,
    pub record: usize,
    pub reason: DecodeError,
}

/// The flat records of one file's records, in order; `Err` with the position of the first
/// record that cannot be flattened, and the reason.
pub open spec fn flatten_run(raws: Seq<ValueView>, source: Seq<char>) -> Result<
    Seq<RecordView>,
    (usize, DecodeError),
>
    decreases raws.len(),
{
    if raws.len() == 0 {
        Ok(Seq::empty())
    } else {
        match flatten_run(raws.drop_last(), source) {
            Err(e) => Err(e),
            Ok(done) => match flatten(raws.last(), source) {
                Ok(flat) => Ok(done.push(flat)),
                Err(reason) => Err(((raws.len() - 1) as usize, reason)),
            },
        }
    }
}

/// The flat records of a batch of files, file after file; `Err` with the first record that
/// cannot be flattened.
pub open spec fn flatten_batch(files: Seq<SourceView>) -> Result<Seq<RecordView>, LoadError>
    decreases files.len(),
{
    if files.len() == 0 {
        Ok(Seq::empty())
    } else {
        match flatten_batch(files.drop_last()) {
            Err(e) => Err(e),
            Ok(done) => match flatten_run(files.last().records, files.last().path) {
                Ok(more) => Ok(done + more),
                Err((record, reason)) => Err(
                    LoadError { file: (files.len() - 1) as usize, record, reason },
                ),
            },
        }
    }
}

/// The record's `EventRecordID` is the unsigned integer `id`.
pub open spec fn has_id(record: RecordView, id: u64) -> bool {
    match lookup(record, "EventRecordID"@) {
        Some(ValueView::Number(n)) => n.uint_reading() == Some(id),
        _ => false,
    }
}

/// The record with the boolean under `Flagged` turned over.
pub open spec fn toggled(record: RecordView) -> RecordView {
    match lookup(record, "Flagged"@) {
        Some(ValueView::Bool(b)) => insert(record, "Flagged"@, ValueView::Bool(!b)),
        _ => record,
    }
}

/// The records after a toggle of `id`: each record with that `EventRecordID` has its flag
/// turned over, every other record is as it was.
pub open spec fn flagged(events: Seq<RecordView>, id: u64) -> Seq<RecordView> {
    Seq::new(
        events.len(),
        |i: int|
            if has_id(events[i], id) {
                toggled(events[i])
            } else {
                events[i]
            },
    )
}

/// What a query answers: the page of the filtered and ordered records, and the number of
/// records that met the filters.
pub open spec fn query(
    events: Seq<RecordView>,
    page: int,
    size: int,
    columns: Seq<ColumnView>,
    sort: Option<SortView>,
) -> Result<(Seq<RecordView>, int), QueryError> {
    if page == 0 || size == 0 {
        Err(QueryError::InvalidPage)
    } else {
        match filter_result(events, columns) {
            Err(e) => Err(e),
            Ok(kept) => Ok((page_of(ordered(kept, sort), page, size), kept.len() as int)),
        }
    }
}

/// What the cells of a record's row hold: for each column whether the record has it.
pub open spec fn row_fits(
    record: RecordView,
    columns: Seq<Seq<char>>,
    cells: Seq<Option<Seq<char>>>,
) -> bool {
    &&& cells.len() == columns.len()
    &&& forall|j: int|
        0 <= j < columns.len() ==> ((#[trigger] cells[j]) is Some <==> has_key(record, columns[j]))
}

/// The values of a record's row: what the record holds in each column.
pub open spec fn row_values(record: RecordView, columns: Seq<Seq<char>>) -> Seq<
    Option<ValueView>,
> {
    Seq::new(columns.len(), |j: int| lookup(record, columns[j]))
}

/// The views of a row of values.
pub open spec fn value_views(cells: Seq<Option<Value>>) -> Seq<Option<ValueView>> {
    Seq::new(
        cells.len(),
        |j: int|
            match cells[j] {
                Some(v) => Some(v@),
                None => None,
            },
    )
}

/// Why the rendered cells cannot be written out.
#[derive(Clone, Copy, Debug, PartialEq, Eq)]
pub enum ExportError {
    /// There are not as many rows as records.
    RowCount,
    /// The row at this position has a cell too many or too few, or a text where the record
    /// has no value, or none where it has one.
    RowShape { row: usize },
}

/// Every record is flat.
pub open spec fn all_flat(records: Seq<RecordView>) -> bool {
    forall|i: int| 0 <= i < records.len() ==> is_flat(#[trigger] records[i])
}

/// The mathematical model of the store: the records in order, and the column names.
pub struct StoreView {
    pub records: Seq<RecordView>,
    pub columns: Seq<Seq<char>>,
}

/// The records of a loaded batch and the names of their columns.
pub struct EventStore {
    events: Vec<Record>,
    column_names: Vec<String>,
}

impl View for EventStore {
    type V = StoreView;

    closed spec fn view(&self) -> StoreView {
        StoreView { records: views(self.events@), columns: texts(self.column_names@) }
    }
}

/// The keys of `a` and `b` are the same, place by place.
proof fn lemma_columns_by_keys(a: Seq<RecordView>, b: Seq<RecordView>)
    requires
        a.len() == b.len(),
        forall|i: int| 0 <= i < a.len() ==> keys_of(#[trigger] a[i]) == keys_of(b[i]),
    ensures
        columns_of(a) == columns_of(b),
    decreases a.len(),
{
    if a.len() > 0 {
        lemma_columns_by_keys(a.drop_last(), b.drop_last());
        assert(keys_of(a.last()) == keys_of(b.last()));
    }
}

/// A toggle leaves a flat record flat and its keys in place.
proof fn lemma_toggled(record: RecordView)
    requires
        distinct_keys(record),
        is_flat(record),
    ensures
        is_flat(toggled(record)),
        distinct_keys(toggled(record)),
        keys_of(toggled(record)) == keys_of(record),
{
    reveal_strlit("Flagged");
    reveal_strlit("SourceFile");
    assert("Flagged"@.len() != "SourceFile"@.len());
    let b = lookup(record, "Flagged"@)->0->Bool_0;
    lemma_insert(record, "Flagged"@, ValueView::Bool(!b));
    lemma_has_key(record, "Flagged"@);
    assert(keys_of(toggled(record)) =~= keys_of(record));
}

impl EventStore {
    #[verifier::type_invariant]
    pub open spec fn inv(&self) -> bool {
        &&& all_flat(self@.records)
        &&& self@.columns == columns_of(self@.records)
    }

    /// The store without records.
    pub fn new() -> (store: EventStore)
        ensures
            store@.records == Seq::<RecordView>::empty(),
            store@.columns == Seq::<Seq<char>>::empty(),
    {
        let events: Vec<Record> = Vec::new();
        let column_names: Vec<String> = Vec::new();
        assert(views(events@) =~= Seq::<RecordView>::empty());
        assert(texts(column_names@) =~= Seq::<Seq<char>>::empty());
        EventStore { events, column_names }
    }

    /// The records, in the order of the store.
    pub fn events(&self) -> (r: &Vec<Record>)
        ensures
            views(r@) == self@.records,
            all_flat(self@.records),
    {
        proof {
            use_type_invariant(self);
        }
        &self.events
    }

    /// The column names: every key of the records, in first-seen order.
    pub fn column_names(&self) -> (r: &Vec<String>)
        ensures
            texts(r@) == self@.columns,
            self@.columns == columns_of(self@.records),
    {
        proof {
            use_type_invariant(self);
        }
        &self.column_names
    }

    /// Answers a query: filters the records, orders those that are left, and cuts the page
    /// out. The store stays as it is.
    pub fn select_page(
        &self,
        selected: usize,
        page_size: usize,
        filtered_columns: &Vec<Column>,
        sort_by: Option<&SortBy>,
    ) -> (r: Result<PageResult, QueryError>)
        ensures
            match r {
                Ok(page) => query(
                    self@.records,
                    selected as int,
                    page_size as int,
                    column_views(filtered_columns@),
                    sort_view(sort_by),
                ) == Ok::<(Seq<RecordView>, int), QueryError>(
                    (views(page.events@), page.total_events as int),
                ) && page.page_num == selected && page.page_size == page_size
                    && page.column_names.is_none(),
                Err(e) => query(
                    self@.records,
                    selected as int,
                    page_size as int,
                    column_views(filtered_columns@),
                    sort_view(sort_by),
                ) == Err::<(Seq<RecordView>, int), QueryError>(e),
            },
    {
        if selected == 0 || page_size == 0 {
            return Err(QueryError::InvalidPage);
        }
        let kept = match filter_events(&self.events, filtered_columns) {
            Ok(kept) => kept,
            Err(e) => { return Err(e); },
        };
        let ghost kept_views = views(kept@);
        let total = kept.len();
        let sorted = sort_events(kept, sort_by);
        proof {
            match sort_by {
                Some(by) => {
                    lemma_sorted_len(kept_views, by@.column);
                },
                None => {},
            }
        }
        match page_bounds(sorted.len(), selected, page_size) {
            Some((start, end)) => {
                let events = slice_events(&sorted, start, end);
                Ok(
                    PageResult {
                        events,
                        column_names: None,
                        page_num: selected,
                        page_size,
                        total_events: total,
                    },
                )
            },
            None => Err(QueryError::InvalidPage),
        }
    }

    /// Replaces the store by the flat records of a batch of files, and hands back the first
    /// page with the column names. A load is all or nothing: where one record cannot be
    /// flattened the load fails with that record and the store stays as it was.
    pub fn load(&mut self, files: &Vec<SourceRecords>) -> (r: Result<PageResult, LoadError>)
        ensures
            match r {
                Ok(page) => {
                    &&& flatten_batch(source_views(files@)) == Ok::<Seq<RecordView>, LoadError>(
                        final(self)@.records,
                    )
                    &&& final(self)@.columns == columns_of(final(self)@.records)
                    &&& page.page_num == 1
                    &&& page.total_events == final(self)@.records.len()
                    &&& page.page_size == (if page.total_events < DEFAULT_PAGE_SIZE {
                        page.total_events
                    } else {
                        DEFAULT_PAGE_SIZE
                    })
                    &&& views(page.events@) == final(self)@.records.take(page.page_size as int)
                    &&& page.column_names matches Some(names) && texts(names@) == columns_of(
                        final(self)@.records,
                    )
                },
                Err(e) => flatten_batch(source_views(files@)) == Err::<Seq<RecordView>, LoadError>(
                    e,
                ) && final(self)@ == old(self)@,
            },
    {
        let events = match flatten_files(files) {
            Ok(events) => events,
            Err(e) => { return Err(e); },
        };
        let column_names = collect_columns(&events);
        let page_size: usize = if events.len() < DEFAULT_PAGE_SIZE {
            events.len()
        } else {
            DEFAULT_PAGE_SIZE
        };
        let first = slice_events(&events, 0, page_size);
        let names = clone_names(&column_names);
        let total = events.len();
        assert(views(events@).subrange(0, page_size as int) =~= views(events@).take(
            page_size as int,
        ));
        *self = EventStore { events, column_names };
        Ok(
            PageResult {
                events: first,
                column_names: Some(names),
                page_num: 1,
                page_size,
                total_events: total,
            },
        )
    }

    /// Turns the flag of every record whose `EventRecordID` is `event_id` over. A record
    /// without such an identifier is left as it is, and so is the store where no record has
    /// it.
    pub fn flag_event(&mut self, event_id: u64)
        ensures
            final(self)@.records == flagged(old(self)@.records, event_id),
            final(self)@.columns == old(self)@.columns,
    {
        proof {
            use_type_invariant(&*self);
        }
        let ghost before = self@.records;
        let mut taken = EventStore::new();
        core::mem::swap(self, &mut taken);
        let mut events = taken.events;
        let column_names = taken.column_names;
        let mut i: usize = 0;
        while i < events.len()
            invariant
                i <= events.len(),
                events@.len() == before.len(),
                forall|k: int| 0 <= k < before.len() ==> is_flat(#[trigger] before[k]),
                forall|k: int|
                    0 <= k < i ==> (#[trigger] views(events@)[k]) == flagged(before, event_id)[k],
                forall|k: int| i <= k < before.len() ==> (#[trigger] views(events@)[k]) == before[k],
                forall|k: int|
                    0 <= k < before.len() ==> is_flat(#[trigger] views(events@)[k]) && keys_of(
                        views(events@)[k],
                    ) == keys_of(before[k]),
            decreases events.len() - i,
        {
            assert(views(events@)[i as int] == before[i as int]);
            let current = &events[i];
            proof {
                use_type_invariant(current);
                lemma_toggled(before[i as int]);
            }
            if record_has_id(&events[i], event_id) {
                let flag = match events[i].get("Flagged") {
                    Some(Value::Bool(b)) => Some(*b),
                    _ => None,
                };
                match flag {
                    Some(b) => {
                        let mut record = events[i].clone();
                        record.insert(String::from_str("Flagged"), Value::Bool(!b));
                        let ghost earlier = views(events@);
                        events.set(i, record);
                        assert forall|k: int| 0 <= k < before.len() && k != i implies #[trigger] views(
                            events@,
                        )[k] == earlier[k] by {}
                    },
                    None => {},
                }
            }
            i += 1;
        }
        proof {
            let after = views(events@);
            assert(after =~= flagged(before, event_id));
            lemma_columns_by_keys(after, before);
        }
        *self = EventStore { events, column_names };
    }

    /// What each record holds in each column: one row for each record, in the order of the
    /// store, one cell for each column name, in their order.
    pub fn csv_cells(&self) -> (rows: Vec<Vec<Option<Value>>>)
        ensures
            rows@.len() == self@.records.len(),
            forall|i: int|
                0 <= i < rows@.len() ==> value_views((#[trigger] rows@[i])@) == row_values(
                    self@.records[i],
                    self@.columns,
                ),
    {
        let mut rows: Vec<Vec<Option<Value>>> = Vec::new();
        let mut i: usize = 0;
        while i < self.events.len()
            invariant
                i <= self.events.len(),
                rows@.len() == i,
                forall|k: int|
                    0 <= k < i ==> value_views((#[trigger] rows@[k])@) == row_values(
                        self@.records[k],
                        self@.columns,
                    ),
            decreases self.events.len() - i,
        {
            let record = &self.events[i];
            let mut cells: Vec<Option<Value>> = Vec::new();
            let mut j: usize = 0;
            while j < self.column_names.len()
                invariant
                    j <= self.column_names.len(),
                    cells@.len() == j,
                    record@ == self@.records[i as int],
                    i < self.events.len(),
                    forall|k: int|
                        0 <= k < j ==> (#[trigger] value_views(cells@)[k]) == lookup(
                            record@,
                            self@.columns[k],
                        ),
                decreases self.column_names.len() - j,
            {
                let cell = match record.get(self.column_names[j].as_str()) {
                    Some(value) => Some(value.clone()),
                    None => None,
                };
                let ghost earlier = value_views(cells@);
                cells.push(cell);
                assert forall|k: int| 0 <= k < j implies (#[trigger] value_views(cells@)[k])
                    == earlier[k] by {}
                j += 1;
            }
            assert(value_views(cells@) =~= row_values(self@.records[i as int], self@.columns));
            rows.push(cells);
            i += 1;
        }
        rows
    }

    /// Writes the store out as comma-separated values, from the texts into which the caller
    /// has rendered the cells of [`EventStore::csv_cells`]: the header line with the column
    /// names, then one row for each record. The texts go in as they are; nothing is quoted
    /// or escaped.
    pub fn export_csv(&self, rendered: &Vec<Vec<Option<String>>>) -> (r: Result<
        String,
        ExportError,
    >)
        ensures
            match r {
                Ok(text) => {
                    &&& rendered@.len() == self@.records.len()
                    &&& forall|i: int|
                        0 <= i < rendered@.len() ==> row_fits(
                            self@.records[i],
                            self@.columns,
                            #[trigger] row_views(rendered@)[i],
                        )
                    &&& text@ == csv_text(self@.columns, row_views(rendered@))
                },
                Err(ExportError::RowCount) => rendered@.len() != self@.records.len(),
                Err(ExportError::RowShape { row }) => {
                    &&& rendered@.len() == self@.records.len()
                    &&& row < rendered@.len()
                    &&& !row_fits(self@.records[row as int], self@.columns, row_views(rendered@)[row as int])
                    &&& forall|i: int|
                        0 <= i < row ==> row_fits(
                            self@.records[i],
                            self@.columns,
                            #[trigger] row_views(rendered@)[i],
                        )
                },
            },
    {
        if rendered.len() != self.events.len() {
            return Err(ExportError::RowCount);
        }
        let mut i: usize = 0;
        while i < rendered.len()
            invariant
                i <= rendered.len(),
                rendered@.len() == self@.records.len(),
                forall|k: int|
                    0 <= k < i ==> row_fits(
                        self@.records[k],
                        self@.columns,
                        #[trigger] row_views(rendered@)[k],
                    ),
            decreases rendered.len() - i,
        {
            if !fits_row(&self.events[i], &self.column_names, &rendered[i]) {
                return Err(ExportError::RowShape { row: i });
            }
            i += 1;
        }
        Ok(csv_document(&self.column_names, rendered))
    }
}

/// Whether the record's `EventRecordID` is the unsigned integer `id`.
pub fn record_has_id(record: &Record, id: u64) -> (r: bool)
    ensures
        r == has_id(record@, id),
{
    match record.get("EventRecordID") {
        Some(Value::Number(n)) => match n.as_u64() {
            Some(found) => found == id,
            None => false,
        },
        _ => false,
    }
}

/// Whether the cells have a text exactly where the record has a value.
fn fits_row(record: &Record, columns: &Vec<String>, cells: &Vec<Option<String>>) -> (r: bool)
    ensures
        r == row_fits(record@, texts(columns@), cell_views(cells@)),
{
    if cells.len() != columns.len() {
        return false;
    }
    let mut j: usize = 0;
    while j < columns.len()
        invariant
            j <= columns.len(),
            cells@.len() == columns@.len(),
            forall|k: int|
                0 <= k < j ==> ((#[trigger] cell_views(cells@)[k]) is Some <==> has_key(
                    record@,
                    texts(columns@)[k],
                )),
        decreases columns.len() - j,
    {
        let present = record.contains_key(columns[j].as_str());
        assert(cell_views(cells@)[j as int] is Some == cells@[j as int] is Some);
        if cells[j].is_some() != present {
            return false;
        }
        j += 1;
    }
    true
}

/// A copy of the names.
fn clone_names(names: &Vec<String>) -> (r: Vec<String>)
    ensures
        texts(r@) == texts(names@),
{
    let mut out: Vec<String> = Vec::new();
    let mut i: usize = 0;
    while i < names.len()
        invariant
            i <= names.len(),
            out@.len() == i,
            forall|k: int| 0 <= k < i ==> (#[trigger] out@[k])@ == names@[k]@,
        decreases names.len() - i,
    {
        out.push(names[i].clone());
        i += 1;
    }
    assert(texts(out@) =~= texts(names@));
    out
}

/// Flattens the records of one file.
fn flatten_file(file: &SourceRecords, out: &mut Vec<Record>) -> (r: Result<(), (usize, DecodeError)>)
    requires
        all_flat(views(old(out)@)),
    ensures
        match r {
            Ok(()) => exists|more: Seq<RecordView>|
                flatten_run(file@.records, file@.path) == Ok::<
                    Seq<RecordView>,
                    (usize, DecodeError),
                >(more) && views(final(out)@) == views(old(out)@) + more,
            Err(e) => flatten_run(file@.records, file@.path) == Err::<
                Seq<RecordView>,
                (usize, DecodeError),
            >(e),
        },
        all_flat(views(final(out)@)),
{
    let ghost start = views(out@);
    let ghost raws = file@.records;
    let mut i: usize = 0;
    assert(raws.take(0) =~= Seq::<ValueView>::empty());
    assert(views(out@) =~= start + Seq::<RecordView>::empty());
    let ghost mut done: Seq<RecordView> = Seq::empty();
    while i < file.records.len()
        invariant
            i <= file.records.len(),
            raws == file@.records,
            flatten_run(raws.take(i as int), file@.path) == Ok::<
                Seq<RecordView>,
                (usize, DecodeError),
            >(done),
            views(out@) == start + done,
            all_flat(views(out@)),
        decreases file.records.len() - i,
    {
        proof {
            let next = raws.take(i + 1);
            assert(next.drop_last() =~= raws.take(i as int));
            assert(next.last() == file.records@[i as int]@);
        }
        match flatten_record(&file.records[i], file.path.as_str()) {
            Ok(flat) => {
                let ghost earlier = views(out@);
                out.push(flat);
                proof {
                    assert(views(out@) =~= earlier.push(flat@));
                    done = done.push(flat@);
                    assert(views(out@) =~= start + done);
                }
            },
            Err(reason) => {
                proof {
                    lemma_run_fails(raws, file@.path, i + 1);
                }
                return Err((i, reason));
            },
        }
        i += 1;
    }
    assert(raws.take(i as int) =~= raws);
    Ok(())
}

/// A failure on the first records of a file is the failure on the whole file.
proof fn lemma_run_fails(raws: Seq<ValueView>, source: Seq<char>, n: int)
    requires
        0 <= n <= raws.len(),
        flatten_run(raws.take(n), source).is_err(),
    ensures
        flatten_run(raws, source) == flatten_run(raws.take(n), source),
    decreases raws.len() - n,
{
    if n == raws.len() {
        assert(raws.take(n) =~= raws);
    } else {
        assert(raws.take(n + 1).drop_last() =~= raws.take(n));
        lemma_run_fails(raws, source, n + 1);
    }
}

/// A failure on the first files of a batch is the failure on the whole batch.
proof fn lemma_batch_fails(files: Seq<SourceView>, n: int)
    requires
        0 <= n <= files.len(),
        flatten_batch(files.take(n)).is_err(),
    ensures
        flatten_batch(files) == flatten_batch(files.take(n)),
    decreases files.len() - n,
{
    if n == files.len() {
        assert(files.take(n) =~= files);
    } else {
        assert(files.take(n + 1).drop_last() =~= files.take(n));
        lemma_batch_fails(files, n + 1);
    }
}

/// Flattens the records of every file, file after file.
fn flatten_files(files: &Vec<SourceRecords>) -> (r: Result<Vec<Record>, LoadError>)
    ensures
        match r {
            Ok(events) => flatten_batch(source_views(files@)) == Ok::<Seq<RecordView>, LoadError>(
                views(events@),
            ) && all_flat(views(events@)),
            Err(e) => flatten_batch(source_views(files@)) == Err::<Seq<RecordView>, LoadError>(e),
        },
{
    let ghost all = source_views(files@);
    let mut events: Vec<Record> = Vec::new();
    let mut f: usize = 0;
    assert(all.take(0) =~= Seq::<SourceView>::empty());
    assert(views(events@) =~= Seq::<RecordView>::empty());
    while f < files.len()
        invariant
            f <= files.len(),
            all == source_views(files@),
            flatten_batch(all.take(f as int)) == Ok::<Seq<RecordView>, LoadError>(views(events@)),
            all_flat(views(events@)),
        decreases files.len() - f,
    {
        proof {
            let next = all.take(f + 1);
            assert(next.drop_last() =~= all.take(f as int));
            assert(next.last() == files@[f as int]@);
        }
        match flatten_file(&files[f], &mut events) {
            Ok(()) => {},
            Err((record, reason)) => {
                proof {
                    lemma_batch_fails(all, f + 1);
                }
                return Err(LoadError { file: f, record, reason });
            },
        }
        f += 1;
    }
    assert(all.take(f as int) =~= all);
    Ok(events)
}

/// The keys of every record are distinct.
pub open spec fn all_distinct(records: Seq<RecordView>) -> bool {
    forall|i: int| 0 <= i < records.len() ==> distinct_keys(#[trigger] records[i])
}

/// A flat record toggled twice is the record.
proof fn lemma_toggled_twice(record: RecordView, id: u64)
    requires
        distinct_keys(record),
        is_flat(record),
    ensures
        toggled(toggled(record)) == record,
        has_id(toggled(record), id) == has_id(record, id),
{
    reveal_strlit("Flagged");
    reveal_strlit("EventRecordID");
    assert("Flagged"@.len() != "EventRecordID"@.len());
    let flag = "Flagged"@;
    let b = lookup(record, flag)->0->Bool_0;
    let i = index_of(record, flag);
    lemma_has_key(record, flag);
    let once = insert(record, flag, ValueView::Bool(!b));
    lemma_insert(record, flag, ValueView::Bool(!b));
    lemma_index_of(once, flag, i);
    assert(insert(once, flag, ValueView::Bool(b)) =~= record);
}

/// Law of the toggle: two toggles of one identifier leave every record as it was.
pub proof fn law_toggle_twice(events: Seq<RecordView>, id: u64)
    requires
        all_flat(events),
        all_distinct(events),
    ensures
        flagged(flagged(events, id), id) == events,
{
    let once = flagged(events, id);
    assert forall|i: int| 0 <= i < events.len() implies flagged(once, id)[i] == events[i] by {
        lemma_toggled_twice(events[i], id);
    }
    assert(flagged(once, id) =~= events);
}

} // verus!
