use crate::ingest::texts;
use vstd::prelude::*;
use vstd::string::StringExecFns;

verus! {

/// The parts, with the separator between each two.
pub open spec fn joined(parts: Seq<Seq<char>>, separator: Seq<char>) -> Seq<char>
    decreases parts.len(),
{
    if parts.len() == 0 {
        Seq::empty()
    } else if parts.len() == 1 {
        parts[0]
    } else {
        joined(parts.drop_last(), separator) + separator + parts.last()
    }
}

/// The header line: the column names with commas between them, and a line feed.
pub open spec fn csv_header(columns: Seq<Seq<char>>) -> Seq<char> {
    joined(columns, ","@) + "\n"@
}

/// The text of a cell: empty where the record has nothing in the column.
pub open spec fn cell_text(cell: Option<Seq<char>>) -> Seq<char> {
    match cell {
        Some(text) => text,
        None => Seq::empty(),
    }
}

/// The texts of a row's cells, one for each cell.
pub open spec fn cell_texts(cells: Seq<Option<Seq<char>>>) -> Seq<Seq<char>> {
    Seq::new(cells.len(), |j: int| cell_text(cells[j]))
}

/// The fields of a row: each cell's text as it is, with commas between them, so that a row
/// has as many fields as it has cells.
pub open spec fn csv_fields(cells: Seq<Option<Seq<char>>>) -> Seq<char> {
    joined(cell_texts(cells), ","@)
}

/// The rows, each made of its fields and a line feed.
pub open spec fn csv_rows(rows: Seq<Seq<Option<Seq<char>>>>) -> Seq<char>
    decreases rows.len(),
{
    if rows.len() == 0 {
        Seq::empty()
    } else {
        csv_rows(rows.drop_last()) + csv_fields(rows.last()) + "\n"@
    }
}

/// The whole document: the header line, then one row for each run of cells.
pub open spec fn csv_text(columns: Seq<Seq<char>>, rows: Seq<Seq<Option<Seq<char>>>>) -> Seq<
    char,
> {
    csv_header(columns) + csv_rows(rows)
}

/// The views of a row's cells.
pub open spec fn cell_views(cells: Seq<Option<String>>) -> Seq<Option<Seq<char>>> {
    Seq::new(
        cells.len(),
        |j: int|
            match cells[j] {
                Some(text) => Some(text@),
                None => None,
            },
    )
}

/// The views of a run of rows.
pub open spec fn row_views(rows: Seq<Vec<Option<String>>>) -> Seq<Seq<Option<Seq<char>>>> {
    Seq::new(rows.len(), |i: int| cell_views(rows[i]@))
}

/// Appends the header line to `out`.
pub fn push_header(out: &mut String, columns: &Vec<String>)
    ensures
        final(out)@ == old(out)@ + csv_header(texts(columns@)),
{
    let ghost start = out@;
    let ghost names = texts(columns@);
    let mut j: usize = 0;
    assert(names.take(0) =~= Seq::<Seq<char>>::empty());
    while j < columns.len()
        invariant
            j <= columns.len(),
            names == texts(columns@),
            out@ == start + joined(names.take(j as int), ","@),
        decreases columns.len() - j,
    {
        proof {
            let next = names.take(j + 1);
            assert(next.drop_last() =~= names.take(j as int));
            assert(next.last() == columns@[j as int]@);
            if j == 0 {
                assert(joined(next, ","@) =~= columns@[j as int]@);
            }
        }
        if j > 0 {
            out.append(",");
        }
        out.append(columns[j].as_str());
        assert(out@ =~= start + joined(names.take(j + 1), ","@));
        j += 1;
    }
    assert(names.take(j as int) =~= names);
    out.append("\n");
    assert(out@ =~= start + csv_header(names));
}

/// Appends one row to `out`.
pub fn push_row(out: &mut String, cells: &Vec<Option<String>>)
    ensures
        final(out)@ == old(out)@ + csv_fields(cell_views(cells@)) + "\n"@,
{
    let ghost start = out@;
    let ghost fields = cell_texts(cell_views(cells@));
    let mut j: usize = 0;
    assert(fields.take(0) =~= Seq::<Seq<char>>::empty());
    while j < cells.len()
        invariant
            j <= cells.len(),
            fields == cell_texts(cell_views(cells@)),
            out@ == start + joined(fields.take(j as int), ","@),
        decreases cells.len() - j,
    {
        proof {
            let next = fields.take(j + 1);
            assert(next.drop_last() =~= fields.take(j as int));
            assert(next.last() == cell_text(cell_views(cells@)[j as int]));
            if j == 0 {
                assert(joined(next, ","@) =~= next.last());
            }
        }
        if j > 0 {
            out.append(",");
        }
        match &cells[j] {
            Some(text) => {
                out.append(text.as_str());
            },
            None => {},
        }
        assert(out@ =~= start + joined(fields.take(j + 1), ","@));
        j += 1;
    }
    assert(fields.take(j as int) =~= fields);
    out.append("\n");
}

/// The document made of the column names and the rows of cell texts.
pub fn csv_document(columns: &Vec<String>, rows: &Vec<Vec<Option<String>>>) -> (out: String)
    ensures
        out@ == csv_text(texts(columns@), row_views(rows@)),
{
    let mut out = String::new();
    push_header(&mut out, columns);
    let ghost head = out@;
    let ghost all = row_views(rows@);
    let mut i: usize = 0;
    assert(all.take(0) =~= Seq::<Seq<Option<Seq<char>>>>::empty());
    assert(out@ =~= head + csv_rows(all.take(0)));
    while i < rows.len()
        invariant
            i <= rows.len(),
            all == row_views(rows@),
            out@ == head + csv_rows(all.take(i as int)),
        decreases rows.len() - i,
    {
        proof {
            let next = all.take(i + 1);
            assert(next.drop_last() =~= all.take(i as int));
            assert(next.last() == cell_views(rows@[i as int]@));
        }
        push_row(&mut out, &rows[i]);
        assert(out@ =~= head + csv_rows(all.take(i + 1)));
        i += 1;
    }
    assert(all.take(i as int) =~= all);
    out
}

} // verus!
