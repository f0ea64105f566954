use crate::ingest::views;
use crate::value::Record;
use vstd::prelude::*;

verus! {

/// What a query hands back: one page of records, and the numbers that go with it.
#[derive(Debug, PartialEq)]
pub struct PageResult {
    /// The records of the page.
    pub events: Vec<Record>,
    /// The column names of the store; sent with a load only.
    pub column_names: Option<Vec<String>>,
    /// The page number, counted from 1.
    pub page_num: usize,
    /// The page size that was asked for.
    pub page_size: usize,
    /// The number of records that the page was cut from.
    pub total_events: usize,
}

/// Where page `page` of size `size` starts among `total` items: behind the pages before it,
/// or at the first item where that lies behind the last.
pub open spec fn page_start(total: int, page: int, size: int) -> int {
    if (page - 1) * size >= total {
        0
    } else {
        (page - 1) * size
    }
}

/// Where the page ends: `size` items behind its start, or with the last item.
pub open spec fn page_end(total: int, page: int, size: int) -> int {
    if page_start(total, page, size) + size <= total {
        page_start(total, page, size) + size
    } else {
        total
    }
}

/// The items of page `page`.
pub open spec fn page_of<T>(items: Seq<T>, page: int, size: int) -> Seq<T> {
    items.subrange(
        page_start(items.len() as int, page, size),
        page_end(items.len() as int, page, size),
    )
}

/// The bounds of page `page` among `total` items; `None` where the page number or the page
/// size is zero.
pub fn page_bounds(total: usize, page: usize, size: usize) -> (r: Option<(usize, usize)>)
    ensures
        match r {
            Some((start, end)) => page >= 1 && size >= 1 && start == page_start(
                total as int,
                page as int,
                size as int,
            ) && end == page_end(total as int, page as int, size as int) && start <= end <= total,
            None => page == 0 || size == 0,
        },
{
    if page == 0 || size == 0 {
        return None;
    }
    let start: usize = match (page - 1).checked_mul(size) {
        Some(first) => if first >= total {
            0
        } else {
            first
        },
        None => 0,
    };
    let end: usize = if size <= total - start {
        start + size
    } else {
        total
    };
    Some((start, end))
}

/// The records from `start` up to `end`.
pub(crate) fn slice_events(events: &Vec<Record>, start: usize, end: usize) -> (r: Vec<Record>)
    requires
        start <= end <= events@.len(),
    ensures
        views(r@) == views(events@).subrange(start as int, end as int),
{
    let mut out: Vec<Record> = Vec::new();
    let mut i: usize = start;
    while i < end
        invariant
            start <= i <= end,
            end <= events@.len(),
            out@.len() == i - start,
            forall|k: int| 0 <= k < out@.len() ==> (#[trigger] out@[k])@ == events@[start + k]@,
        decreases end - i,
    {
        out.push(events[i].clone());
        i += 1;
    }
    assert(views(out@) =~= views(events@).subrange(start as int, end as int));
    out
}

/// The pages 1 to `count`, one behind the other.
pub open spec fn pages_joined<T>(items: Seq<T>, size: int, count: int) -> Seq<T>
    decreases count,
{
    if count <= 0 {
        Seq::empty()
    } else {
        pages_joined(items, size, count - 1) + page_of(items, count, size)
    }
}

/// The number of pages of size `size` that `total` items fill: `total` over `size`, rounded
/// up.
pub open spec fn page_count(total: int, size: int) -> int {
    (total + size - 1) / size
}

/// The first `count` pages hold the first `count * size` items, as long as the pages before
/// the last of them are full.
proof fn lemma_pages_prefix<T>(items: Seq<T>, size: int, count: int)
    requires
        size > 0,
        count >= 0,
        (count - 1) * size < items.len() || count == 0,
    ensures
        pages_joined(items, size, count) == items.take(
            if count * size <= items.len() {
                count * size
            } else {
                items.len() as int
            },
        ),
    decreases count,
{
    if count == 0 {
        assert(items.take(0) =~= Seq::<T>::empty());
    } else {
        assert((count - 1) * size >= 0) by (nonlinear_arith)
            requires
                count >= 1,
                size > 0,
        ;
        assert(count * size == (count - 1) * size + size) by (nonlinear_arith);
        if count > 1 {
            assert((count - 2) * size < (count - 1) * size) by (nonlinear_arith)
                requires
                    size > 0,
            ;
        }
        lemma_pages_prefix(items, size, count - 1);
        let start = (count - 1) * size;
        assert(page_start(items.len() as int, count, size) == start);
        let end = page_end(items.len() as int, count, size);
        assert(pages_joined(items, size, count - 1) == items.take(start));
        assert(items.take(start) + items.subrange(start, end) =~= items.take(end));
    }
}

/// Law of pagination: for a page size above zero, the pages 1 to the page count, one behind
/// the other, are the whole sequence, each item once and in its place.
pub proof fn law_pages_cover<T>(items: Seq<T>, size: int)
    requires
        size > 0,
    ensures
        pages_joined(items, size, page_count(items.len() as int, size)) == items,
{
    let total = items.len() as int;
    let count = page_count(total, size);
    assert(count >= 0 && count * size >= total && (count == 0 || (count - 1) * size < total))
        by (nonlinear_arith)
        requires
            size > 0,
            total >= 0,
            count == (total + size - 1) / size,
    ;
    lemma_pages_prefix(items, size, count);
    if count * size <= total {
        assert(items.take(count * size) =~= items);
    } else {
        assert(items.take(total) =~= items);
    }
}

} // verus!
