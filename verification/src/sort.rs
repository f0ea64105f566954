use crate::filter::Column;
use crate::ingest::views;
use crate::model::{lookup, RecordView, ValueView};
use crate::text::{
    chars_less, chars_of, is_less, lemma_text_less_one_way, lemma_text_less_total,
    lemma_text_less_transitive, text_less,
};
use crate::value::{Record, Value};
use vstd::prelude::*;

verus! {

/// The column to sort by, and the direction.
#[derive(Debug, PartialEq)]
pub struct SortBy {
    pub column: Column,
    pub ascending: bool,
}

/// The mathematical model of a [`SortBy`]: the column's name and the direction.
pub struct SortView {
    pub column: Seq<char>,
    pub ascending: bool,
}

impl View for SortBy {
    type V = SortView;

    open spec fn view(&self) -> SortView {
        SortView { column: self.column.name@, ascending: self.ascending }
    }
}

impl Clone for SortBy {
    fn clone(&self) -> (r: Self)
        ensures
            r@ == self@,
    {
        SortBy { column: self.column.clone(), ascending: self.ascending }
    }
}

/// The view of a sort that may be absent.
pub open spec fn sort_view(sort_by: Option<&SortBy>) -> Option<SortView> {
    match sort_by {
        Some(by) => Some(by@),
        None => None,
    }
}

/// That by which a record is ordered: the text or the unsigned integer that it holds in the
/// column. A record that holds anything else there, or nothing, has no key.
pub enum SortKey {
    Text(Seq<char>),
    Number(u64),
    Nothing,
}

/// The key of a record in a column.
pub open spec fn sort_key(record: RecordView, column: Seq<char>) -> SortKey {
    match lookup(record, column) {
        Some(ValueView::String(s)) => SortKey::Text(s),
        Some(ValueView::Number(n)) => match n.uint_reading() {
            Some(u) => SortKey::Number(u),
            None => SortKey::Nothing,
        },
        _ => SortKey::Nothing,
    }
}

/// `a` is ordered before `b`: two texts by the lexicographic order, two numbers by size. Keys
/// of different kinds, and a record without a key, are ordered before nothing and after
/// nothing.
pub open spec fn key_less(a: SortKey, b: SortKey) -> bool {
    match (a, b) {
        (SortKey::Text(s), SortKey::Text(t)) => text_less(s, t),
        (SortKey::Number(x), SortKey::Number(y)) => x < y,
        _ => false,
    }
}

/// Record `a` is ordered before record `b` by the column.
pub open spec fn comes_before(a: RecordView, b: RecordView, column: Seq<char>) -> bool {
    key_less(sort_key(a, column), sort_key(b, column))
}

/// Where `x` goes into a sorted run: behind the last record that it is not ordered before.
pub open spec fn insertion_point(sorted: Seq<RecordView>, x: RecordView, column: Seq<char>) -> int
    decreases sorted.len(),
{
    if sorted.len() == 0 {
        0
    } else if comes_before(x, sorted.last(), column) {
        insertion_point(sorted.drop_last(), x, column)
    } else {
        sorted.len() as int
    }
}

/// The records in ascending order of the column: each record, first to last, is put behind
/// the last of those already placed that it is not ordered before.
pub open spec fn sorted_by(events: Seq<RecordView>, column: Seq<char>) -> Seq<RecordView>
    decreases events.len(),
{
    if events.len() == 0 {
        events
    } else {
        let before = sorted_by(events.drop_last(), column);
        before.insert(insertion_point(before, events.last(), column), events.last())
    }
}

/// The records as a query orders them: as they are without a sort, in ascending order of the
/// column with one, and that order reversed where the sort is descending.
pub open spec fn ordered(events: Seq<RecordView>, sort: Option<SortView>) -> Seq<RecordView> {
    match sort {
        None => events,
        Some(by) => if by.ascending {
            sorted_by(events, by.column)
        } else {
            sorted_by(events, by.column).reverse()
        },
    }
}

/// The insertion point lies within the run.
proof fn lemma_insertion_point_bounds(sorted: Seq<RecordView>, x: RecordView, column: Seq<char>)
    ensures
        0 <= insertion_point(sorted, x, column) <= sorted.len(),
    decreases sorted.len(),
{
    if sorted.len() > 0 && comes_before(x, sorted.last(), column) {
        lemma_insertion_point_bounds(sorted.drop_last(), x, column);
    }
}

/// Sorting keeps the number of records.
pub proof fn lemma_sorted_len(events: Seq<RecordView>, column: Seq<char>)
    ensures
        sorted_by(events, column).len() == events.len(),
    decreases events.len(),
{
    if events.len() > 0 {
        lemma_sorted_len(events.drop_last(), column);
        lemma_insertion_point_bounds(
            sorted_by(events.drop_last(), column),
            events.last(),
            column,
        );
    }
}

/// Whether record `a` is ordered before record `b` by the column.
pub fn is_before(a: &Record, b: &Record, column: &str) -> (r: bool)
    ensures
        r == comes_before(a@, b@, column@),
{
    match a.get(column) {
        Some(Value::String(s)) => match b.get(column) {
            Some(Value::String(t)) => is_less(s.as_str(), t.as_str()),
            _ => false,
        },
        Some(Value::Number(n)) => match n.as_u64() {
            Some(x) => match b.get(column) {
                Some(Value::Number(m)) => match m.as_u64() {
                    Some(y) => x < y,
                    None => false,
                },
                _ => false,
            },
            None => false,
        },
        _ => false,
    }
}

/// The key of a record, taken out of it once for the many comparisons of a sort.
enum Key {
    Text(Vec<char>),
    Number(u64),
    Nothing,
}

impl View for Key {
    type V = SortKey;

    closed spec fn view(&self) -> SortKey {
        match self {
            Key::Text(s) => SortKey::Text(s@),
            Key::Number(n) => SortKey::Number(*n),
            Key::Nothing => SortKey::Nothing,
        }
    }
}

/// The key of a record in a column.
fn key_of(record: &Record, column: &str) -> (key: Key)
    ensures
        key@ == sort_key(record@, column@),
{
    match record.get(column) {
        Some(Value::String(s)) => Key::Text(chars_of(s.as_str())),
        Some(Value::Number(n)) => match n.as_u64() {
            Some(u) => Key::Number(u),
            None => Key::Nothing,
        },
        _ => Key::Nothing,
    }
}

/// Whether key `a` is ordered before key `b`.
fn key_before(a: &Key, b: &Key) -> (r: bool)
    ensures
        r == key_less(a@, b@),
{
    match a {
        Key::Text(s) => match b {
            Key::Text(t) => chars_less(s, t),
            _ => false,
        },
        Key::Number(x) => match b {
            Key::Number(y) => *x < *y,
            _ => false,
        },
        Key::Nothing => false,
    }
}

/// The keys of the records in a column.
fn keys_of_events(events: &Vec<Record>, column: &str) -> (keys: Vec<Key>)
    ensures
        keys@.len() == events@.len(),
        forall|i: int|
            0 <= i < keys@.len() ==> (#[trigger] keys@[i])@ == sort_key(events@[i]@, column@),
{
    let mut keys: Vec<Key> = Vec::new();
    let mut i: usize = 0;
    while i < events.len()
        invariant
            i <= events.len(),
            keys@.len() == i,
            forall|k: int|
                0 <= k < i ==> (#[trigger] keys@[k])@ == sort_key(events@[k]@, column@),
        decreases events.len() - i,
    {
        keys.push(key_of(&events[i], column));
        i += 1;
    }
    keys
}

/// The records at the positions `order`, in that order.
spec fn picked(events: Seq<RecordView>, order: Seq<usize>) -> Seq<RecordView> {
    Seq::new(order.len(), |k: int| events[order[k] as int])
}

/// The positions of the records in ascending order of the column.
fn sorted_positions(events: &Vec<Record>, column: &str) -> (order: Vec<usize>)
    ensures
        order@.len() == events@.len(),
        forall|k: int| 0 <= k < order@.len() ==> (#[trigger] order@[k]) < events@.len(),
        picked(views(events@), order@) == sorted_by(views(events@), column@),
{
    let ghost all = views(events@);
    let keys = keys_of_events(events, column);
    let mut order: Vec<usize> = Vec::new();
    let mut i: usize = 0;
    assert(all.take(0) =~= Seq::<RecordView>::empty());
    assert(picked(all, order@) =~= sorted_by(all.take(0), column@));
    while i < events.len()
        invariant
            i <= events.len(),
            all == views(events@),
            keys@.len() == events@.len(),
            forall|k: int|
                0 <= k < keys@.len() ==> (#[trigger] keys@[k])@ == sort_key(all[k], column@),
            order@.len() == i,
            forall|k: int| 0 <= k < order@.len() ==> (#[trigger] order@[k]) < i,
            picked(all, order@) == sorted_by(all.take(i as int), column@),
        decreases events.len() - i,
    {
        let ghost placed = picked(all, order@);
        let mut at: usize = order.len();
        assert(placed.take(at as int) =~= placed);
        while at > 0 && key_before(&keys[i], &keys[order[at - 1]])
            invariant
                at <= order@.len(),
                order@.len() == i,
                i < events.len(),
                all == views(events@),
                keys@.len() == events@.len(),
                forall|k: int|
                    0 <= k < keys@.len() ==> (#[trigger] keys@[k])@ == sort_key(all[k], column@),
                placed == picked(all, order@),
                forall|k: int| 0 <= k < order@.len() ==> (#[trigger] order@[k]) < i,
                insertion_point(placed, all[i as int], column@) == insertion_point(
                    placed.take(at as int),
                    all[i as int],
                    column@,
                ),
            decreases at,
        {
            proof {
                let run = placed.take(at as int);
                assert(run.last() == all[order@[at - 1] as int]);
                assert(run.drop_last() =~= placed.take(at - 1));
            }
            at -= 1;
        }
        proof {
            let run = placed.take(at as int);
            if at > 0 {
                assert(run.last() == all[order@[at - 1] as int]);
            }
            assert(insertion_point(placed, all[i as int], column@) == at);
            let next = all.take(i + 1);
            assert(next.drop_last() =~= all.take(i as int));
            assert(next.last() == all[i as int]);
        }
        order.insert(at, i);
        assert(picked(all, order@) =~= placed.insert(at as int, all[i as int]));
        i += 1;
    }
    assert(all.take(i as int) =~= all);
    order
}

/// Orders the records as the sort says. Without a sort they stay as they are.
///
/// The sort places one record after the other by insertion: it takes time linear in the
/// number of records where they are in order already, and quadratic at worst.
pub fn sort_events(events: Vec<Record>, sort_by: Option<&SortBy>) -> (r: Vec<Record>)
    ensures
        views(r@) == ordered(views(events@), sort_view(sort_by)),
{
    match sort_by {
        None => events,
        Some(by) => {
            let order = sorted_positions(&events, by.column.name.as_str());
            let ghost all = views(events@);
            let ghost sorted = sorted_by(all, by.column.name@);
            let n = order.len();
            let mut out: Vec<Record> = Vec::new();
            let mut k: usize = 0;
            while k < n
                invariant
                    k <= n,
                    n == order@.len(),
                    n == events@.len(),
                    all == views(events@),
                    sorted == picked(all, order@),
                    forall|j: int| 0 <= j < order@.len() ==> (#[trigger] order@[j]) < events@.len(),
                    out@.len() == k,
                    forall|j: int|
                        0 <= j < k ==> (#[trigger] out@[j])@ == (if by.ascending {
                            sorted[j]
                        } else {
                            sorted[n - 1 - j]
                        }),
                decreases n - k,
            {
                let from: usize = if by.ascending {
                    k
                } else {
                    n - 1 - k
                };
                let item = events[order[from]].clone();
                assert(item@ == sorted[from as int]);
                out.push(item);
                k += 1;
            }
            proof {
                if by.ascending {
                    assert(views(out@) =~= sorted);
                } else {
                    assert(views(out@) =~= sorted.reverse());
                }
            }
            out
        },
    }
}

/// Law of the descending sort: it is the ascending sort read from its end, whatever the
/// records hold in the column.
pub proof fn law_descending_reverses(events: Seq<RecordView>, column: Seq<char>)
    ensures
        ordered(events, Some(SortView { column, ascending: false })) == ordered(
            events,
            Some(SortView { column, ascending: true }),
        ).reverse(),
{
}

/// Law of sorting: the sorted records are the records, each as often as before.
pub proof fn law_sorted_permutes(events: Seq<RecordView>, column: Seq<char>)
    ensures
        sorted_by(events, column).to_multiset() == events.to_multiset(),
    decreases events.len(),
{
    broadcast use vstd::seq_lib::group_to_multiset_ensures;

    if events.len() == 0 {
    } else {
        let rest = events.drop_last();
        let before = sorted_by(rest, column);
        let at = insertion_point(before, events.last(), column);
        law_sorted_permutes(rest, column);
        lemma_insertion_point_bounds(before, events.last(), column);
        let after = before.insert(at, events.last());
        assert(after.remove(at) =~= before);
        assert(after[at] == events.last());
        assert(after.to_multiset() =~= before.to_multiset().insert(events.last())) by {
            assert(after.contains(events.last()));
            assert(after.remove(at).to_multiset() == after.to_multiset().remove(after[at]));
        }
        assert(rest.push(events.last()) =~= events);
    }
}

/// No record of the run is ordered before the one in front of it.
pub open spec fn in_order(events: Seq<RecordView>, column: Seq<char>) -> bool {
    forall|i: int| 0 <= i < events.len() - 1 ==> !comes_before(#[trigger] events[i + 1], events[i], column)
}

/// A record put at its insertion point leaves a run in order.
proof fn lemma_insert_in_order(sorted: Seq<RecordView>, x: RecordView, column: Seq<char>)
    requires
        in_order(sorted, column),
    ensures
        in_order(sorted.insert(insertion_point(sorted, x, column), x), column),
{
    let at = insertion_point(sorted, x, column);
    lemma_insertion_point_sides(sorted, x, column);
    let after = sorted.insert(at, x);
    assert forall|i: int| 0 <= i < after.len() - 1 implies !comes_before(
        #[trigger] after[i + 1],
        after[i],
        column,
    ) by {
        if i + 1 < at {
            assert(after[i + 1] == sorted[i + 1] && after[i] == sorted[i]);
        } else if i + 1 == at {
            assert(after[i + 1] == x && after[i] == sorted[at - 1]);
        } else if i == at {
            assert(after[i] == x && after[i + 1] == sorted[at]);
            lemma_key_less_one_way(x, sorted[at], column);
        } else {
            assert(after[i + 1] == sorted[i] && after[i] == sorted[i - 1]);
            assert(!comes_before(sorted[(i - 1) + 1], sorted[i - 1], column));
        }
    }
}

/// Of two records at most one is ordered before the other.
proof fn lemma_key_less_one_way(a: RecordView, b: RecordView, column: Seq<char>)
    requires
        comes_before(a, b, column),
    ensures
        !comes_before(b, a, column),
{
    match (sort_key(a, column), sort_key(b, column)) {
        (SortKey::Text(s), SortKey::Text(t)) => {
            lemma_text_less_one_way(s, t);
        },
        _ => {},
    }
}

/// Law of sorting: in the sorted run no record is ordered before the one in front of it.
pub proof fn law_sorted_in_order(events: Seq<RecordView>, column: Seq<char>)
    ensures
        in_order(sorted_by(events, column), column),
    decreases events.len(),
{
    if events.len() > 0 {
        law_sorted_in_order(events.drop_last(), column);
        lemma_insert_in_order(sorted_by(events.drop_last(), column), events.last(), column);
    }
}

/// Every record has a text in the column.
pub open spec fn all_text(events: Seq<RecordView>, column: Seq<char>) -> bool {
    forall|i: int| 0 <= i < events.len() ==> sort_key(#[trigger] events[i], column) is Text
}

/// Every record has an unsigned integer in the column.
pub open spec fn all_numbers(events: Seq<RecordView>, column: Seq<char>) -> bool {
    forall|i: int| 0 <= i < events.len() ==> sort_key(#[trigger] events[i], column) is Number
}

/// The records have keys of one kind: every one a text, or every one an unsigned integer.
pub open spec fn uniform_keys(events: Seq<RecordView>, column: Seq<char>) -> bool {
    all_text(events, column) || all_numbers(events, column)
}

/// No record of the run is ordered before any record in front of it.
pub open spec fn fully_sorted(events: Seq<RecordView>, column: Seq<char>) -> bool {
    forall|i: int, j: int|
        0 <= i < j < events.len() ==> !comes_before(#[trigger] events[j], #[trigger] events[i], column)
}

/// Among three keys of one kind, what is not before the second is not before anything that
/// the second is not before.
proof fn lemma_not_before_chain(x: SortKey, m: SortKey, e: SortKey)
    requires
        (x is Text && m is Text && e is Text) || (x is Number && m is Number && e is Number),
        !key_less(x, m),
        !key_less(m, e),
    ensures
        !key_less(x, e),
{
    match (x, m, e) {
        (SortKey::Text(a), SortKey::Text(b), SortKey::Text(c)) => {
            if text_less(a, c) {
                lemma_text_less_total(a, b);
                if b != a {
                    lemma_text_less_transitive(b, a, c);
                }
            }
        },
        _ => {},
    }
}

/// Everything from the insertion point on is a record that `x` is ordered before, and the
/// record in front of the insertion point is one that `x` is not ordered before.
proof fn lemma_insertion_point_sides(sorted: Seq<RecordView>, x: RecordView, column: Seq<char>)
    ensures
        0 <= insertion_point(sorted, x, column) <= sorted.len(),
        forall|j: int|
            insertion_point(sorted, x, column) <= j < sorted.len() ==> comes_before(
                x,
                #[trigger] sorted[j],
                column,
            ),
        insertion_point(sorted, x, column) > 0 ==> !comes_before(
            x,
            sorted[insertion_point(sorted, x, column) - 1],
            column,
        ),
    decreases sorted.len(),
{
    if sorted.len() > 0 && comes_before(x, sorted.last(), column) {
        let rest = sorted.drop_last();
        lemma_insertion_point_sides(rest, x, column);
        assert forall|j: int|
            insertion_point(sorted, x, column) <= j < sorted.len() implies comes_before(
            x,
            #[trigger] sorted[j],
            column,
        ) by {
            if j < sorted.len() - 1 {
                assert(rest[j] == sorted[j]);
            }
        }
        if insertion_point(sorted, x, column) > 0 {
            assert(rest[insertion_point(sorted, x, column) - 1] == sorted[insertion_point(
                sorted,
                x,
                column,
            ) - 1]);
        }
    }
}

/// A record put at its insertion point leaves a fully sorted run of keys of its kind fully
/// sorted.
proof fn lemma_insert_fully_sorted(sorted: Seq<RecordView>, x: RecordView, column: Seq<char>)
    requires
        fully_sorted(sorted, column),
        uniform_keys(sorted.push(x), column),
    ensures
        fully_sorted(sorted.insert(insertion_point(sorted, x, column), x), column),
{
    let at = insertion_point(sorted, x, column);
    let all = sorted.push(x);
    let after = sorted.insert(at, x);
    lemma_insertion_point_sides(sorted, x, column);
    assert(all[sorted.len() as int] == x);
    assert forall|i: int, j: int| 0 <= i < j < after.len() implies !comes_before(
        #[trigger] after[j],
        #[trigger] after[i],
        column,
    ) by {
        if j < at {
            assert(after[i] == sorted[i] && after[j] == sorted[j]);
        } else if j == at {
            assert(after[j] == x && after[i] == sorted[i]);
            if i < at - 1 {
                assert(all[i] == sorted[i] && all[at - 1] == sorted[at - 1]);
                assert(!comes_before(sorted[at - 1], sorted[i], column));
                lemma_not_before_chain(
                    sort_key(x, column),
                    sort_key(sorted[at - 1], column),
                    sort_key(sorted[i], column),
                );
            }
        } else if i == at {
            assert(after[i] == x && after[j] == sorted[j - 1]);
            lemma_key_less_one_way(x, sorted[j - 1], column);
        } else if i < at {
            assert(after[i] == sorted[i] && after[j] == sorted[j - 1]);
        } else {
            assert(after[i] == sorted[i - 1] && after[j] == sorted[j - 1]);
        }
    }
}

/// Sorting keeps the kind of the keys.
proof fn lemma_sorted_keeps_kind(events: Seq<RecordView>, column: Seq<char>)
    ensures
        all_text(events, column) ==> all_text(sorted_by(events, column), column),
        all_numbers(events, column) ==> all_numbers(sorted_by(events, column), column),
    decreases events.len(),
{
    if events.len() > 0 {
        let rest = events.drop_last();
        let before = sorted_by(rest, column);
        let at = insertion_point(before, events.last(), column);
        let after = before.insert(at, events.last());
        lemma_sorted_keeps_kind(rest, column);
        lemma_insertion_point_bounds(before, events.last(), column);
        assert(events[events.len() - 1] == events.last());
        assert forall|i: int| 0 <= i < rest.len() implies #[trigger] rest[i] == events[i] by {}
        if all_text(events, column) {
            assert(all_text(rest, column));
            assert forall|i: int| 0 <= i < after.len() implies sort_key(
                #[trigger] after[i],
                column,
            ) is Text by {
                if i < at {
                    assert(after[i] == before[i]);
                } else if i > at {
                    assert(after[i] == before[i - 1]);
                }
            }
        }
        if all_numbers(events, column) {
            assert(all_numbers(rest, column));
            assert forall|i: int| 0 <= i < after.len() implies sort_key(
                #[trigger] after[i],
                column,
            ) is Number by {
                if i < at {
                    assert(after[i] == before[i]);
                } else if i > at {
                    assert(after[i] == before[i - 1]);
                }
            }
        }
    }
}

/// Law of sorting among keys of one kind: where every record has a text in the column, or
/// every record an unsigned integer, no record of the sorted run is ordered before any
/// record in front of it.
pub proof fn law_sorted_total(events: Seq<RecordView>, column: Seq<char>)
    requires
        uniform_keys(events, column),
    ensures
        fully_sorted(sorted_by(events, column), column),
    decreases events.len(),
{
    if events.len() > 0 {
        let rest = events.drop_last();
        let x = events.last();
        let before = sorted_by(rest, column);
        assert(events[events.len() - 1] == x);
        assert forall|i: int| 0 <= i < rest.len() implies #[trigger] rest[i] == events[i] by {}
        assert(uniform_keys(rest, column));
        law_sorted_total(rest, column);
        lemma_sorted_keeps_kind(rest, column);
        assert(uniform_keys(before.push(x), column)) by {
            let all = before.push(x);
            assert forall|i: int| 0 <= i < all.len() implies #[trigger] all[i] == (if i
                < before.len() {
                before[i]
            } else {
                x
            }) by {}
        }
        lemma_insert_fully_sorted(before, x, column);
    }
}

/// Where the item at position `k` stood before an item went in at position `at`.
spec fn shifted(k: int, at: int) -> int {
    if k < at {
        k
    } else {
        k - 1
    }
}

/// Where each record of the sorted run stood before the sort: the positions `0`, `1`, and so
/// on, moved as the records are.
pub open spec fn sort_order(events: Seq<RecordView>, column: Seq<char>) -> Seq<int>
    decreases events.len(),
{
    if events.len() == 0 {
        Seq::empty()
    } else {
        sort_order(events.drop_last(), column).insert(
            insertion_point(sorted_by(events.drop_last(), column), events.last(), column),
            events.len() - 1,
        )
    }
}

/// Law of the stable sort: the sorted run holds each record of the run at one place, and a
/// record stands in front of one that it stood behind only where it is ordered before it. So
/// records of which neither is ordered before the other keep their order.
pub proof fn law_sorted_stable(events: Seq<RecordView>, column: Seq<char>)
    ensures
        sort_order(events, column).len() == events.len(),
        sorted_by(events, column).len() == events.len(),
        forall|k: int|
            0 <= k < events.len() ==> 0 <= (#[trigger] sort_order(events, column)[k]) < events.len()
                && sorted_by(events, column)[k] == events[sort_order(events, column)[k]],
        forall|a: int, b: int|
            0 <= a < b < events.len() ==> (#[trigger] sort_order(events, column)[a])
                != (#[trigger] sort_order(events, column)[b]),
        forall|a: int, b: int|
            0 <= a < b < events.len() && (#[trigger] sort_order(events, column)[a])
                > (#[trigger] sort_order(events, column)[b]) ==> comes_before(
                events[sort_order(events, column)[a]],
                events[sort_order(events, column)[b]],
                column,
            ),
    decreases events.len(),
{
    if events.len() > 0 {
        let rest = events.drop_last();
        let x = events.last();
        let before = sorted_by(rest, column);
        let places = sort_order(rest, column);
        let at = insertion_point(before, x, column);
        let order = sort_order(events, column);
        let sorted = sorted_by(events, column);
        law_sorted_stable(rest, column);
        lemma_insertion_point_sides(before, x, column);
        assert(events[events.len() - 1] == x);
        assert forall|k: int| 0 <= k < events.len() implies #[trigger] order[k] == (if k < at {
            places[k]
        } else if k == at {
            events.len() - 1
        } else {
            places[k - 1]
        }) && sorted[k] == (if k < at {
            before[k]
        } else if k == at {
            x
        } else {
            before[k - 1]
        }) by {}
        assert forall|k: int| 0 <= k < events.len() implies 0 <= (#[trigger] order[k])
            < events.len() && sorted[k] == events[order[k]] by {
            if k < at {
                assert(rest[places[k]] == events[places[k]]);
            } else if k > at {
                assert(rest[places[k - 1]] == events[places[k - 1]]);
            }
        }
        assert forall|a: int, b: int| 0 <= a < b < events.len() implies #[trigger] order[a]
            != #[trigger] order[b] by {
            if a != at && b != at {
                assert(places[shifted(a, at)] != places[shifted(b, at)]);
            }
        }
        assert forall|a: int, b: int|
            0 <= a < b < events.len() && #[trigger] order[a] > #[trigger] order[b] implies comes_before(
            events[order[a]],
            events[order[b]],
            column,
        ) by {
            if a == at {
                assert(order[b] == places[b - 1]);
                assert(before[b - 1] == rest[places[b - 1]]);
                assert(rest[places[b - 1]] == events[places[b - 1]]);
            } else if b != at {
                let pa = shifted(a, at);
                let pb = shifted(b, at);
                assert(places[pa] > places[pb]);
                assert(rest[places[pa]] == events[places[pa]]);
                assert(rest[places[pb]] == events[places[pb]]);
            }
        }
    }
}

} // verus!
