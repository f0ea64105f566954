use crate::model::{
    distinct_keys, has_key, index_of, insert, lemma_index_of, lemma_insert, lemma_remove, lookup,
    merge, remove, Number, RecordView, ValueView,
};
use crate::text::same_text;
use vstd::prelude::*;

verus! {

/// A decoded value: a tree of nulls, booleans, numbers, texts, arrays and objects.
#[derive(Debug, PartialEq)]
pub enum Value {
    Null,
    Bool(bool),
    Number(Number),
    String(String),
    Array(Vec<Value>),
    Object(Record),
}

/// An ordered mapping from keys to values in which no key occurs twice.
#[derive(Debug, PartialEq)]
pub struct Record {
    entries: Vec<(String, Value)>,
}

impl View for Value {
    type V = ValueView;

    open spec fn view(&self) -> ValueView
        decreases self,
    {
        match self {
            Value::Null => ValueView::Null,
            Value::Bool(b) => ValueView::Bool(*b),
            Value::Number(n) => ValueView::Number(*n),
            Value::String(s) => ValueView::String(s@),
            Value::Array(a) => ValueView::Array(
                Seq::new(
                    a@.len(),
                    |i: int|
                        if 0 <= i < a@.len() {
                            a@[i].view()
                        } else {
                            ValueView::Null
                        },
                ),
            ),
            Value::Object(r) => ValueView::Object(r.view()),
        }
    }
}

impl View for Record {
    type V = RecordView;

    closed spec fn view(&self) -> RecordView
        decreases self,
    {
        Seq::new(
            self.entries@.len(),
            |i: int|
                if 0 <= i < self.entries@.len() {
                    (self.entries@[i].0@, self.entries@[i].1.view())
                } else {
                    (Seq::empty(), ValueView::Null)
                },
        )
    }
}

/// The view of the record that holds `entries`.
spec fn view_of(entries: Vec<(String, Value)>) -> RecordView {
    (Record { entries })@
}

impl Clone for Value {
    fn clone(&self) -> (r: Self)
        ensures
            r@ == self@,
        decreases self,
    {
        match self {
            Value::Null => Value::Null,
            Value::Bool(b) => Value::Bool(*b),
            Value::Number(n) => Value::Number(*n),
            Value::String(s) => Value::String(s.clone()),
            Value::Array(a) => {
                let mut out: Vec<Value> = Vec::new();
                let mut i: usize = 0;
                while i < a.len()
                    invariant
                        i <= a.len(),
                        out.len() == i,
                        self is Array,
                        self->Array_0 == *a,
                        forall|k: int| 0 <= k < i ==> out@[k]@ == a@[k]@,
                    decreases a.len() - i,
                {
                    proof {
                        vstd::std_specs::vec::axiom_vec_index_decreases(*a, i as int);
                    }
                    let item = (&a[i]).clone();
                    out.push(item);
                    i += 1;
                }
                let r = Value::Array(out);
                assert(r@->Array_0 =~= self@->Array_0);
                r
            },
            Value::Object(rec) => Value::Object(rec.clone()),
        }
    }
}

impl Clone for Record {
    fn clone(&self) -> (r: Self)
        ensures
            r@ == self@,
        decreases self,
    {
        proof {
            use_type_invariant(self);
        }
        let mut out: Vec<(String, Value)> = Vec::new();
        let mut i: usize = 0;
        while i < self.entries.len()
            invariant
                i <= self.entries.len(),
                out.len() == i,
                forall|k: int|
                    0 <= k < i ==> out@[k].0@ == self.entries@[k].0@ && out@[k].1@
                        == self.entries@[k].1@,
            decreases self.entries.len() - i,
        {
            proof {
                vstd::std_specs::vec::axiom_vec_index_decreases(self.entries, i as int);
            }
            let key = self.entries[i].0.clone();
            let value = (&self.entries[i].1).clone();
            out.push((key, value));
            i += 1;
        }
        assert(view_of(out) =~= self@);
        Record { entries: out }
    }
}

impl Record {
    #[verifier::type_invariant]
    pub open spec fn inv(&self) -> bool {
        distinct_keys(self@)
    }

    /// The record without entries.
    pub fn new() -> (r: Record)
        ensures
            r@ == RecordView::empty(),
    {
        let r = Record { entries: Vec::new() };
        assert(r@ =~= RecordView::empty());
        r
    }

    /// The number of entries.
    pub fn len(&self) -> (n: usize)
        ensures
            n == self@.len(),
    {
        self.entries.len()
    }

    /// Moves the entries out and leaves the record empty.
    fn take_entries(&mut self) -> (entries: Vec<(String, Value)>)
        ensures
            entries == old(self).entries,
            final(self).entries@.len() == 0,
    {
        let mut taken = Record::new();
        assert(taken@.len() == taken.entries@.len());
        core::mem::swap(self, &mut taken);
        taken.entries
    }

    /// The position of the entry under `key`.
    fn find(&self, key: &str) -> (r: Option<usize>)
        ensures
            match r {
                Some(i) => has_key(self@, key@) && i == index_of(self@, key@) && i < self@.len(),
                None => !has_key(self@, key@),
            },
    {
        proof {
            use_type_invariant(self);
        }
        let mut i: usize = 0;
        while i < self.entries.len()
            invariant
                i <= self.entries.len(),
                distinct_keys(self@),
                forall|k: int| 0 <= k < i ==> (#[trigger] self@[k]).0 != key@,
            decreases self.entries.len() - i,
        {
            if same_text(&self.entries[i].0, key) {
                proof {
                    lemma_index_of(self@, key@, i as int);
                }
                return Some(i);
            }
            i += 1;
        }
        None
    }

    /// Whether an entry stands under `key`.
    pub fn contains_key(&self, key: &str) -> (r: bool)
        ensures
            r == has_key(self@, key@),
    {
        self.find(key).is_some()
    }

    /// The value under `key`.
    pub fn get(&self, key: &str) -> (r: Option<&Value>)
        ensures
            match r {
                Some(v) => lookup(self@, key@) == Some(v@),
                None => lookup(self@, key@).is_none(),
            },
    {
        match self.find(key) {
            Some(i) => Some(&self.entries[i].1),
            None => None,
        }
    }

    /// The key and the value at position `index`.
    pub fn entry(&self, index: usize) -> (r: Option<(&String, &Value)>)
        ensures
            match r {
                Some(e) => index < self@.len() && e.0@ == self@[index as int].0 && e.1@
                    == self@[index as int].1,
                None => index >= self@.len(),
            },
    {
        if index < self.entries.len() {
            Some((&self.entries[index].0, &self.entries[index].1))
        } else {
            None
        }
    }

    /// Puts `value` under `key`: an entry that is there keeps its place, a new one goes to
    /// the end.
    pub fn insert(&mut self, key: String, value: Value)
        ensures
            final(self)@ == insert(old(self)@, key@, value@),
    {
        proof {
            use_type_invariant(&*self);
            lemma_insert(self@, key@, value@);
        }
        let ghost before = self@;
        let found = self.find(key.as_str());
        let mut entries = self.take_entries();
        match found {
            Some(i) => {
                entries.set(i, (key, value));
            },
            None => {
                entries.push((key, value));
            },
        }
        assert(view_of(entries) =~= insert(before, key@, value@));
        *self = Record { entries };
    }

    /// Takes the entry under `key` out; the last entry takes its place.
    pub fn remove(&mut self, key: &str) -> (r: Option<Value>)
        ensures
            final(self)@ == remove(old(self)@, key@),
            match r {
                Some(v) => lookup(old(self)@, key@) == Some(v@),
                None => lookup(old(self)@, key@).is_none(),
            },
    {
        proof {
            use_type_invariant(&*self);
            lemma_remove(self@, key@);
        }
        let ghost before = self@;
        match self.find(key) {
            Some(i) => {
                let mut entries = self.take_entries();
                let gone = entries.swap_remove(i);
                assert(view_of(entries) =~= remove(before, key@));
                *self = Record { entries };
                Some(gone.1)
            },
            None => None,
        }
    }

    /// Inserts every entry of `other`, first to last.
    pub fn append(&mut self, other: &Record)
        ensures
            final(self)@ == merge(old(self)@, other@),
    {
        let ghost before = self@;
        let mut i: usize = 0;
        assert(other@.take(0) =~= RecordView::empty());
        while i < other.entries.len()
            invariant
                i <= other.entries.len(),
                other.entries.len() == other@.len(),
                self@ == merge(before, other@.take(i as int)),
            decreases other.entries.len() - i,
        {
            let key = other.entries[i].0.clone();
            let value = other.entries[i].1.clone();
            proof {
                let next = other@.take(i + 1);
                assert(next.drop_last() =~= other@.take(i as int));
                assert(next.last() == other@[i as int]);
            }
            self.insert(key, value);
            i += 1;
        }
        assert(other@.take(i as int) =~= other@);
    }
}

} // verus!
