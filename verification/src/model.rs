use vstd::prelude::*;

verus! {

/// A JSON number: an unsigned integer, a signed integer, or a float held by its IEEE-754
/// binary64 bit pattern.
#[derive(Clone, Copy, Debug, PartialEq, Eq)]
pub enum Number {
    PosInt(u64),
    NegInt(i64),
    Float(u64),
}

impl Number {
    /// The number as a signed integer of 64 bits, where it is one.
    pub open spec fn int_reading(self) -> Option<i64> {
        match self {
            Number::PosInt(u) => if u <= i64::MAX {
                Some(u as i64)
            } else {
                None
            },
            Number::NegInt(i) => Some(i),
            Number::Float(_) => None,
        }
    }

    /// The number as an unsigned integer of 64 bits, where it is one.
    pub open spec fn uint_reading(self) -> Option<u64> {
        match self {
            Number::PosInt(u) => Some(u),
            Number::NegInt(i) => if i >= 0 {
                Some(i as u64)
            } else {
                None
            },
            Number::Float(_) => None,
        }
    }

    /// The bits of the float that stands for a number without a signed integer reading: a
    /// float's own bits, and for an integer from 2^63 on the nearest float.
    pub open spec fn float_reading(self) -> Option<u64> {
        match self {
            Number::PosInt(u) => if u > i64::MAX {
                Some(nearest_float(u))
            } else {
                None
            },
            Number::NegInt(_) => None,
            Number::Float(bits) => Some(bits),
        }
    }

    /// The number as a signed integer of 64 bits, where it is one.
    pub fn as_i64(&self) -> (r: Option<i64>)
        ensures
            r == self.int_reading(),
    {
        match self {
            Number::PosInt(u) => if *u <= 0x7fff_ffff_ffff_ffff {
                Some(*u as i64)
            } else {
                None
            },
            Number::NegInt(i) => Some(*i),
            Number::Float(_) => None,
        }
    }

    /// The number as an unsigned integer of 64 bits, where it is one.
    pub fn as_u64(&self) -> (r: Option<u64>)
        ensures
            r == self.uint_reading(),
    {
        match self {
            Number::PosInt(u) => Some(*u),
            Number::NegInt(i) => if *i >= 0 {
                Some(*i as u64)
            } else {
                None
            },
            Number::Float(_) => None,
        }
    }

    /// The bits of the float that stands for a number without a signed integer reading.
    pub fn float_bits(&self) -> (r: Option<u64>)
        ensures
            r == self.float_reading(),
    {
        match self {
            Number::PosInt(u) => if *u > 0x7fff_ffff_ffff_ffff {
                Some(round_to_float(*u))
            } else {
                None
            },
            Number::NegInt(_) => None,
            Number::Float(bits) => Some(*bits),
        }
    }
}

/// The bits of the binary64 float nearest to an integer from 2^63 on, ties to the even
/// mantissa: the 53 leading bits, rounded by the 11 that follow, under the exponent of 2^63.
pub open spec fn nearest_float(u: u64) -> u64 {
    let mantissa = u >> 11;
    let rest = u & 0x7ff;
    let up: u64 = if rest > 0x400 || (rest == 0x400 && mantissa & 1 == 1) {
        1
    } else {
        0
    };
    (0x43d0_0000_0000_0000 + mantissa + up) as u64
}

/// The bits of the float nearest to `u`.
fn round_to_float(u: u64) -> (r: u64)
    requires
        u >= 0x8000_0000_0000_0000,
    ensures
        r == nearest_float(u),
{
    let mantissa: u64 = u >> 11;
    let rest: u64 = u & 0x7ff;
    assert(mantissa < 0x20_0000_0000_0000) by (bit_vector)
        requires
            mantissa == u >> 11,
    ;
    let up: u64 = if rest > 0x400 || (rest == 0x400 && mantissa & 1 == 1) {
        1
    } else {
        0
    };
    0x43d0_0000_0000_0000 + mantissa + up
}

/// The float with these bits is not a number.
pub open spec fn float_is_nan(bits: u64) -> bool {
    bits & 0x7fff_ffff_ffff_ffff > 0x7ff0_0000_0000_0000
}

/// Equality of two floats given by their bits: no float equals one that is not a number, the
/// two zeros are equal, and every other float equals only itself.
pub open spec fn float_eq(a: u64, b: u64) -> bool {
    !float_is_nan(a) && !float_is_nan(b) && (a == b || (a | b) & 0x7fff_ffff_ffff_ffff == 0)
}

/// Whether the floats with the bits `a` and `b` are equal.
pub fn floats_equal(a: u64, b: u64) -> (r: bool)
    ensures
        r == float_eq(a, b),
{
    let mask: u64 = 0x7fff_ffff_ffff_ffff;
    let limit: u64 = 0x7ff0_0000_0000_0000;
    !(a & mask > limit) && !(b & mask > limit) && (a == b || (a | b) & mask == 0)
}

/// The mathematical model of a value: a tree whose texts are character sequences and whose
/// objects are sequences of key/value pairs in entry order.
pub enum ValueView {
    Null,
    Bool(bool),
    Number(Number),
    String(Seq<char>),
    Array(Seq<ValueView>),
    Object(Seq<(Seq<char>, ValueView)>),
}

/// The mathematical model of a record: its entries in order.
pub type RecordView = Seq<(Seq<char>, ValueView)>;

/// No key occurs twice.
pub open spec fn distinct_keys(r: RecordView) -> bool {
    forall|i: int, j: int| 0 <= i < j < r.len() ==> r[i].0 != r[j].0
}

/// The keys of `r`, in entry order.
pub open spec fn keys_of(r: RecordView) -> Seq<Seq<char>> {
    Seq::new(r.len(), |i: int| r[i].0)
}

/// `key` is the key of some entry of `r`.
pub open spec fn has_key(r: RecordView, key: Seq<char>) -> bool {
    exists|i: int| 0 <= i < r.len() && (#[trigger] r[i]).0 == key
}

/// The position of an entry of `r` under `key`, where there is one.
pub open spec fn index_of(r: RecordView, key: Seq<char>) -> int {
    choose|i: int| 0 <= i < r.len() && (#[trigger] r[i]).0 == key
}

/// The value that `r` holds under `key`.
pub open spec fn lookup(r: RecordView, key: Seq<char>) -> Option<ValueView> {
    if has_key(r, key) {
        Some(r[index_of(r, key)].1)
    } else {
        None
    }
}

/// `r` with `value` under `key`: an entry that is there keeps its place and takes the new
/// value, a new one goes to the end.
pub open spec fn insert(r: RecordView, key: Seq<char>, value: ValueView) -> RecordView {
    if has_key(r, key) {
        r.update(index_of(r, key), (key, value))
    } else {
        r.push((key, value))
    }
}

/// `r` without the entry under `key`: the last entry takes the place of the one that leaves.
pub open spec fn remove(r: RecordView, key: Seq<char>) -> RecordView {
    if has_key(r, key) {
        r.update(index_of(r, key), r.last()).drop_last()
    } else {
        r
    }
}

/// `base` after every entry of `other` has been inserted, first to last.
pub open spec fn merge(base: RecordView, other: RecordView) -> RecordView
    decreases other.len(),
{
    if other.len() == 0 {
        base
    } else {
        insert(merge(base, other.drop_last()), other.last().0, other.last().1)
    }
}

/// Where `r` holds `key`, `index_of` is the one position of it.
pub proof fn lemma_index_of(r: RecordView, key: Seq<char>, i: int)
    requires
        distinct_keys(r),
        0 <= i < r.len(),
        r[i].0 == key,
    ensures
        has_key(r, key),
        index_of(r, key) == i,
        lookup(r, key) == Some(r[i].1),
{
    let j = index_of(r, key);
    assert(0 <= j < r.len() && r[j].0 == key);
    if j < i {
        assert(r[j].0 != r[i].0);
    } else if i < j {
        assert(r[i].0 != r[j].0);
    }
}

/// Where `r` holds `key`, `index_of` is a position of it.
pub proof fn lemma_has_key(r: RecordView, key: Seq<char>)
    requires
        has_key(r, key),
    ensures
        0 <= index_of(r, key) < r.len(),
        r[index_of(r, key)].0 == key,
{
}

/// Inserting keeps the keys distinct, and the record then holds the value under the key and
/// every other key as before.
pub proof fn lemma_insert(r: RecordView, key: Seq<char>, value: ValueView)
    requires
        distinct_keys(r),
    ensures
        distinct_keys(insert(r, key, value)),
        lookup(insert(r, key, value), key) == Some(value),
        forall|other: Seq<char>| other != key ==> lookup(insert(r, key, value), other) == lookup(r, other),
        forall|other: Seq<char>|
            has_key(insert(r, key, value), other) <==> (other == key || has_key(r, other)),
{
    let s = insert(r, key, value);
    if has_key(r, key) {
        let i = index_of(r, key);
        assert(distinct_keys(s)) by {
            assert forall|a: int, b: int| 0 <= a < b < s.len() implies s[a].0 != s[b].0 by {
                assert(r[a].0 != r[b].0);
            }
        }
        lemma_index_of(s, key, i);
        assert forall|other: Seq<char>| other != key implies lookup(s, other) == lookup(r, other) by {
            lemma_same_keys_lookup(r, s, other, i);
        }
        assert forall|other: Seq<char>| has_key(s, other) <==> (other == key || has_key(r, other)) by {
            if has_key(s, other) {
                let j = index_of(s, other);
                assert(s[j].0 == other);
                if j != i {
                    assert(r[j].0 == other);
                }
            }
            if has_key(r, other) {
                let j = index_of(r, other);
                assert(s[j].0 == other);
            }
        }
    } else {
        assert(distinct_keys(s)) by {
            assert forall|a: int, b: int| 0 <= a < b < s.len() implies s[a].0 != s[b].0 by {
                if b < r.len() {
                    assert(r[a].0 != r[b].0);
                } else {
                    assert(s[a] == r[a]);
                    if r[a].0 == key {
                        assert(has_key(r, key));
                    }
                }
            }
        }
        lemma_index_of(s, key, r.len() as int);
        assert forall|other: Seq<char>| other != key implies lookup(s, other) == lookup(r, other) by {
            if has_key(r, other) {
                let j = index_of(r, other);
                assert(s[j] == r[j]);
                lemma_index_of(s, other, j);
            } else if has_key(s, other) {
                let j = index_of(s, other);
                assert(s[j].0 == other);
                assert(r[j].0 == other);
            }
        }
        assert forall|other: Seq<char>| has_key(s, other) <==> (other == key || has_key(r, other)) by {
            if has_key(s, other) {
                let j = index_of(s, other);
                assert(s[j].0 == other);
                if j < r.len() {
                    assert(r[j].0 == other);
                }
            }
            if has_key(r, other) {
                let j = index_of(r, other);
                assert(s[j] == r[j]);
            }
        }
    }
}

/// Two records of one length that agree on every key, and on every value but the one at
/// `i`, hold the same under each key that is not at `i`.
proof fn lemma_same_keys_lookup(r: RecordView, s: RecordView, other: Seq<char>, i: int)
    requires
        distinct_keys(r),
        distinct_keys(s),
        r.len() == s.len(),
        0 <= i < r.len(),
        forall|j: int| 0 <= j < r.len() ==> (#[trigger] s[j]).0 == r[j].0,
        forall|j: int| 0 <= j < r.len() && j != i ==> s[j] == r[j],
        other != r[i].0,
    ensures
        lookup(s, other) == lookup(r, other),
{
    if has_key(r, other) {
        let j = index_of(r, other);
        assert(r[j].0 == other);
        assert(s[j] == r[j]);
        lemma_index_of(s, other, j);
    } else if has_key(s, other) {
        let j = index_of(s, other);
        assert(s[j].0 == other);
        assert(r[j].0 == other);
    }
}

/// Removing keeps the keys distinct, and the record then holds nothing under the key and
/// every other key as before.
pub proof fn lemma_remove(r: RecordView, key: Seq<char>)
    requires
        distinct_keys(r),
    ensures
        distinct_keys(remove(r, key)),
        !has_key(remove(r, key), key),
        forall|other: Seq<char>| other != key ==> lookup(remove(r, key), other) == lookup(r, other),
        forall|other: Seq<char>| has_key(remove(r, key), other) <==> (other != key && has_key(r, other)),
{
    let s = remove(r, key);
    if has_key(r, key) {
        let i = index_of(r, key);
        let last = r.len() - 1;
        assert forall|a: int| 0 <= a < s.len() implies #[trigger] s[a] == (if a == i {
            r[last]
        } else {
            r[a]
        }) by {}
        assert(distinct_keys(s)) by {
            assert forall|a: int, b: int| 0 <= a < b < s.len() implies s[a].0 != s[b].0 by {
                if a == i {
                    assert(r[b].0 != r[last].0);
                } else if b == i {
                    assert(r[a].0 != r[last].0);
                } else {
                    assert(r[a].0 != r[b].0);
                }
            }
        }
        assert(!has_key(s, key)) by {
            if has_key(s, key) {
                let j = index_of(s, key);
                assert(s[j].0 == key);
                if j == i {
                    assert(r[i].0 != r[last].0);
                } else {
                    lemma_index_of(r, key, j);
                }
            }
        }
        assert forall|other: Seq<char>| other != key implies lookup(s, other) == lookup(r, other) by {
            if has_key(r, other) {
                let j = index_of(r, other);
                assert(r[j].0 == other);
                if j == last {
                    assert(s[i] == r[last]);
                    lemma_index_of(s, other, i);
                } else {
                    assert(s[j] == r[j]);
                    lemma_index_of(s, other, j);
                }
            } else if has_key(s, other) {
                let j = index_of(s, other);
                assert(s[j].0 == other);
                if j == i {
                    assert(r[last].0 == other);
                } else {
                    assert(r[j].0 == other);
                }
            }
        }
        assert forall|other: Seq<char>| has_key(s, other) <==> (other != key && has_key(r, other)) by {
            if other != key {
                assert(lookup(s, other) == lookup(r, other));
            }
        }
    } else {
        assert forall|other: Seq<char>| has_key(s, other) <==> (other != key && has_key(r, other)) by {}
    }
}

/// Merging keeps the keys distinct.
pub proof fn lemma_merge_distinct(base: RecordView, other: RecordView)
    requires
        distinct_keys(base),
    ensures
        distinct_keys(merge(base, other)),
    decreases other.len(),
{
    if other.len() > 0 {
        lemma_merge_distinct(base, other.drop_last());
        lemma_insert(merge(base, other.drop_last()), other.last().0, other.last().1);
    }
}

} // verus!
