//! The list, set and hash data structures.

use vstd::prelude::*;
use crate::table::Table;
use crate::types::{Value, ValueView};

verus! {

/// The position that `List::get` reads for `index` in a list of `len`
/// items: from the front for `index >= 0`; from the back for a negative
/// one, where counts past the front fall back to the first item.
pub open spec fn list_position(len: int, index: int) -> int {
    if index < 0 {
        let back = -index;  // 1 for the last item
        if back > len { 0 } else { len - back }
    } else {
        index
    }
}

/// The list length as the signed index type sees it (0 if it does not fit).
pub open spec fn signed_len(len: int) -> int {
    if len <= isize::MAX { len } else { 0 }
}

/// The first position that `range(start, end)` selects.
pub open spec fn range_first(len: int, start: int) -> int {
    let s = if start < 0 { signed_len(len) + start } else { start };
    if s < 0 { 0 } else { s }
}

/// The last position that `range(start, end)` selects (inclusive): the end
/// bound counted from the back when negative, capped at the last item, and
/// 0 where that leaves a negative position.
pub open spec fn range_last(len: int, end: int) -> int {
    let n = signed_len(len);
    let e = if end < 0 { n + end } else { end };
    let e1 = if e < n - 1 { e } else { n - 1 };
    if e1 < 0 { 0 } else { e1 }
}

/// The items that `range(start, end)` selects from `items`.
pub open spec fn range_of<T>(items: Seq<T>, start: int, end: int) -> Seq<T> {
    let first = range_first(items.len() as int, start);
    let last = range_last(items.len() as int, end);
    if first > last {
        Seq::empty()
    } else {
        items.subrange(first, last + 1)
    }
}

/// A range with both bounds inside the items selects the items from the
/// first bound to the second, both included.
pub proof fn law_range_within_bounds<T>(items: Seq<T>, start: int, end: int)
    requires
        items.len() <= isize::MAX,
        0 <= start <= end < items.len(),
    ensures
        range_of(items, start, end) == items.subrange(start, end + 1),
{
}

/// A negative end bound `end` (not past the front) stands for the
/// position `len + end`: `-1` is the last item, `-2` the one before it.
pub proof fn law_range_negative_end<T>(items: Seq<T>, start: int, end: int)
    requires
        items.len() <= isize::MAX,
        -(items.len() as int) <= end < 0,
    ensures
        range_of(items, start, end) == range_of(items, start, items.len() + end),
{
}

/// Counting from the back, `range(0, -k)` selects every item but the last
/// `k - 1`, and `range(-k, -1)` the last `k`.
pub proof fn law_range_from_the_back<T>(items: Seq<T>, k: int)
    requires
        items.len() <= isize::MAX,
        1 <= k <= items.len(),
    ensures
        range_of(items, 0, -k) == items.take(items.len() - k + 1),
        range_of(items, -k, -1) == items.skip(items.len() - k),
{
    assert(items.subrange(0, items.len() - k + 1) =~= items.take(items.len() - k + 1));
    assert(items.subrange(items.len() - k, items.len() as int) =~= items.skip(items.len() - k));
}

/// The inputs on which a range selection stays inside the items.
pub open spec fn range_in_bounds(len: int, start: int, end: int) -> bool {
    range_first(len, start) > range_last(len, end) || range_last(len, end) < len
}

/// The first and last positions of a range, computed.
pub fn range_positions(len: usize, start: isize, end: isize) -> (r: (usize, usize))
    ensures
        r.0 == range_first(len as int, start as int),
        r.1 == range_last(len as int, end as int),
{
    let n: isize = if len <= isize::MAX as usize { len as isize } else { 0 };
    let s: isize = if start < 0 { n + start } else { start };
    let e: isize = if end < 0 { n + end } else { end };
    let first: usize = if s < 0 { 0 } else { s as usize };
    let e1: isize = if e < n - 1 { e } else { n - 1 };
    let last: usize = if e1 < 0 { 0 } else { e1 as usize };
    (first, last)
}

/// The references to `items[first..=last]`, in order.
pub fn slice_refs<T>(items: &Vec<T>, first: usize, last: usize) -> (r: Vec<&T>)
    requires
        first <= last < items.len(),
    ensures
        r@.len() == last - first + 1,
        forall|i: int| 0 <= i < r@.len() ==> *#[trigger] r@[i] == items@[first + i],
{
    let mut r: Vec<&T> = Vec::new();
    let mut i: usize = first;
    while i <= last
        invariant
            first <= last < items.len(),
            first <= i <= last + 1,
            r@.len() == i - first,
            forall|j: int| 0 <= j < r@.len() ==> *#[trigger] r@[j] == items@[first + j],
        decreases last + 1 - i,
    {
        r.push(&items[i]);
        i = i + 1;
    }
    r
}

/// List data structure.
#[derive(Debug)]
pub struct List {
    pub items: Vec<Value>,
}

impl View for List {
    type V = Seq<Value>;

    open spec fn view(&self) -> Seq<Value> {
        self.items@
    }
}

impl Default for List {
    fn default() -> (l: Self)
        ensures
            l@ == Seq::<Value>::empty(),
    {
        Self::new()
    }
}

impl List {
    /// An empty list.
    pub fn new() -> (l: Self)
        ensures
            l@ == Seq::<Value>::empty(),
    {
        List { items: Vec::new() }
    }

    /// Adds `value` at the front.
    pub fn push_left(&mut self, value: Value)
        ensures
            final(self)@ == seq![value] + old(self)@,
    {
        self.items.insert(0, value);
        assert(self@ =~= seq![value] + old(self)@);
    }

    /// Adds `value` at the back.
    pub fn push_right(&mut self, value: Value)
        ensures
            final(self)@ == old(self)@.push(value),
    {
        self.items.push(value);
    }

    /// Takes the front item, if any.
    pub fn pop_left(&mut self) -> (r: Option<Value>)
        ensures
            old(self)@.len() == 0 ==> r is None && final(self)@ == old(self)@,
            old(self)@.len() > 0 ==> r == Some(old(self)@[0]) && final(self)@ == old(self)@.drop_first(),
    {
        if self.items.len() == 0 {
            None
        } else {
            let v = self.items.remove(0);
            assert(self@ =~= old(self)@.drop_first());
            Some(v)
        }
    }

    /// Takes the back item, if any.
    pub fn pop_right(&mut self) -> (r: Option<Value>)
        ensures
            old(self)@.len() == 0 ==> r is None && final(self)@ == old(self)@,
            old(self)@.len() > 0 ==> r == Some(old(self)@.last()) && final(self)@ == old(self)@.drop_last(),
    {
        self.items.pop()
    }

    /// The number of items.
    pub fn len(&self) -> (n: usize)
        ensures
            n == self@.len(),
    {
        self.items.len()
    }

    /// Whether the list has no items.
    pub fn is_empty(&self) -> (b: bool)
        ensures
            b == (self@.len() == 0),
    {
        self.items.len() == 0
    }

    /// The item at `index`: counted from the front when `index >= 0`, from
    /// the back when negative (`-1` is the last item); a negative index that
    /// reaches past the front reads the first item.
    pub fn get(&self, index: isize) -> (r: Option<&Value>)
        requires
            index != isize::MIN,
        ensures
            ({
                let p = list_position(self@.len() as int, index as int);
                if 0 <= p < self@.len() {
                    r == Some(&self@[p])
                } else {
                    r is None
                }
            }),
    {
        let len = self.items.len();
        let pos: usize = if index < 0 {
            let back: usize = (-index) as usize;
            if back > len { 0 } else { len - back }
        } else {
            index as usize
        };
        if pos < len {
            Some(&self.items[pos])
        } else {
            None
        }
    }

    /// The items between `start` and `end`, both included; negative bounds
    /// count from the back. The end is capped at the last item and a start
    /// past the end gives no items.
    pub fn range(&self, start: isize, end: isize) -> (r: Vec<&Value>)
        requires
            range_in_bounds(self@.len() as int, start as int, end as int),
        ensures
            r@.len() == range_of(self@, start as int, end as int).len(),
            forall|i: int| 0 <= i < r@.len() ==> *#[trigger] r@[i] == range_of(self@, start as int, end as int)[i],
    {
        let (first, last) = range_positions(self.items.len(), start, end);
        if first > last {
            return Vec::new();
        }
        slice_refs(&self.items, first, last)
    }
}

/// The views of a sequence of values.
pub open spec fn value_views(s: Seq<Value>) -> Seq<ValueView> {
    s.map_values(|v: Value| v@)
}

/// Set data structure: values without repetition, in insertion order.
#[derive(Debug)]
pub struct ValueSet {
    pub items: Vec<Value>,
}

impl View for ValueSet {
    type V = vstd::set::Set<ValueView>;

    open spec fn view(&self) -> vstd::set::Set<ValueView> {
        value_views(self.items@).to_set()
    }
}

impl Default for ValueSet {
    fn default() -> (s: Self)
        ensures
            s.wf(),
            s@ == vstd::set::Set::<ValueView>::empty(),
    {
        Self::new()
    }
}

impl ValueSet {
    /// No value occurs twice.
    pub open spec fn wf(&self) -> bool {
        value_views(self.items@).no_duplicates()
    }

    /// An empty set.
    pub fn new() -> (s: Self)
        ensures
            s.wf(),
            s@ == vstd::set::Set::<ValueView>::empty(),
    {
        let s = ValueSet { items: Vec::new() };
        assert(s@ =~= vstd::set::Set::<ValueView>::empty());
        s
    }

    /// The position of a value equal to `value`, if any.
    fn position(&self, value: &Value) -> (r: Option<usize>)
        ensures
            match r {
                Some(i) => i < self.items@.len() && self.items@[i as int]@ == value@ && self@.contains(value@),
                None => !self@.contains(value@),
            },
    {
        let mut i: usize = 0;
        while i < self.items.len()
            invariant
                i <= self.items@.len(),
                forall|j: int| 0 <= j < i ==> self.items@[j]@ != value@,
            decreases self.items@.len() - i,
        {
            if self.items[i].equals(value) {
                assert(value_views(self.items@)[i as int] == value@);
                return Some(i);
            }
            i = i + 1;
        }
        proof {
            if self@.contains(value@) {
                let j = choose|j: int| 0 <= j < value_views(self.items@).len() && value_views(self.items@)[j] == value@;
                assert(self.items@[j]@ == value@);
            }
        }
        None
    }

    /// Adds `value`; true if it was not already a member.
    pub fn add(&mut self, value: Value) -> (added: bool)
        requires
            old(self).wf(),
        ensures
            final(self).wf(),
            final(self)@ == old(self)@.insert(value@),
            added == !old(self)@.contains(value@),
    {
        match self.position(&value) {
            Some(i) => {
                assert(old(self)@.contains(value@)) by {
                    assert(value_views(self.items@)[i as int] == value@);
                }
                assert(self@ =~= old(self)@.insert(value@));
                false
            },
            None => {
                let ghost v = value@;
                self.items.push(value);
                proof {
                    let vs = value_views(self.items@);
                    assert(vs =~= value_views(old(self).items@).push(v));
                    assert forall|a: int, b: int| 0 <= a < vs.len() && 0 <= b < vs.len() && a != b implies vs[a] != vs[b] by {
                        if a == vs.len() - 1 {
                            assert(old(self)@.contains(vs[b]));
                        } else if b == vs.len() - 1 {
                            assert(old(self)@.contains(vs[a]));
                        }
                    }
                    assert forall|x: ValueView| vs.contains(x) <==> old(self)@.insert(v).contains(x) by {
                        let olds = value_views(old(self).items@);
                        if vs.contains(x) {
                            let j = choose|j: int| 0 <= j < vs.len() && vs[j] == x;
                            if j < olds.len() {
                                assert(olds[j] == x);
                            }
                        }
                        if old(self)@.contains(x) {
                            let j = choose|j: int| 0 <= j < olds.len() && olds[j] == x;
                            assert(vs[j] == x);
                        }
                        if x == v {
                            assert(vs[vs.len() - 1] == x);
                        }
                    }
                    assert(self@ =~= old(self)@.insert(v));
                }
                true
            },
        }
    }

    /// Removes `value`; true if it was a member.
    #[verifier::spinoff_prover]
    pub fn remove(&mut self, value: &Value) -> (removed: bool)
        requires
            old(self).wf(),
        ensures
            final(self).wf(),
            final(self)@ == old(self)@.remove(value@),
            removed == old(self)@.contains(value@),
    {
        match self.position(value) {
            Some(i) => {
                let ghost olds = value_views(self.items@);
                self.items.remove(i);
                proof {
                    let vs = value_views(self.items@);
                    assert(vs =~= olds.remove(i as int));
                    assert(olds.contains(value@)) by { assert(olds[i as int] == value@); }
                    assert forall|x: ValueView| vs.contains(x) <==> old(self)@.remove(value@).contains(x) by {
                        if vs.contains(x) {
                            let j = choose|j: int| 0 <= j < vs.len() && vs[j] == x;
                            let j2 = if j < i { j } else { j + 1 };
                            assert(olds[j2] == x);
                            assert(j2 != i);
                            assert(olds[i as int] == value@);
                            assert(x != value@);
                            assert(olds.contains(x));
                        }
                        if old(self)@.remove(value@).contains(x) {
                            let j = choose|j: int| 0 <= j < olds.len() && olds[j] == x;
                            assert(j != i);
                            if j < i { assert(vs[j] == x); } else { assert(vs[j - 1] == x); }
                        }
                    }
                    assert(self@ =~= old(self)@.remove(value@));
                }
                true
            },
            None => {
                assert(self@ =~= old(self)@.remove(value@));
                false
            },
        }
    }

    /// Whether `value` is a member.
    pub fn contains(&self, value: &Value) -> (r: bool)
        ensures
            r == self@.contains(value@),
    {
        self.position(value).is_some()
    }

    /// The members, in insertion order.
    pub fn members(&self) -> (r: Vec<&Value>)
        ensures
            r@.len() == self.items@.len(),
            forall|i: int| 0 <= i < r@.len() ==> *#[trigger] r@[i] == self.items@[i],
    {
        if self.items.len() == 0 {
            return Vec::new();
        }
        slice_refs(&self.items, 0, self.items.len() - 1)
    }

    /// The number of members.
    pub fn len(&self) -> (n: usize)
        requires
            self.wf(),
        ensures
            n == self@.len(),
    {
        proof {
            value_views(self.items@).unique_seq_to_set();
        }
        self.items.len()
    }

    /// Whether there are no members.
    pub fn is_empty(&self) -> (b: bool)
        requires
            self.wf(),
        ensures
            b == (self@.len() == 0),
    {
        proof {
            value_views(self.items@).unique_seq_to_set();
        }
        self.items.len() == 0
    }
}

/// Hash data structure: fields with values.
pub struct Hash {
    pub fields: Table<Value>,
}

impl View for Hash {
    type V = Map<Seq<char>, Value>;

    open spec fn view(&self) -> Map<Seq<char>, Value> {
        self.fields@
    }
}

impl Default for Hash {
    fn default() -> (h: Self)
        ensures
            h.wf(),
            h@ == Map::<Seq<char>, Value>::empty(),
    {
        Self::new()
    }
}

impl Hash {
    /// The field table is well formed.
    pub open spec fn wf(&self) -> bool {
        self.fields.wf()
    }

    /// An empty hash.
    pub fn new() -> (h: Self)
        ensures
            h.wf(),
            h@ == Map::<Seq<char>, Value>::empty(),
    {
        Hash { fields: Table::new() }
    }

    /// Sets `field` to `value`; true if the field already had a value.
    pub fn set(&mut self, field: String, value: Value) -> (replaced: bool)
        requires
            old(self).wf(),
        ensures
            final(self).wf(),
            final(self)@ == old(self)@.insert(field@, value),
            replaced == old(self)@.contains_key(field@),
    {
        self.fields.insert(field, value).is_some()
    }

    /// The value of `field`.
    pub fn get(&self, field: &str) -> (r: Option<&Value>)
        requires
            self.wf(),
        ensures
            match r {
                Some(v) => self@.contains_key(field@) && *v == self@[field@],
                None => !self@.contains_key(field@),
            },
    {
        self.fields.get(field)
    }

    /// Deletes `field`; true if it had a value.
    pub fn delete(&mut self, field: &str) -> (deleted: bool)
        requires
            old(self).wf(),
        ensures
            final(self).wf(),
            final(self)@ == old(self)@.remove(field@),
            deleted == old(self)@.contains_key(field@),
    {
        self.fields.remove(field).is_some()
    }

    /// Whether `field` has a value.
    pub fn field_exists(&self, field: &str) -> (r: bool)
        requires
            self.wf(),
        ensures
            r == self@.contains_key(field@),
    {
        self.fields.contains_key(field)
    }

    /// The field names, in table order (each field once; see
    /// `Table::lemma_keys`).
    pub fn keys(&self) -> (r: Vec<&String>)
        requires
            self.wf(),
        ensures
            r@.len() == self.fields.key_seq().len(),
            forall|i: int| 0 <= i < r@.len() ==> (#[trigger] r@[i])@ == self.fields.key_seq()[i],
    {
        self.fields.key_refs()
    }

    /// The field values, in the order of `keys`.
    pub fn values(&self) -> (r: Vec<&Value>)
        requires
            self.wf(),
        ensures
            r@.len() == self.fields.key_seq().len(),
            forall|i: int| 0 <= i < r@.len() ==> *#[trigger] r@[i] == self@[self.fields.key_seq()[i]],
    {
        proof {
            self.fields.lemma_keys();
        }
        self.fields.values()
    }

    /// All fields.
    pub fn all(&self) -> (r: &Table<Value>)
        ensures
            r@ == self@,
    {
        &self.fields
    }

    /// The number of fields.
    pub fn len(&self) -> (n: usize)
        requires
            self.wf(),
        ensures
            n == self@.len(),
    {
        self.fields.len()
    }

    /// Whether there are no fields.
    pub fn is_empty(&self) -> (b: bool)
        requires
            self.wf(),
        ensures
            b == (self@.len() == 0),
    {
        self.fields.len() == 0
    }
}

} // verus!
