//! The tree that a document stands for.

use vstd::prelude::*;
use crate::number::{bytes_equal, copy_bytes, is_number_text, Number, NumberView};

verus! {

/// Represents any valid MASON value.
#[derive(Debug)]
pub enum Value {
    Object(Object),
    Array(Vec<Value>),
    String(String),
    ByteString(Vec<u8>),
    Number(Number),
    Bool(bool),
    Null,
}

/// The entries of an object: keys with their values. No key occurs twice,
/// and an entry that is set again keeps its place.
#[derive(Debug)]
pub struct Object {
    entries: Vec<(String, Value)>,
}

/// What a `Value` is to the contracts: the same tree over sequences.
pub enum ValueView {
    Object(Seq<(Seq<char>, ValueView)>),
    Array(Seq<ValueView>),
    String(Seq<char>),
    ByteString(Seq<u8>),
    Number(NumberView),
    Bool(bool),
    Null,
}

impl View for Value {
    type V = ValueView;

    open spec fn view(&self) -> ValueView
        decreases self,
    {
        match self {
            Value::Object(object) => ValueView::Object(object.view()),
            Value::Array(items) => ValueView::Array(view_all(items@)),
            Value::String(text) => ValueView::String(text@),
            Value::ByteString(bytes) => ValueView::ByteString(bytes@),
            Value::Number(number) => ValueView::Number(number@),
            Value::Bool(b) => ValueView::Bool(*b),
            Value::Null => ValueView::Null,
        }
    }
}

impl View for Object {
    type V = Seq<(Seq<char>, ValueView)>;

    closed spec fn view(&self) -> Seq<(Seq<char>, ValueView)>
        decreases self,
    {
        Seq::new(
            self.entries@.len(),
            |i: int|
                if 0 <= i < self.entries@.len() {
                    (self.entries@[i].0@, self.entries@[i].1.view())
                } else {
                    (Seq::empty(), ValueView::Null)
                },
        )
    }
}

/// The views of `items`, in their order.
pub open spec fn view_all(items: Seq<Value>) -> Seq<ValueView>
    decreases items,
{
    Seq::new(
        items.len(),
        |i: int|
            if 0 <= i < items.len() {
                items[i].view()
            } else {
                ValueView::Null
            },
    )
}

/// The item at place `i` of `items`, to be changed in place.
pub fn item_mut(items: &mut Vec<Value>, i: usize) -> (r: &mut Value)
    requires
        i < old(items)@.len(),
    ensures
        r@ == old(items)@[i as int]@,
        view_all(final(items)@) == view_all(old(items)@).update(i as int, final(r)@),
{
    &mut items[i]
}

/// The place of the entry of `entries` with the given key.
pub open spec fn index_of_key(entries: Seq<(Seq<char>, ValueView)>, key: Seq<char>) -> Option<
    int,
>
    decreases entries.len(),
{
    if entries.len() == 0 {
        None
    } else if entries.last().0 == key {
        Some(entries.len() - 1)
    } else {
        index_of_key(entries.drop_last(), key)
    }
}

/// `entries` with `key` set to `value`: in the place of the entry that has
/// the key, or at the end where none has it.
pub open spec fn insert_entry(
    entries: Seq<(Seq<char>, ValueView)>,
    key: Seq<char>,
    value: ValueView,
) -> Seq<(Seq<char>, ValueView)> {
    match index_of_key(entries, key) {
        Some(i) => entries.update(i, (key, value)),
        None => entries.push((key, value)),
    }
}

/// The entries of an object into which `pairs` are set one after another,
/// from the first on: of two pairs with one key the later gives the value,
/// in the place of the earlier.
pub open spec fn gathered(pairs: Seq<(Seq<char>, ValueView)>) -> Seq<(Seq<char>, ValueView)>
    decreases pairs.len(),
{
    if pairs.len() == 0 {
        Seq::empty()
    } else {
        insert_entry(gathered(pairs.drop_last()), pairs.last().0, pairs.last().1)
    }
}

/// The entries `done` with `pairs` set into them one after another.
pub open spec fn gathered_from(
    done: Seq<(Seq<char>, ValueView)>,
    pairs: Seq<(Seq<char>, ValueView)>,
) -> Seq<(Seq<char>, ValueView)>
    decreases pairs.len(),
{
    if pairs.len() == 0 {
        done
    } else {
        insert_entry(gathered_from(done, pairs.drop_last()), pairs.last().0, pairs.last().1)
    }
}

/// Whether no key occurs twice in `entries`.
pub open spec fn unique_keys(entries: Seq<(Seq<char>, ValueView)>) -> bool {
    forall|i: int, j: int|
        0 <= i < j < entries.len() ==> (#[trigger] entries[i]).0 != (#[trigger] entries[j]).0
}

/// The place that `index_of_key` gives holds the key; without a place no
/// entry holds it; and where no key occurs twice, the place of a key is
/// the place of its entry.
pub proof fn lemma_index_of_key(entries: Seq<(Seq<char>, ValueView)>, key: Seq<char>)
    ensures
        index_of_key(entries, key) matches Some(i) ==> 0 <= i < entries.len() && entries[i].0
            == key,
        index_of_key(entries, key) is None ==> forall|j: int|
            0 <= j < entries.len() ==> (#[trigger] entries[j]).0 != key,
        unique_keys(entries) ==> forall|j: int|
            0 <= j < entries.len() && (#[trigger] entries[j]).0 == key ==> index_of_key(
                entries,
                key,
            ) == Some(j),
    decreases entries.len(),
{
    if entries.len() == 0 {
    } else if entries.last().0 == key {
    } else {
        let front = entries.drop_last();
        lemma_index_of_key(front, key);
        assert(forall|j: int| 0 <= j < front.len() ==> front[j] == entries[j]);
        if unique_keys(entries) {
            assert(unique_keys(front));
        }
    }
}

/// Taking an entry out leaves every key single.
pub proof fn lemma_remove_keeps_unique(entries: Seq<(Seq<char>, ValueView)>, at: int)
    requires
        0 <= at < entries.len(),
    ensures
        unique_keys(entries) ==> unique_keys(entries.remove(at)),
{
    let after = entries.remove(at);
    if unique_keys(entries) {
        assert forall|i: int, j: int| 0 <= i < j < after.len() implies (#[trigger] after[i]).0
            != (#[trigger] after[j]).0 by {
            let a = if i < at {
                i
            } else {
                i + 1
            };
            let b = if j < at {
                j
            } else {
                j + 1
            };
            assert(after[i] == entries[a]);
            assert(after[j] == entries[b]);
        }
    }
}

/// To set pairs into what other pairs were gathered to is to gather them
/// all.
pub proof fn lemma_gathered_from(
    first: Seq<(Seq<char>, ValueView)>,
    pairs: Seq<(Seq<char>, ValueView)>,
)
    ensures
        gathered_from(gathered(first), pairs) == gathered(first + pairs),
    decreases pairs.len(),
{
    if pairs.len() == 0 {
        assert(first + pairs =~= first);
    } else {
        lemma_gathered_from(first, pairs.drop_last());
        assert((first + pairs).drop_last() =~= first + pairs.drop_last());
        assert((first + pairs).last() == pairs.last());
    }
}

/// To set a pair and then others is to set them all, the pair first.
pub proof fn lemma_gathered_from_first(
    done: Seq<(Seq<char>, ValueView)>,
    pair: (Seq<char>, ValueView),
    pairs: Seq<(Seq<char>, ValueView)>,
)
    ensures
        gathered_from(done, seq![pair] + pairs) == gathered_from(
            insert_entry(done, pair.0, pair.1),
            pairs,
        ),
    decreases pairs.len(),
{
    let all = seq![pair] + pairs;
    if pairs.len() == 0 {
        assert(all.drop_last() =~= Seq::empty());
        assert(all.last() == pair);
        assert(gathered_from(done, all.drop_last()) == done);
    } else {
        lemma_gathered_from_first(done, pair, pairs.drop_last());
        assert(all.drop_last() =~= seq![pair] + pairs.drop_last());
        assert(all.last() == pairs.last());
    }
}

/// Pairs of which no two have one key are gathered as they stand.
pub proof fn lemma_gathered_unique(pairs: Seq<(Seq<char>, ValueView)>)
    requires
        unique_keys(pairs),
    ensures
        gathered(pairs) == pairs,
    decreases pairs.len(),
{
    if pairs.len() == 0 {
        assert(pairs =~= Seq::empty());
    } else {
        let front = pairs.drop_last();
        assert(unique_keys(front)) by {
            assert(forall|j: int| 0 <= j < front.len() ==> front[j] == pairs[j]);
        }
        lemma_gathered_unique(front);
        lemma_index_of_key(front, pairs.last().0);
        assert(index_of_key(front, pairs.last().0) is None) by {
            if index_of_key(front, pairs.last().0) is Some {
                let i = index_of_key(front, pairs.last().0)->0;
                assert(front[i] == pairs[i]);
                assert(pairs[i].0 == pairs[pairs.len() - 1].0);
            }
        }
        assert(front.push(pairs.last()) =~= pairs);
    }
}

/// Setting a key leaves every key single.
pub proof fn lemma_insert_keeps_unique(
    entries: Seq<(Seq<char>, ValueView)>,
    key: Seq<char>,
    value: ValueView,
)
    requires
        unique_keys(entries),
    ensures
        unique_keys(insert_entry(entries, key, value)),
{
    lemma_index_of_key(entries, key);
    let after = insert_entry(entries, key, value);
    match index_of_key(entries, key) {
        Some(at) => {
            assert forall|i: int, j: int| 0 <= i < j < after.len() implies (#[trigger] after[i]).0
                != (#[trigger] after[j]).0 by {
                assert(after[i].0 == entries[i].0);
                assert(after[j].0 == entries[j].0);
            }
        },
        None => {
            assert forall|i: int, j: int| 0 <= i < j < after.len() implies (#[trigger] after[i]).0
                != (#[trigger] after[j]).0 by {
                if j < entries.len() {
                    assert(after[i] == entries[i] && after[j] == entries[j]);
                } else {
                    assert(after[i] == entries[i]);
                }
            }
        },
    }
}

impl ValueView {
    /// Whether every number in the tree has the text of a number, and no
    /// object a key twice.
    pub open spec fn well_formed(self) -> bool
        decreases self,
    {
        match self {
            ValueView::Object(entries) => unique_keys(entries) && forall|i: int|
                0 <= i < entries.len() ==> (#[trigger] entries[i]).1.well_formed(),
            ValueView::Array(items) => forall|i: int|
                0 <= i < items.len() ==> (#[trigger] items[i]).well_formed(),
            ValueView::Number(number) => is_number_text(number.text),
            _ => true,
        }
    }
}

/// Whether `v` nests no deeper than `depth` levels.
pub open spec fn fits(v: ValueView, depth: nat) -> bool
    decreases v,
{
    depth >= 1 && match v {
        ValueView::Array(items) => forall|i: int|
            0 <= i < items.len() ==> fits(#[trigger] items[i], (depth - 1) as nat),
        ValueView::Object(entries) => forall|i: int|
            0 <= i < entries.len() ==> fits((#[trigger] entries[i]).1, (depth - 1) as nat),
        _ => true,
    }
}

/// Whether `a` and `b` hold the same text.
pub fn same_text(a: &str, b: &str) -> (r: bool)
    ensures
        r == (a@ == b@),
{
    let left: String = a.to_owned();
    let right: String = b.to_owned();
    left == right
}

impl Object {
    proof fn lemma_view(&self)
        ensures
            self@.len() == self.entries@.len(),
            forall|i: int|
                0 <= i < self.entries@.len() ==> #[trigger] self@[i] == (
                    self.entries@[i].0@,
                    self.entries@[i].1@,
                ),
    {
    }

    /// An object without entries.
    pub fn new() -> (r: Object)
        ensures
            r@ == Seq::<(Seq<char>, ValueView)>::empty(),
    {
        let r = Object { entries: Vec::new() };
        assert(r@ =~= Seq::<(Seq<char>, ValueView)>::empty());
        r
    }

    /// The number of entries.
    pub fn len(&self) -> (n: usize)
        ensures
            n == self@.len(),
    {
        self.entries.len()
    }

    /// Whether the object has no entry.
    pub fn is_empty(&self) -> (r: bool)
        ensures
            r == (self@.len() == 0),
    {
        self.entries.len() == 0
    }

    /// The key of the entry at place `i`.
    pub fn key_at(&self, i: usize) -> (key: &String)
        requires
            i < self@.len(),
        ensures
            key@ == self@[i as int].0,
    {
        &self.entries[i].0
    }

    /// The value of the entry at place `i`.
    pub fn value_at(&self, i: usize) -> (value: &Value)
        requires
            i < self@.len(),
        ensures
            value@ == self@[i as int].1,
            decreases_to!(*self => *value),
    {
        proof {
            assert(decreases_to!(*self => self.entries));
            assert(decreases_to!(self.entries => self.entries@[i as int]));
            assert(decreases_to!(self.entries@[i as int] => self.entries@[i as int].1));
        }
        &self.entries[i].1
    }

    /// The place of the entry with the given key.
    pub fn position(&self, key: &str) -> (r: Option<usize>)
        ensures
            match r {
                Some(k) => index_of_key(self@, key@) == Some(k as int) && k < self@.len(),
                None => index_of_key(self@, key@) is None,
            },
    {
        proof {
            self.lemma_view();
        }
        let mut i: usize = self.entries.len();
        assert(self@.take(i as int) =~= self@);
        while i > 0
            invariant
                i <= self@.len(),
                self@.len() == self.entries@.len(),
                index_of_key(self@, key@) == index_of_key(self@.take(i as int), key@),
            decreases i,
        {
            let ghost front = self@.take(i as int);
            assert(front.last() == self@[i - 1]);
            assert(front.drop_last() =~= self@.take(i - 1));
            if same_text(self.entries[i - 1].0.as_str(), key) {
                return Some(i - 1);
            }
            i = i - 1;
        }
        None
    }

    /// Whether an entry has the given key.
    pub fn contains_key(&self, key: &str) -> (r: bool)
        ensures
            r == index_of_key(self@, key@).is_some(),
    {
        self.position(key).is_some()
    }

    /// The value under the given key.
    pub fn get(&self, key: &str) -> (r: Option<&Value>)
        ensures
            match index_of_key(self@, key@) {
                Some(i) => r matches Some(v) && v@ == self@[i].1,
                None => r is None,
            },
    {
        proof {
            self.lemma_view();
        }
        match self.position(key) {
            Some(i) => {
                let v: &Value = &self.entries[i].1;
                assert(self@[i as int] == (self.entries@[i as int].0@, self.entries@[i as int].1@));
                assert(v@ == self.entries@[i as int].1@);
                Some(v)
            },
            None => None,
        }
    }

    /// Sets `key` to `value`. An entry that has the key keeps its place and
    /// gets the value; otherwise a new entry comes last.
    pub fn insert(&mut self, key: String, value: Value)
        ensures
            final(self)@ == insert_entry(old(self)@, key@, value@),
            unique_keys(old(self)@) ==> unique_keys(final(self)@),
    {
        proof {
            if unique_keys(self@) {
                lemma_insert_keeps_unique(self@, key@, value@);
            }
        }
        proof {
            self.lemma_view();
        }
        let ghost pair = (key@, value@);
        match self.position(key.as_str()) {
            Some(i) => {
                self.entries[i] = (key, value);
            },
            None => {
                self.entries.push((key, value));
            },
        }
        proof {
            self.lemma_view();
            old(self).lemma_view();
            let want = insert_entry(old(self)@, pair.0, pair.1);
            assert(self@.len() == want.len());
            assert(self.entries@.len() == want.len());
            assert forall|j: int| 0 <= j < want.len() implies self@[j] == want[j] by {
                assert(self@[j] == (self.entries@[j].0@, self.entries@[j].1@));
                if j < old(self)@.len() {
                    assert(old(self)@[j] == (old(self).entries@[j].0@, old(self).entries@[j].1@));
                }
            }
            assert(self@ =~= want);
        }
    }

    /// The value under the given key, to be changed in place.
    pub fn get_mut(&mut self, key: &str) -> (r: Option<&mut Value>)
        ensures
            match r {
                Some(v) => index_of_key(old(self)@, key@) matches Some(i) && v@ == old(self)@[i].1
                    && final(self)@ == old(self)@.update(i, (key@, final(v)@)),
                None => index_of_key(old(self)@, key@) is None && final(self)@ == old(self)@,
            },
    {
        proof {
            self.lemma_view();
            lemma_index_of_key(self@, key@);
        }
        match self.position(key) {
            Some(i) => {
                let pair: &mut (String, Value) = &mut self.entries[i];
                let value: &mut Value = &mut pair.1;
                Some(value)
            },
            None => None,
        }
    }

    /// The value under the given key, which is added with a null value
    /// where the object does not have it.
    pub fn entry_or_insert(&mut self, key: &str) -> (r: &mut Value)
        ensures
            r@ == match index_of_key(old(self)@, key@) {
                Some(i) => old(self)@[i].1,
                None => ValueView::Null,
            },
            final(self)@ == insert_entry(old(self)@, key@, final(r)@),
            unique_keys(old(self)@) ==> unique_keys(insert_entry(old(self)@, key@, final(r)@)),
    {
        proof {
            self.lemma_view();
            lemma_index_of_key(self@, key@);
            if unique_keys(self@) {
                assert forall|v: ValueView| unique_keys(#[trigger] insert_entry(self@, key@, v)) by {
                    lemma_insert_keeps_unique(self@, key@, v);
                }
            }
        }
        let at: usize = match self.position(key) {
            Some(i) => i,
            None => {
                self.entries.push((key.to_owned(), Value::Null));
                self.entries.len() - 1
            },
        };
        let pair: &mut (String, Value) = &mut self.entries[at];
        &mut pair.1
    }

    /// Removes the entry with the given key and returns its value. The
    /// entries after it move up.
    pub fn remove(&mut self, key: &str) -> (r: Option<Value>)
        ensures
            match index_of_key(old(self)@, key@) {
                Some(i) => r matches Some(v) && v@ == old(self)@[i].1 && final(self)@ == old(
                    self,
                )@.remove(i),
                None => r is None && final(self)@ == old(self)@,
            },
            unique_keys(old(self)@) ==> unique_keys(final(self)@),
    {
        proof {
            self.lemma_view();
            lemma_index_of_key(self@, key@);
        }
        match self.position(key) {
            Some(i) => {
                proof {
                    lemma_remove_keeps_unique(self@, i as int);
                }
                let pair: (String, Value) = self.entries.remove(i);
                proof {
                    self.lemma_view();
                    old(self).lemma_view();
                    assert(self@ =~= old(self)@.remove(i as int));
                }
                Some(pair.1)
            },
            None => None,
        }
    }

    /// Removes every entry.
    pub fn clear(&mut self)
        ensures
            final(self)@ == Seq::<(Seq<char>, ValueView)>::empty(),
    {
        self.entries.clear();
        assert(self@ =~= Seq::<(Seq<char>, ValueView)>::empty());
    }
}

/// Whether `a` and `b` are the same value: of the same kind and with the
/// same content. The entries of an object count in any order: the objects
/// have as many entries, and each key of `a` has the same value in `b`.
pub open spec fn same_value(a: ValueView, b: ValueView) -> bool
    decreases a,
{
    match (a, b) {
        (ValueView::Object(x), ValueView::Object(y)) => x.len() == y.len() && forall|i: int|
            0 <= i < x.len() ==> match index_of_key(y, (#[trigger] x[i]).0) {
                Some(j) => 0 <= j < y.len() && same_value(x[i].1, y[j].1),
                None => false,
            },
        (ValueView::Array(x), ValueView::Array(y)) => x.len() == y.len() && forall|i: int|
            0 <= i < x.len() ==> same_value(#[trigger] x[i], y[i]),
        (ValueView::Object(_), _) => false,
        (ValueView::Array(_), _) => false,
        _ => a == b,
    }
}

/// Whether the key of `entry` has the value of `entry` in `y`.
pub open spec fn same_entry(entry: (Seq<char>, ValueView), y: Seq<(Seq<char>, ValueView)>) -> bool {
    match index_of_key(y, entry.0) {
        Some(j) => 0 <= j < y.len() && same_value(entry.1, y[j].1),
        None => false,
    }
}

/// Whether `x` and `y` have as many entries, and each key of `x` has the
/// same value in `y`.
pub open spec fn same_entries(
    x: Seq<(Seq<char>, ValueView)>,
    y: Seq<(Seq<char>, ValueView)>,
) -> bool {
    x.len() == y.len() && forall|i: int| 0 <= i < x.len() ==> same_entry(#[trigger] x[i], y)
}

proof fn lemma_same_entries(x: Seq<(Seq<char>, ValueView)>, y: Seq<(Seq<char>, ValueView)>)
    ensures
        same_entries(x, y) == same_value(ValueView::Object(x), ValueView::Object(y)),
{
    if same_entries(x, y) {
        assert forall|i: int| 0 <= i < x.len() implies match index_of_key(
            y,
            (#[trigger] x[i]).0,
        ) {
            Some(j) => 0 <= j < y.len() && same_value(x[i].1, y[j].1),
            None => false,
        } by {
            assert(same_entry(x[i], y));
        }
    }
    if same_value(ValueView::Object(x), ValueView::Object(y)) {
        assert forall|i: int| 0 <= i < x.len() implies same_entry(#[trigger] x[i], y) by {
        }
    }
}

/// A well-formed value is the same value as itself.
pub proof fn lemma_same_value_reflexive(v: ValueView)
    requires
        v.well_formed(),
    ensures
        same_value(v, v),
    decreases v,
{
    match v {
        ValueView::Object(x) => {
            assert forall|i: int| 0 <= i < x.len() implies same_entry(#[trigger] x[i], x) by {
                lemma_index_of_key(x, x[i].0);
                lemma_same_value_reflexive(x[i].1);
            }
            lemma_same_entries(x, x);
        },
        ValueView::Array(x) => {
            assert forall|i: int| 0 <= i < x.len() implies same_value(#[trigger] x[i], x[i]) by {
                lemma_same_value_reflexive(x[i]);
            }
        },
        _ => {},
    }
}

/// Whether `a` and `b` are the same value.
pub fn values_equal(a: &Value, b: &Value) -> (r: bool)
    ensures
        r == same_value(a@, b@),
    decreases a,
{
    match (a, b) {
        (Value::Object(x), Value::Object(y)) => {
            proof {
                lemma_same_entries(x@, y@);
                assert(decreases_to!(a => a->Object_0));
            }
            objects_equal(x, y)
        },
        (Value::Array(x), Value::Array(y)) => {
            let n: usize = x.len();
            if n != y.len() {
                assert(view_all(x@).len() != view_all(y@).len());
                return false;
            }
            let mut i: usize = 0;
            while i < n
                invariant
                    i <= n,
                    n == x@.len(),
                    n == y@.len(),
                    a == Value::Array(*x),
                    b == Value::Array(*y),
                    forall|j: int| 0 <= j < i ==> same_value(#[trigger] view_all(x@)[j], y@[j]@),
                decreases n - i,
            {
                proof {
                    assert(decreases_to!(a => a->Array_0));
                    assert(decreases_to!(a->Array_0 => x@[i as int]));
                }
                assert(view_all(x@)[i as int] == x@[i as int]@);
                assert(view_all(y@)[i as int] == y@[i as int]@);
                if !values_equal(&x[i], &y[i]) {
                    assert(!same_value(view_all(x@)[i as int], view_all(y@)[i as int]));
                    assert(!same_value(a@, b@));
                    return false;
                }
                i = i + 1;
            }
            assert forall|j: int| 0 <= j < view_all(x@).len() implies same_value(
                #[trigger] view_all(x@)[j],
                view_all(y@)[j],
            ) by {
                assert(view_all(y@)[j] == y@[j]@);
            }
            assert(view_all(x@).len() == view_all(y@).len());
            assert(a@ == ValueView::Array(view_all(x@)));
            assert(b@ == ValueView::Array(view_all(y@)));
            assert(same_value(a@, b@));
            true
        },
        (Value::Object(_), _) => false,
        (Value::Array(_), _) => false,
        (Value::String(x), Value::String(y)) => same_text(x.as_str(), y.as_str()),
        (Value::ByteString(x), Value::ByteString(y)) => bytes_equal(x.as_slice(), y.as_slice()),
        (Value::Number(x), Value::Number(y)) => x == y,
        (Value::Bool(x), Value::Bool(y)) => *x == *y,
        (Value::Null, Value::Null) => true,
        _ => false,
    }
}

/// Whether `a` and `b` hold the same entries, in any order.
pub fn objects_equal(a: &Object, b: &Object) -> (r: bool)
    ensures
        r == same_entries(a@, b@),
    decreases a,
{
    proof {
        a.lemma_view();
        b.lemma_view();
    }
    let n: usize = a.entries.len();
    if n != b.entries.len() {
        return false;
    }
    let mut i: usize = 0;
    while i < n
        invariant
            i <= n,
            n == a.entries@.len(),
            a@.len() == n,
            b@.len() == n,
            forall|j: int| 0 <= j < i ==> same_entry(#[trigger] a@[j], b@),
        decreases n - i,
    {
        proof {
            a.lemma_view();
            assert(decreases_to!(*a => a.entries));
            assert(decreases_to!(a.entries => a.entries@[i as int]));
            assert(decreases_to!(a.entries@[i as int] => a.entries@[i as int].1));
        }
        proof {
            lemma_index_of_key(b@, a@[i as int].0);
        }
        match b.get(a.entries[i].0.as_str()) {
            Some(other) => {
                if !values_equal(&a.entries[i].1, other) {
                    assert(!same_entry(a@[i as int], b@));
                    return false;
                }
                assert(same_entry(a@[i as int], b@));
            },
            None => {
                assert(!same_entry(a@[i as int], b@));
                return false;
            },
        }
        i = i + 1;
    }
    true
}

/// A copy of `v`.
pub fn clone_value(v: &Value) -> (r: Value)
    ensures
        r@ == v@,
    decreases v,
{
    match v {
        Value::Object(object) => Value::Object(clone_object(object)),
        Value::Array(items) => {
            let n: usize = items.len();
            let mut out: Vec<Value> = Vec::new();
            let mut i: usize = 0;
            while i < n
                invariant
                    i <= n,
                    n == items@.len(),
                    v == Value::Array(*items),
                    out@.len() == i,
                    forall|j: int| 0 <= j < i ==> out@[j]@ == items@[j]@,
                decreases n - i,
            {
                let item: &Value = &items[i];
                proof {
                    assert(decreases_to!(v => v->Array_0));
                    assert(decreases_to!(v->Array_0 => items@[i as int]));
                }
                let copy: Value = clone_value(item);
                out.push(copy);
                i = i + 1;
            }
            assert(Value::Array(out)@->Array_0 =~= v@->Array_0);
            Value::Array(out)
        },
        Value::String(text) => Value::String(text.clone()),
        Value::ByteString(bytes) => Value::ByteString(copy_bytes(bytes.as_slice())),
        Value::Number(number) => Value::Number(number.clone()),
        Value::Bool(b) => Value::Bool(*b),
        Value::Null => Value::Null,
    }
}

/// A copy of `object`.
pub fn clone_object(object: &Object) -> (r: Object)
    ensures
        r@ == object@,
    decreases object,
{
    let n: usize = object.entries.len();
    let mut entries: Vec<(String, Value)> = Vec::new();
    let mut i: usize = 0;
    while i < n
        invariant
            i <= n,
            n == object.entries@.len(),
            entries@.len() == i,
            forall|j: int|
                0 <= j < i ==> (#[trigger] entries@[j]).0@ == object.entries@[j].0@ && entries@[j].1@
                    == object.entries@[j].1@,
        decreases n - i,
    {
        let key: String = object.entries[i].0.clone();
        let value: Value = clone_value(&object.entries[i].1);
        entries.push((key, value));
        i = i + 1;
    }
    let r = Object { entries };
    proof {
        r.lemma_view();
        object.lemma_view();
        assert(r@ =~= object@);
    }
    r
}

impl Clone for Value {
    fn clone(&self) -> (r: Value)
        ensures
            r@ == self@,
    {
        clone_value(self)
    }
}

impl Clone for Object {
    fn clone(&self) -> (r: Object)
        ensures
            r@ == self@,
    {
        clone_object(self)
    }
}

impl PartialEq for Value {
    fn eq(&self, other: &Value) -> (r: bool) {
        values_equal(self, other)
    }
}

impl vstd::std_specs::cmp::PartialEqSpecImpl for Value {
    open spec fn obeys_eq_spec() -> bool {
        true
    }

    open spec fn eq_spec(&self, other: &Value) -> bool {
        same_value(self@, other@)
    }
}

impl PartialEq for Object {
    fn eq(&self, other: &Object) -> (r: bool) {
        objects_equal(self, other)
    }
}

impl vstd::std_specs::cmp::PartialEqSpecImpl for Object {
    open spec fn obeys_eq_spec() -> bool {
        true
    }

    open spec fn eq_spec(&self, other: &Object) -> bool {
        same_entries(self@, other@)
    }
}

/// The name of the kind of value that `v` is.
pub open spec fn value_type_spec(v: ValueView) -> Seq<char> {
    match v {
        ValueView::Null => "null"@,
        ValueView::Bool(_) => "boolean"@,
        ValueView::Number(_) => "number"@,
        ValueView::String(_) => "string"@,
        ValueView::ByteString(_) => "byte string"@,
        ValueView::Array(_) => "array"@,
        ValueView::Object(_) => "object"@,
    }
}

impl Value {
    /// Return a string description of the `Value`.
    pub fn value_type(&self) -> (r: &'static str)
        ensures
            r@ == value_type_spec(self@),
    {
        match self {
            Value::Null => "null",
            Value::Bool(_) => "boolean",
            Value::Number(_) => "number",
            Value::String(_) => "string",
            Value::ByteString(_) => "byte string",
            Value::Array(_) => "array",
            Value::Object(_) => "object",
        }
    }

    /// Returns true if the `Value` is an Object. Returns false otherwise.
    pub fn is_object(&self) -> (r: bool)
        ensures
            r == (self@ is Object),
    {
        self.as_object().is_some()
    }

    /// If the `Value` is an Object, returns the associated object. Returns
    /// None otherwise.
    pub fn as_object(&self) -> (r: Option<&Object>)
        ensures
            match r {
                Some(object) => self@ == ValueView::Object(object@),
                None => !(self@ is Object),
            },
    {
        match self {
            Value::Object(object) => Some(object),
            _ => None,
        }
    }

    /// If the `Value` is an Object, returns the associated mutable object.
    /// Returns None otherwise.
    pub fn as_object_mut(&mut self) -> (r: Option<&mut Object>)
        ensures
            match r {
                Some(object) => old(self)@ == ValueView::Object(object@) && final(self)@
                    == ValueView::Object(final(object)@),
                None => !(old(self)@ is Object) && final(self)@ == old(self)@,
            },
    {
        match self {
            Value::Object(object) => Some(object),
            _ => None,
        }
    }

    /// Returns true if the `Value` is an Array. Returns false otherwise.
    pub fn is_array(&self) -> (r: bool)
        ensures
            r == (self@ is Array),
    {
        self.as_array().is_some()
    }

    /// If the `Value` is an Array, returns the associated vector. Returns
    /// None otherwise.
    pub fn as_array(&self) -> (r: Option<&Vec<Value>>)
        ensures
            match r {
                Some(items) => self@ == ValueView::Array(view_all(items@)),
                None => !(self@ is Array),
            },
    {
        match self {
            Value::Array(items) => {
                Some(items)
            },
            _ => None,
        }
    }

    /// If the `Value` is an Array, returns the associated mutable vector.
    /// Returns None otherwise.
    pub fn as_array_mut(&mut self) -> (r: Option<&mut Vec<Value>>)
        ensures
            match r {
                Some(items) => old(self)@ == ValueView::Array(view_all(items@)) && final(self)@
                    == ValueView::Array(view_all(final(items)@)),
                None => !(old(self)@ is Array) && final(self)@ == old(self)@,
            },
    {
        match self {
            Value::Array(items) => {
                Some(items)
            },
            _ => None,
        }
    }

    /// Returns true if the `Value` is a String. Returns false otherwise.
    pub fn is_string(&self) -> (r: bool)
        ensures
            r == (self@ is String),
    {
        self.as_str().is_some()
    }

    /// If the `Value` is a String, returns the associated str. Returns None
    /// otherwise.
    pub fn as_str(&self) -> (r: Option<&str>)
        ensures
            match r {
                Some(text) => self@ == ValueView::String(text@),
                None => !(self@ is String),
            },
    {
        match self {
            Value::String(text) => Some(text.as_str()),
            _ => None,
        }
    }

    /// Returns true if the `Value` is a byte string. Returns false otherwise.
    pub fn is_byte_string(&self) -> (r: bool)
        ensures
            r == (self@ is ByteString),
    {
        self.as_bytes().is_some()
    }

    /// If the `Value` is a byte string, returns its bytes. Returns None
    /// otherwise.
    pub fn as_bytes(&self) -> (r: Option<&[u8]>)
        ensures
            match r {
                Some(bytes) => self@ == ValueView::ByteString(bytes@),
                None => !(self@ is ByteString),
            },
    {
        match self {
            Value::ByteString(bytes) => Some(bytes.as_slice()),
            _ => None,
        }
    }

    /// Returns true if the `Value` is a Number. Returns false otherwise.
    pub fn is_number(&self) -> (r: bool)
        ensures
            r == (self@ is Number),
    {
        self.as_number().is_some()
    }

    /// If the `Value` is a Number, returns the associated number. Returns
    /// None otherwise.
    pub fn as_number(&self) -> (r: Option<&Number>)
        ensures
            match r {
                Some(number) => self@ == ValueView::Number(number@),
                None => !(self@ is Number),
            },
    {
        match self {
            Value::Number(number) => Some(number),
            _ => None,
        }
    }

    /// Returns true if the `Value` is a Boolean. Returns false otherwise.
    pub fn is_boolean(&self) -> (r: bool)
        ensures
            r == (self@ is Bool),
    {
        self.as_bool().is_some()
    }

    /// If the `Value` is a Boolean, returns the associated bool. Returns
    /// None otherwise.
    pub fn as_bool(&self) -> (r: Option<bool>)
        ensures
            match r {
                Some(b) => self@ == ValueView::Bool(b),
                None => !(self@ is Bool),
            },
    {
        match self {
            Value::Bool(b) => Some(*b),
            _ => None,
        }
    }

    /// Returns true if the `Value` is a Null. Returns false otherwise.
    pub fn is_null(&self) -> (r: bool)
        ensures
            r == (self@ is Null),
    {
        self.as_null().is_some()
    }

    /// If the `Value` is a Null, returns (). Returns None otherwise.
    pub fn as_null(&self) -> (r: Option<()>)
        ensures
            r is Some <==> self@ is Null,
    {
        match self {
            Value::Null => Some(()),
            _ => None,
        }
    }

    /// Takes the value out of the `Value`, leaving a `Null` in its place.
    pub fn take(&mut self) -> (r: Value)
        ensures
            r@ == old(self)@,
            final(self)@ == ValueView::Null,
    {
        let mut taken: Value = Value::Null;
        core::mem::swap(self, &mut taken);
        taken
    }
}

impl Default for Value {
    fn default() -> (r: Value)
        ensures
            r@ == ValueView::Null,
    {
        Value::Null
    }
}

} // verus!
