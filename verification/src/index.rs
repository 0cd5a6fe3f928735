//! Indexing into a value by a key or by a place.

use vstd::prelude::*;
use crate::value::{index_of_key, insert_entry, item_mut, Object, Value, ValueView, view_all};

verus! {

/// The value under `key` in `v`, where `v` is an object that has the key.
pub open spec fn key_lookup(v: ValueView, key: Seq<char>) -> Option<ValueView> {
    match v {
        ValueView::Object(entries) => match index_of_key(entries, key) {
            Some(i) => Some(entries[i].1),
            None => None,
        },
        _ => None,
    }
}

/// `v` with `key` set to `value`; a null counts as an object without
/// entries.
pub open spec fn key_insert(v: ValueView, key: Seq<char>, value: ValueView) -> ValueView {
    match v {
        ValueView::Object(entries) => ValueView::Object(insert_entry(entries, key, value)),
        _ => ValueView::Object(insert_entry(Seq::empty(), key, value)),
    }
}

/// The item at place `i` of `v`, where `v` is an array that has the place.
pub open spec fn place_lookup(v: ValueView, i: int) -> Option<ValueView> {
    match v {
        ValueView::Array(items) => if 0 <= i < items.len() {
            Some(items[i])
        } else {
            None
        },
        _ => None,
    }
}

/// The array `v` with `value` at place `i`, or at its end where `i` is its
/// length.
pub open spec fn place_insert(v: ValueView, i: int, value: ValueView) -> ValueView {
    match v {
        ValueView::Array(items) => if 0 <= i < items.len() {
            ValueView::Array(items.update(i, value))
        } else {
            ValueView::Array(items.push(value))
        },
        _ => v,
    }
}

/// Keeps the types that index a value to those of this crate.
pub trait Sealed {

}

/// A type that can be used to index into a `Value`: a string names an entry
/// of an object, a `usize` a place of an array.
pub trait Index: Sealed {
    /// The value that the index names in `v`.
    spec fn lookup(&self, v: ValueView) -> Option<ValueView>;

    /// Whether the index can name a place in `v` to write to.
    spec fn insertable(&self, v: ValueView) -> bool;

    /// `v` with `value` at the place that the index names.
    spec fn insert(&self, v: ValueView, value: ValueView) -> ValueView;

    /// The value that the index names, if there is one.
    fn index_into<'v>(&self, v: &'v Value) -> (r: Option<&'v Value>)
        ensures
            match r {
                Some(found) => self.lookup(v@) == Some(found@),
                None => self.lookup(v@) is None,
            },
    ;

    /// The value that the index names, if there is one, to be changed in
    /// place.
    fn index_into_mut<'v>(&self, v: &'v mut Value) -> (r: Option<&'v mut Value>)
        ensures
            match r {
                Some(found) => self.lookup(old(v)@) == Some(found@) && final(v)@ =~~= self.insert(
                    old(v)@,
                    final(found)@,
                ),
                None => self.lookup(old(v)@) is None && final(v)@ == old(v)@,
            },
    ;

    /// The value that the index names, made first where it is missing: a
    /// key is added with a null value, to an object or to a null, which
    /// becomes an object; the place after the last item of an array is
    /// filled with a null.
    fn index_or_insert<'v>(&self, v: &'v mut Value) -> (r: &'v mut Value)
        requires
            self.insertable(old(v)@),
        ensures
            r@ == match self.lookup(old(v)@) {
                Some(found) => found,
                None => ValueView::Null,
            },
            final(v)@ =~~= self.insert(old(v)@, final(r)@),
    ;
}

impl Sealed for usize {

}

impl Sealed for str {

}

impl Sealed for String {

}

impl<T: ?Sized + Sealed> Sealed for &T {

}

impl Index for usize {
    open spec fn lookup(&self, v: ValueView) -> Option<ValueView> {
        place_lookup(v, *self as int)
    }

    open spec fn insertable(&self, v: ValueView) -> bool {
        v matches ValueView::Array(items) && *self <= items.len()
    }

    open spec fn insert(&self, v: ValueView, value: ValueView) -> ValueView {
        place_insert(v, *self as int, value)
    }

    fn index_into<'v>(&self, v: &'v Value) -> (r: Option<&'v Value>) {
        match v {
            Value::Array(items) => if *self < items.len() {
                Some(&items[*self])
            } else {
                None
            },
            _ => None,
        }
    }

    fn index_into_mut<'v>(&self, v: &'v mut Value) -> (r: Option<&'v mut Value>) {
        match v {
            Value::Array(items) => if *self < items.len() {
                Some(item_mut(items, *self))
            } else {
                None
            },
            _ => None,
        }
    }

    fn index_or_insert<'v>(&self, v: &'v mut Value) -> (r: &'v mut Value) {
        match v {
            Value::Array(items) => {
                if *self == items.len() {
                    let ghost before = items@;
                    items.push(Value::Null);
                    assert(view_all(items@) =~= view_all(before).push(ValueView::Null));
                    assert forall|x: ValueView| #[trigger]
                        view_all(before).push(ValueView::Null).update(*self as int, x)
                            == view_all(before).push(x) by {
                        assert(view_all(before).push(ValueView::Null).update(*self as int, x)
                            =~= view_all(before).push(x));
                    }
                }
                item_mut(items, *self)
            },
            _ => {
                assert(false);
                v
            },
        }
    }
}

impl Index for str {
    open spec fn lookup(&self, v: ValueView) -> Option<ValueView> {
        key_lookup(v, self@)
    }

    open spec fn insertable(&self, v: ValueView) -> bool {
        v is Object || v is Null
    }

    open spec fn insert(&self, v: ValueView, value: ValueView) -> ValueView {
        key_insert(v, self@, value)
    }

    fn index_into<'v>(&self, v: &'v Value) -> (r: Option<&'v Value>) {
        match v {
            Value::Object(object) => object.get(self),
            _ => None,
        }
    }

    fn index_into_mut<'v>(&self, v: &'v mut Value) -> (r: Option<&'v mut Value>) {
        match v {
            Value::Object(object) => object.get_mut(self),
            _ => None,
        }
    }

    fn index_or_insert<'v>(&self, v: &'v mut Value) -> (r: &'v mut Value) {
        if v.is_null() {
            *v = Value::Object(Object::new());
        }
        match v {
            Value::Object(object) => object.entry_or_insert(self),
            _ => {
                assert(false);
                v
            },
        }
    }
}

impl Index for String {
    open spec fn lookup(&self, v: ValueView) -> Option<ValueView> {
        key_lookup(v, self@)
    }

    open spec fn insertable(&self, v: ValueView) -> bool {
        v is Object || v is Null
    }

    open spec fn insert(&self, v: ValueView, value: ValueView) -> ValueView {
        key_insert(v, self@, value)
    }

    fn index_into<'v>(&self, v: &'v Value) -> (r: Option<&'v Value>) {
        self.as_str().index_into(v)
    }

    fn index_into_mut<'v>(&self, v: &'v mut Value) -> (r: Option<&'v mut Value>) {
        self.as_str().index_into_mut(v)
    }

    fn index_or_insert<'v>(&self, v: &'v mut Value) -> (r: &'v mut Value) {
        self.as_str().index_or_insert(v)
    }
}

impl<T: ?Sized + Index> Index for &T {
    open spec fn lookup(&self, v: ValueView) -> Option<ValueView> {
        (**self).lookup(v)
    }

    open spec fn insertable(&self, v: ValueView) -> bool {
        (**self).insertable(v)
    }

    open spec fn insert(&self, v: ValueView, value: ValueView) -> ValueView {
        (**self).insert(v, value)
    }

    fn index_into<'v>(&self, v: &'v Value) -> (r: Option<&'v Value>) {
        (**self).index_into(v)
    }

    fn index_into_mut<'v>(&self, v: &'v mut Value) -> (r: Option<&'v mut Value>) {
        (**self).index_into_mut(v)
    }

    fn index_or_insert<'v>(&self, v: &'v mut Value) -> (r: &'v mut Value) {
        (**self).index_or_insert(v)
    }
}

impl Value {
    /// Index into an array or object. A string index can be used to access
    /// a value in an object, and a usize index can be used to access an
    /// element of an array. Returns `None` where the kind of value does not
    /// match the kind of index, the key is absent, or the place is out of
    /// range.
    pub fn get<I: Index>(&self, index: I) -> (r: Option<&Value>)
        ensures
            match r {
                Some(found) => index.lookup(self@) == Some(found@),
                None => index.lookup(self@) is None,
            },
    {
        index.index_into(self)
    }

    /// Mutably index into an array or object, as `get` does.
    pub fn get_mut<I: Index>(&mut self, index: I) -> (r: Option<&mut Value>)
        ensures
            match r {
                Some(found) => index.lookup(old(self)@) == Some(found@) && final(self)@
                    =~~= index.insert(old(self)@, final(found)@),
                None => index.lookup(old(self)@) is None && final(self)@ == old(self)@,
            },
    {
        index.index_into_mut(self)
    }

    /// The value that `index` names, for writing. A key that the object
    /// lacks is added with a null value, and a null becomes an object first;
    /// the place after the last item of an array is filled with a null.
    pub fn index_mut<I: Index>(&mut self, index: I) -> (r: &mut Value)
        requires
            index.insertable(old(self)@),
        ensures
            r@ == match index.lookup(old(self)@) {
                Some(found) => found,
                None => ValueView::Null,
            },
            final(self)@ =~~= index.insert(old(self)@, final(r)@),
    {
        index.index_or_insert(self)
    }

    /// The value that `index` names, or a null where `get` finds nothing:
    /// reading along a path that is not there never fails.
    pub fn index<I: Index>(&self, index: I) -> (r: &Value)
        ensures
            r@ == match index.lookup(self@) {
                Some(found) => found,
                None => ValueView::Null,
            },
    {
        match index.index_into(self) {
            Some(found) => found,
            None => &Value::Null,
        }
    }
}

} // verus!
