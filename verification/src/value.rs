//! The JSON value tree and its mathematical model.

use crate::number::Number;
use vstd::prelude::*;

verus! {

/// A JSON value.
///
/// An object is a list of fields in a fixed order; that order is the order in
/// which its fields are visited. A key is looked up from the front, so of two
/// fields with one key only the first is ever found.
#[derive(Debug, PartialEq, Eq)]
pub enum Value {
    Null,
    Bool(bool),
    Number(Number),
    String(String),
    Array(Vec<Value>),
    Object(Vec<(String, Value)>),
}

/// The mathematical model of a [`Value`]: the same tree over sequences.
pub ghost enum ValueView {
    Null,
    Bool(bool),
    Number(Number),
    String(Seq<char>),
    Array(Seq<ValueView>),
    Object(Seq<(Seq<char>, ValueView)>),
}

impl View for Value {
    type V = ValueView;

    open spec fn view(&self) -> ValueView {
        model(*self)
    }
}

/// The model of `value`: the same tree, with the model of each element and
/// of each field's value in the place of the element or value.
pub open spec fn model(value: Value) -> ValueView
    decreases value,
{
    match value {
        Value::Null => ValueView::Null,
        Value::Bool(b) => ValueView::Bool(b),
        Value::Number(n) => ValueView::Number(n),
        Value::String(s) => ValueView::String(s@),
        Value::Array(items) => ValueView::Array(
            Seq::new(
                items@.len(),
                |i: int|
                    if 0 <= i < items@.len() {
                        model(items@[i])
                    } else {
                        ValueView::Null
                    },
            ),
        ),
        Value::Object(fields) => ValueView::Object(
            Seq::new(
                fields@.len(),
                |i: int|
                    if 0 <= i < fields@.len() {
                        (fields@[i].0@, model(fields@[i].1))
                    } else {
                        (Seq::empty(), ValueView::Null)
                    },
            ),
        ),
    }
}

impl Value {
    /// The model of an array holds the models of its elements, in order.
    pub proof fn lemma_array_view(items: Vec<Value>)
        ensures
            Value::Array(items)@ is Array,
            Value::Array(items)@->Array_0.len() == items@.len(),
            forall|i: int|
                0 <= i < items@.len() ==> #[trigger] Value::Array(items)@->Array_0[i]
                    == items@[i]@,
    {
    }

    /// The model of an object holds the keys of its fields and the models of
    /// their values, in order.
    pub proof fn lemma_object_view(fields: Vec<(String, Value)>)
        ensures
            Value::Object(fields)@ is Object,
            Value::Object(fields)@->Object_0.len() == fields@.len(),
            forall|i: int|
                0 <= i < fields@.len() ==> #[trigger] Value::Object(fields)@->Object_0[i] == (
                    fields@[i].0@,
                    fields@[i].1@,
                ),
    {
    }
}

impl Clone for Value {
    /// A deep copy: a tree of its own with the same model.
    fn clone(&self) -> (copy: Value)
        ensures
            copy@ == self@,
        decreases self@.depth(),
    {
        match self {
            Value::Null => Value::Null,
            Value::Bool(b) => Value::Bool(*b),
            Value::Number(n) => Value::Number(*n),
            Value::String(s) => Value::String(s.clone()),
            Value::Array(items) => {
                let mut copies: Vec<Value> = Vec::with_capacity(items.len());
                let mut i: usize = 0;
                while i < items.len()
                    invariant
                        *self == Value::Array(*items),
                        i <= items.len(),
                        copies.len() == i,
                        forall|j: int| 0 <= j < i ==> copies[j]@ == items[j]@,
                    decreases items.len() - i,
                {
                    proof {
                        Value::lemma_array_view(*items);
                        ValueView::lemma_item_depth(self@->Array_0, i as int);
                    }
                    copies.push(items[i].clone());
                    i += 1;
                }
                let copy = Value::Array(copies);
                proof {
                    Value::lemma_array_view(*items);
                    Value::lemma_array_view(copies);
                }
                assert(copy@->Array_0 =~= self@->Array_0);
                copy
            },
            Value::Object(fields) => {
                let mut copies: Vec<(String, Value)> = Vec::with_capacity(fields.len());
                let mut i: usize = 0;
                while i < fields.len()
                    invariant
                        *self == Value::Object(*fields),
                        i <= fields.len(),
                        copies.len() == i,
                        forall|j: int|
                            0 <= j < i ==> copies[j].0@ == fields[j].0@ && copies[j].1@
                                == fields[j].1@,
                    decreases fields.len() - i,
                {
                    proof {
                        Value::lemma_object_view(*fields);
                        ValueView::lemma_field_depth(self@->Object_0, i as int);
                    }
                    copies.push((fields[i].0.clone(), fields[i].1.clone()));
                    i += 1;
                }
                let copy = Value::Object(copies);
                proof {
                    Value::lemma_object_view(*fields);
                    Value::lemma_object_view(copies);
                }
                assert(copy@->Object_0 =~= self@->Object_0);
                copy
            },
        }
    }
}

/// Whether `a` and `b` are of the same one of the six variants.
pub fn same_json_type(a: &Value, b: &Value) -> (same: bool)
    ensures
        same == a@.same_kind(b@),
{
    match (a, b) {
        (Value::Null, Value::Null) => true,
        (Value::Bool(_), Value::Bool(_)) => true,
        (Value::Number(_), Value::Number(_)) => true,
        (Value::String(_), Value::String(_)) => true,
        (Value::Array(_), Value::Array(_)) => true,
        (Value::Object(_), Value::Object(_)) => true,
        _ => false,
    }
}

/// Whether two leaves of the same variant are equal. Of an array or an
/// object it says `false`.
pub fn primitive_equal(a: &Value, b: &Value) -> (equal: bool)
    ensures
        equal == a@.same_primitive(b@),
{
    match (a, b) {
        (Value::Null, Value::Null) => true,
        (Value::Bool(x), Value::Bool(y)) => *x == *y,
        (Value::Number(x), Value::Number(y)) => *x == *y,
        (Value::String(x), Value::String(y)) => *x == *y,
        _ => false,
    }
}

/// The position of the first field of `fields` with the key `key`.
pub fn find_field(fields: &Vec<(String, Value)>, key: &String) -> (found: Option<usize>)
    ensures
        match found {
            Some(i) => {
                &&& i < fields.len()
                &&& fields[i as int].0@ == key@
                &&& forall|j: int| 0 <= j < i ==> fields[j].0@ != key@
            },
            None => forall|j: int| 0 <= j < fields.len() ==> fields[j].0@ != key@,
        },
{
    let mut i: usize = 0;
    while i < fields.len()
        invariant
            i <= fields.len(),
            forall|j: int| 0 <= j < i ==> fields[j].0@ != key@,
        decreases fields.len() - i,
    {
        if fields[i].0 == *key {
            return Some(i);
        }
        i += 1;
    }
    None
}

/// The element of `items` at `i`, and `Null` where `i` is past the end.
pub open spec fn item_or_null(items: Seq<ValueView>, i: int) -> ValueView {
    if 0 <= i < items.len() {
        items[i]
    } else {
        ValueView::Null
    }
}

/// Whether some field of `fields` has the key `key`.
pub open spec fn has_key(fields: Seq<(Seq<char>, ValueView)>, key: Seq<char>) -> bool {
    exists|i: int| 0 <= i < fields.len() && #[trigger] fields[i].0 == key
}

/// Whether `i` is the first position in `fields` that holds `key`.
pub open spec fn is_first(fields: Seq<(Seq<char>, ValueView)>, key: Seq<char>, i: int) -> bool {
    &&& 0 <= i < fields.len()
    &&& fields[i].0 == key
    &&& forall|j: int| 0 <= j < i ==> #[trigger] fields[j].0 != key
}

/// The value of the first field of `fields` with the key `key`.
pub open spec fn lookup(fields: Seq<(Seq<char>, ValueView)>, key: Seq<char>) -> Option<
    ValueView,
> {
    if has_key(fields, key) {
        Some(fields[choose|i: int| is_first(fields, key, i)].1)
    } else {
        None
    }
}

/// A position that is first for its key is the one that `lookup` finds.
pub proof fn lemma_lookup_first(fields: Seq<(Seq<char>, ValueView)>, key: Seq<char>, i: int)
    requires
        is_first(fields, key, i),
    ensures
        lookup(fields, key) == Some(fields[i].1),
{
    let k = choose|k: int| is_first(fields, key, k);
    assert(fields[i].0 == key);
    if k < i {
        assert(fields[k].0 != key);
    } else if i < k {
        assert(fields[i].0 != key);
    }
}

/// A key that no field holds is not found.
pub proof fn lemma_lookup_absent(fields: Seq<(Seq<char>, ValueView)>, key: Seq<char>)
    requires
        forall|j: int| 0 <= j < fields.len() ==> #[trigger] fields[j].0 != key,
    ensures
        lookup(fields, key) is None,
{
}

/// Whether no two fields of `fields` share a key.
pub open spec fn distinct_keys(fields: Seq<(Seq<char>, ValueView)>) -> bool {
    forall|i: int, j: int|
        0 <= i < j < fields.len() ==> (#[trigger] fields[i]).0 != (#[trigger] fields[j]).0
}

/// Whether every object in `value`, at any depth, has distinct keys.
pub open spec fn well_formed(value: ValueView) -> bool
    decreases value,
{
    match value {
        ValueView::Array(items) => forall|i: int|
            0 <= i < items.len() ==> well_formed(#[trigger] items[i]),
        ValueView::Object(fields) => distinct_keys(fields) && forall|i: int|
            0 <= i < fields.len() ==> well_formed((#[trigger] fields[i]).1),
        _ => true,
    }
}

/// Tells whether every object in `value`, at any depth, has distinct keys.
pub fn is_well_formed(value: &Value) -> (ok: bool)
    ensures
        ok == well_formed(value@),
    decreases value@.depth(),
{
    match value {
        Value::Array(items) => {
            let ghost xs = value@->Array_0;
            proof {
                Value::lemma_array_view(*items);
            }
            let mut i: usize = 0;
            while i < items.len()
                invariant
                    i <= items@.len(),
                    value@ == ValueView::Array(xs),
                    xs.len() == items@.len(),
                    forall|k: int| 0 <= k < xs.len() ==> xs[k] == items@[k]@,
                    forall|k: int| 0 <= k < i ==> well_formed(#[trigger] xs[k]),
                decreases items@.len() - i,
            {
                proof {
                    ValueView::lemma_item_depth(xs, i as int);
                }
                if !is_well_formed(&items[i]) {
                    assert(!well_formed(xs[i as int]));
                    return false;
                }
                i += 1;
            }
            true
        },
        Value::Object(fields) => {
            let ghost fs = value@->Object_0;
            proof {
                Value::lemma_object_view(*fields);
            }
            let mut i: usize = 0;
            while i < fields.len()
                invariant
                    i <= fields@.len(),
                    value@ == ValueView::Object(fs),
                    fs.len() == fields@.len(),
                    forall|k: int| 0 <= k < fs.len() ==> fs[k] == (fields@[k].0@, fields@[k].1@),
                    forall|k: int| 0 <= k < i ==> well_formed((#[trigger] fs[k]).1),
                    forall|j: int, k: int|
                        0 <= j < k < i ==> (#[trigger] fs[j]).0 != (#[trigger] fs[k]).0,
                decreases fields@.len() - i,
            {
                let first = find_field(fields, &fields[i].0);
                if first != Some(i) {
                    proof {
                        let j = first->0 as int;
                        assert(fs[j].0 == fs[i as int].0);
                    }
                    return false;
                }
                proof {
                    ValueView::lemma_field_depth(fs, i as int);
                }
                if !is_well_formed(&fields[i].1) {
                    assert(!well_formed(fs[i as int].1));
                    return false;
                }
                i += 1;
            }
            true
        },
        _ => true,
    }
}

impl ValueView {
    /// Whether both values are of the same one of the six variants.
    pub open spec fn same_kind(self, other: ValueView) -> bool {
        match (self, other) {
            (ValueView::Null, ValueView::Null) => true,
            (ValueView::Bool(_), ValueView::Bool(_)) => true,
            (ValueView::Number(_), ValueView::Number(_)) => true,
            (ValueView::String(_), ValueView::String(_)) => true,
            (ValueView::Array(_), ValueView::Array(_)) => true,
            (ValueView::Object(_), ValueView::Object(_)) => true,
            _ => false,
        }
    }

    /// Equality of two leaves: the same variant holding the same content,
    /// numbers compared as numbers.
    pub open spec fn same_primitive(self, other: ValueView) -> bool {
        match (self, other) {
            (ValueView::Null, ValueView::Null) => true,
            (ValueView::Bool(x), ValueView::Bool(y)) => x == y,
            (ValueView::Number(x), ValueView::Number(y)) => x.same(y),
            (ValueView::String(x), ValueView::String(y)) => x == y,
            _ => false,
        }
    }

    /// The nesting depth: 0 for a leaf, and one more than the deepest child
    /// for an array or an object.
    pub open spec fn depth(self) -> nat
        decreases self, 0nat,
    {
        match self {
            ValueView::Array(items) => 1 + items_depth(items, items.len()),
            ValueView::Object(fields) => 1 + fields_depth(fields, fields.len()),
            _ => 0,
        }
    }

    /// An element of an array, or the `Null` that pads it, is less deep than
    /// the array.
    pub proof fn lemma_item_depth(items: Seq<ValueView>, i: int)
        ensures
            item_or_null(items, i).depth() < ValueView::Array(items).depth(),
    {
        if 0 <= i < items.len() {
            lemma_items_depth_bounds(items, items.len(), i);
        }
    }

    /// The value of a field is less deep than the object.
    pub proof fn lemma_field_depth(fields: Seq<(Seq<char>, ValueView)>, i: int)
        requires
            0 <= i < fields.len(),
        ensures
            fields[i].1.depth() < ValueView::Object(fields).depth(),
    {
        lemma_fields_depth_bounds(fields, fields.len(), i);
    }
}

/// The depth of the deepest of the first `n` elements of `items`.
pub open spec fn items_depth(items: Seq<ValueView>, n: nat) -> nat
    decreases items, n,
{
    if n == 0 || n > items.len() {
        0
    } else if items[n - 1].depth() >= items_depth(items, (n - 1) as nat) {
        items[n - 1].depth()
    } else {
        items_depth(items, (n - 1) as nat)
    }
}

/// The depth of the deepest of the values of the first `n` fields of `fields`.
pub open spec fn fields_depth(fields: Seq<(Seq<char>, ValueView)>, n: nat) -> nat
    decreases fields, n,
{
    if n == 0 || n > fields.len() {
        0
    } else if fields[n - 1].1.depth() >= fields_depth(fields, (n - 1) as nat) {
        fields[n - 1].1.depth()
    } else {
        fields_depth(fields, (n - 1) as nat)
    }
}

proof fn lemma_items_depth_bounds(items: Seq<ValueView>, n: nat, i: int)
    requires
        0 <= i < n <= items.len(),
    ensures
        items[i].depth() <= items_depth(items, n),
    decreases n,
{
    if i < n - 1 {
        lemma_items_depth_bounds(items, (n - 1) as nat, i);
    }
}

proof fn lemma_fields_depth_bounds(fields: Seq<(Seq<char>, ValueView)>, n: nat, i: int)
    requires
        0 <= i < n <= fields.len(),
    ensures
        fields[i].1.depth() <= fields_depth(fields, n),
    decreases n,
{
    if i < n - 1 {
        lemma_fields_depth_bounds(fields, (n - 1) as nat, i);
    }
}

} // verus!
