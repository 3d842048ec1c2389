//! The comparison of two value trees.

use crate::laws::{
    agree, lemma_agree_reflexive, lemma_empty_iff_agree, lemma_entries_nontrivial, nontrivial,
};
use crate::path::{field_path, index_path, make_field_path, make_index_path};
use crate::value::{
    find_field, has_key, item_or_null, lemma_lookup_absent, lemma_lookup_first, lookup,
    primitive_equal, same_json_type, well_formed, Value, ValueView,
};
use vstd::prelude::*;

verus! {

/// One place where two trees disagree.
#[derive(Debug, PartialEq, Eq)]
pub struct Difference {
    /// Where the disagreement lies.
    pub path: String,
    /// The value in the first tree; `None` where the first tree has nothing
    /// there.
    pub before: Option<Value>,
    /// The value in the second tree; `None` where the second tree has
    /// nothing there.
    pub after: Option<Value>,
}

/// The mathematical model of a [`Difference`].
pub ghost struct DifferenceView {
    pub path: Seq<char>,
    pub before: Option<ValueView>,
    pub after: Option<ValueView>,
}

impl View for Difference {
    type V = DifferenceView;

    open spec fn view(&self) -> DifferenceView {
        DifferenceView {
            path: self.path@,
            before: match self.before {
                Some(value) => Some(value@),
                None => None,
            },
            after: match self.after {
                Some(value) => Some(value@),
                None => None,
            },
        }
    }
}

impl Clone for Difference {
    /// A copy of its own with the same model.
    fn clone(&self) -> (copy: Difference)
        ensures
            copy@ == self@,
    {
        Difference {
            path: self.path.clone(),
            before: match &self.before {
                Some(value) => Some(value.clone()),
                None => None,
            },
            after: match &self.after {
                Some(value) => Some(value.clone()),
                None => None,
            },
        }
    }
}

/// The models of a list of differences, in order.
pub open spec fn views(differences: Seq<Difference>) -> Seq<DifferenceView> {
    differences.map_values(|d: Difference| d@)
}

/// The record of a value that is `before` in the first tree and `after` in
/// the second.
pub open spec fn changed(path: Seq<char>, before: ValueView, after: ValueView) -> DifferenceView {
    DifferenceView { path, before: Some(before), after: Some(after) }
}

/// The record of a field that only the first tree has. Its path is the bare
/// key, wherever the object lies.
pub open spec fn removed(key: Seq<char>, before: ValueView) -> DifferenceView {
    DifferenceView { path: key, before: Some(before), after: None }
}

/// The record of a field that only the second tree has.
pub open spec fn added(path: Seq<char>, after: ValueView) -> DifferenceView {
    DifferenceView { path, before: None, after: Some(after) }
}

/// The larger of two lengths.
pub open spec fn longer(m: nat, n: nat) -> nat {
    if m >= n {
        m
    } else {
        n
    }
}

/// The differences between `a` and `b`, where both lie at `path`.
///
/// Values of different variants are one difference, and so are unequal
/// leaves. Arrays are compared element by element, the shorter one padded
/// with `Null`. Objects are compared field by field: first the fields of `a`
/// in their order, then the fields that only `b` has, in their order.
pub open spec fn diff(a: ValueView, b: ValueView, path: Seq<char>) -> Seq<DifferenceView>
    decreases a.depth(), 1nat, 0nat,
{
    if !a.same_kind(b) {
        seq![changed(path, a, b)]
    } else {
        match (a, b) {
            (ValueView::Array(xs), ValueView::Array(ys)) => diff_items(
                xs,
                ys,
                path,
                longer(xs.len(), ys.len()),
            ),
            (ValueView::Object(fs), ValueView::Object(gs)) => diff_fields(fs, gs, path, fs.len())
                + added_fields(fs, gs, path),
            _ => if a.same_primitive(b) {
                Seq::empty()
            } else {
                seq![changed(path, a, b)]
            },
        }
    }
}

/// The differences between the arrays `xs` and `ys` at the indices below
/// `n`, in rising order of the index.
pub open spec fn diff_items(
    xs: Seq<ValueView>,
    ys: Seq<ValueView>,
    path: Seq<char>,
    n: nat,
) -> Seq<DifferenceView>
    decreases ValueView::Array(xs).depth(), 0nat, n,
{
    if n == 0 {
        Seq::empty()
    } else {
        let i = (n - 1) as nat;
        proof {
            ValueView::lemma_item_depth(xs, i as int);
        }
        diff_items(xs, ys, path, i) + diff(
            item_or_null(xs, i as int),
            item_or_null(ys, i as int),
            index_path(path, i),
        )
    }
}

/// What the first `n` fields of `fs` contribute: a field whose key `gs` has
/// too is compared with that field of `gs`, and any other is removed.
pub open spec fn diff_fields(
    fs: Seq<(Seq<char>, ValueView)>,
    gs: Seq<(Seq<char>, ValueView)>,
    path: Seq<char>,
    n: nat,
) -> Seq<DifferenceView>
    decreases ValueView::Object(fs).depth(), 0nat, n,
{
    if n == 0 || n > fs.len() {
        Seq::empty()
    } else {
        let i = (n - 1) as nat;
        let key = fs[i as int].0;
        proof {
            ValueView::lemma_field_depth(fs, i as int);
        }
        diff_fields(fs, gs, path, i) + match lookup(gs, key) {
            Some(other) => diff(fs[i as int].1, other, field_path(path, key)),
            None => seq![removed(key, fs[i as int].1)],
        }
    }
}

/// What a field `g` of the second object contributes on account of being
/// new: nothing where `fs` has its key, else the record of its addition.
pub open spec fn added_entry(fs: Seq<(Seq<char>, ValueView)>, path: Seq<char>) -> spec_fn(
    (Seq<char>, ValueView),
) -> Option<DifferenceView> {
    |g: (Seq<char>, ValueView)|
        if has_key(fs, g.0) {
            None
        } else {
            Some(added(field_path(path, g.0), g.1))
        }
}

/// One record for each field of `gs` whose key `fs` lacks, in the order of
/// `gs`.
pub open spec fn added_fields(
    fs: Seq<(Seq<char>, ValueView)>,
    gs: Seq<(Seq<char>, ValueView)>,
    path: Seq<char>,
) -> Seq<DifferenceView> {
    gs.filter_map(added_entry(fs, path))
}

/// Appends to `differences` the differences between `a` and `b`, which both
/// lie at `path`.
fn recurse(a: &Value, b: &Value, differences: &mut Vec<Difference>, path: String)
    ensures
        views(final(differences)@) == views(old(differences)@) + diff(a@, b@, path@),
    decreases a@.depth(),
{
    let ghost start = views(differences@);
    if !same_json_type(a, b) {
        differences.push(Difference { path, before: Some(a.clone()), after: Some(b.clone()) });
        assert(views(differences@) =~= start + diff(a@, b@, path@));
        return ;
    }
    match (a, b) {
        (Value::Array(a_values), Value::Array(b_values)) => {
            let ghost xs = a@->Array_0;
            let ghost ys = b@->Array_0;
            proof {
                Value::lemma_array_view(*a_values);
                Value::lemma_array_view(*b_values);
            }
            let n: usize = if a_values.len() >= b_values.len() {
                a_values.len()
            } else {
                b_values.len()
            };
            let null = Value::Null;
            let mut i: usize = 0;
            assert(views(differences@) =~= start + diff_items(xs, ys, path@, 0));
            while i < n
                invariant
                    i <= n,
                    n == longer(xs.len(), ys.len()),
                    a@ == ValueView::Array(xs),
                    null@ == ValueView::Null,
                    xs.len() == a_values@.len(),
                    ys.len() == b_values@.len(),
                    forall|k: int| 0 <= k < xs.len() ==> xs[k] == a_values@[k]@,
                    forall|k: int| 0 <= k < ys.len() ==> ys[k] == b_values@[k]@,
                    views(differences@) == start + diff_items(xs, ys, path@, i as nat),
                decreases n - i,
            {
                let va = if i < a_values.len() {
                    &a_values[i]
                } else {
                    &null
                };
                let vb = if i < b_values.len() {
                    &b_values[i]
                } else {
                    &null
                };
                proof {
                    ValueView::lemma_item_depth(xs, i as int);
                }
                recurse(va, vb, differences, make_index_path(&path, i));
                i += 1;
                assert(views(differences@) =~= start + diff_items(xs, ys, path@, i as nat));
            }
        },
        (Value::Object(a_fields), Value::Object(b_fields)) => {
            let ghost fs = a@->Object_0;
            let ghost gs = b@->Object_0;
            proof {
                Value::lemma_object_view(*a_fields);
                Value::lemma_object_view(*b_fields);
            }
            let mut i: usize = 0;
            assert(views(differences@) =~= start + diff_fields(fs, gs, path@, 0));
            while i < a_fields.len()
                invariant
                    i <= a_fields@.len(),
                    a@ == ValueView::Object(fs),
                    fs.len() == a_fields@.len(),
                    gs.len() == b_fields@.len(),
                    forall|k: int|
                        0 <= k < fs.len() ==> fs[k] == (a_fields@[k].0@, a_fields@[k].1@),
                    forall|k: int|
                        0 <= k < gs.len() ==> gs[k] == (b_fields@[k].0@, b_fields@[k].1@),
                    views(differences@) == start + diff_fields(fs, gs, path@, i as nat),
                decreases a_fields@.len() - i,
            {
                let key = &a_fields[i].0;
                let value = &a_fields[i].1;
                let ghost so_far = views(differences@);
                assert(fs[i as int] == (key@, value@));
                match find_field(b_fields, key) {
                    Some(j) => {
                        proof {
                            lemma_lookup_first(gs, key@, j as int);
                            ValueView::lemma_field_depth(fs, i as int);
                        }
                        recurse(value, &b_fields[j].1, differences, make_field_path(&path, key));
                        assert(views(differences@) == so_far + diff(
                            value@,
                            gs[j as int].1,
                            field_path(path@, key@),
                        ));
                    },
                    None => {
                        proof {
                            lemma_lookup_absent(gs, key@);
                        }
                        differences.push(
                            Difference { path: key.clone(), before: Some(value.clone()), after: None },
                        );
                        assert(views(differences@) =~= so_far + seq![removed(key@, value@)]);
                    },
                }
                i += 1;
                assert(views(differences@) =~= start + diff_fields(fs, gs, path@, i as nat));
            }
            let ghost kept = views(differences@);
            let mut j: usize = 0;
            assert(gs.take(0).filter_map(added_entry(fs, path@)) =~= Seq::empty()) by {
                reveal(Seq::filter_map);
            }
            assert(views(differences@) =~= kept + added_fields(fs, gs.take(0), path@));
            while j < b_fields.len()
                invariant
                    j <= b_fields@.len(),
                    fs.len() == a_fields@.len(),
                    gs.len() == b_fields@.len(),
                    forall|k: int|
                        0 <= k < fs.len() ==> fs[k] == (a_fields@[k].0@, a_fields@[k].1@),
                    forall|k: int|
                        0 <= k < gs.len() ==> gs[k] == (b_fields@[k].0@, b_fields@[k].1@),
                    views(differences@) == kept + added_fields(fs, gs.take(j as int), path@),
                decreases b_fields@.len() - j,
            {
                let key = &b_fields[j].0;
                let ghost so_far = views(differences@);
                proof {
                    gs.lemma_filter_map_take_succ(added_entry(fs, path@), j as int);
                }
                assert(gs[j as int] == (key@, b_fields@[j as int].1@));
                let found = find_field(a_fields, key);
                assert(found.is_some() == has_key(fs, key@)) by {
                    if let Some(k) = found {
                        assert(fs[k as int].0 == key@);
                    }
                }
                if found.is_none() {
                    let full_path = make_field_path(&path, key);
                    differences.push(
                        Difference {
                            path: full_path,
                            before: None,
                            after: Some(b_fields[j].1.clone()),
                        },
                    );
                    assert(views(differences@) =~= so_far + seq![
                        added(field_path(path@, key@), gs[j as int].1),
                    ]);
                }
                j += 1;
                assert(views(differences@) =~= kept + added_fields(
                    fs,
                    gs.take(j as int),
                    path@,
                ));
            }
            assert(gs.take(gs.len() as int) =~= gs);
        },
        _ => {
            if !primitive_equal(a, b) {
                differences.push(
                    Difference { path, before: Some(a.clone()), after: Some(b.clone()) },
                );
                assert(views(differences@) =~= start + diff(a@, b@, path@));
            } else {
                assert(views(differences@) =~= start + diff(a@, b@, path@));
            }
        },
    }
}

/// Compares two trees and lists where they disagree.
///
/// The result holds, in the order of a walk through `a` and then through
/// what only `b` has, one record for each place where the trees hold values
/// of different variants or unequal leaves, and one for each field that only
/// one of two objects has. It is empty exactly when the trees agree, as a
/// well-formed tree does with itself, and every record in it is nontrivial.
pub fn deep_diff(a: &Value, b: &Value) -> (differences: Vec<Difference>)
    ensures
        views(differences@) == diff(a@, b@, Seq::empty()),
        differences@.len() == diff(a@, b@, Seq::empty()).len(),
        differences@.len() == 0 <==> agree(a@, b@),
        well_formed(a@) && a@ == b@ ==> differences@.len() == 0,
        !a@.same_kind(b@) ==> views(differences@) == seq![changed(Seq::empty(), a@, b@)],
        forall|k: int| 0 <= k < differences@.len() ==> nontrivial(#[trigger] differences@[k]@),
{
    let mut differences: Vec<Difference> = Vec::new();
    recurse(a, b, &mut differences, String::new());
    assert(views(differences@) =~= diff(a@, b@, Seq::empty()));
    proof {
        lemma_empty_iff_agree(a@, b@, Seq::empty());
        lemma_entries_nontrivial(a@, b@, Seq::empty());
        if well_formed(a@) {
            lemma_agree_reflexive(a@);
        }
        assert forall|k: int| 0 <= k < differences@.len() implies nontrivial(
            #[trigger] differences@[k]@,
        ) by {
            assert(views(differences@)[k] == differences@[k]@);
        }
    }
    differences
}

} // verus!
