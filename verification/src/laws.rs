//! What holds of every comparison.

use crate::diff::{
    added, added_entry, added_fields, diff, diff_fields, diff_items, longer, removed,
    DifferenceView,
};
use crate::path::{field_path, index_path};
use crate::value::{
    distinct_keys, has_key, is_first, item_or_null, lemma_lookup_first, lookup, well_formed,
    ValueView,
};
use vstd::prelude::*;

verus! {

/// Whether `a` and `b` hold the same document, up to the order of the fields
/// of an object and up to `Null`s at the end of an array.
///
/// Leaves agree when they are equal. Arrays agree when their elements agree
/// index by index, the shorter array padded with `Null`. Objects agree when
/// they have the same keys and the values under each key agree.
pub open spec fn agree(a: ValueView, b: ValueView) -> bool
    decreases a.depth(),
{
    match (a, b) {
        (ValueView::Array(xs), ValueView::Array(ys)) => forall|i: int|
            0 <= i < longer(xs.len(), ys.len()) ==> {
                proof {
                    ValueView::lemma_item_depth(xs, i);
                }
                agree(#[trigger] item_or_null(xs, i), item_or_null(ys, i))
            },
        (ValueView::Object(fs), ValueView::Object(gs)) => {
            &&& forall|i: int|
                0 <= i < fs.len() ==> {
                    proof {
                        ValueView::lemma_field_depth(fs, i);
                    }
                    match lookup(gs, (#[trigger] fs[i]).0) {
                        Some(other) => agree(fs[i].1, other),
                        None => false,
                    }
                }
            &&& forall|j: int| 0 <= j < gs.len() ==> has_key(fs, (#[trigger] gs[j]).0)
        },
        _ => a.same_primitive(b),
    }
}

/// Whether the field `field` of one object has, in the fields `gs` of the
/// other, a field of the same key whose value agrees with its own.
pub open spec fn field_agrees(
    field: (Seq<char>, ValueView),
    gs: Seq<(Seq<char>, ValueView)>,
) -> bool {
    match lookup(gs, field.0) {
        Some(other) => agree(field.1, other),
        None => false,
    }
}

/// Whether a record says something: it holds a value on at least one side,
/// and where it holds one on both, the two do not agree and so are not equal.
pub open spec fn nontrivial(d: DifferenceView) -> bool {
    &&& d.before is Some || d.after is Some
    &&& d.before is Some && d.after is Some ==> {
        &&& !agree(d.before->0, d.after->0)
        &&& d.before->0 != d.after->0
    }
}

/// Two trees have no differences exactly when they agree.
pub proof fn lemma_empty_iff_agree(a: ValueView, b: ValueView, path: Seq<char>)
    ensures
        diff(a, b, path).len() == 0 <==> agree(a, b),
    decreases a.depth(), 1nat, 0nat,
{
    if a.same_kind(b) {
        match (a, b) {
            (ValueView::Array(xs), ValueView::Array(ys)) => {
                lemma_items_empty_iff_agree(xs, ys, path, longer(xs.len(), ys.len()));
            },
            (ValueView::Object(fs), ValueView::Object(gs)) => {
                lemma_fields_empty_iff_agree(fs, gs, path, fs.len());
                lemma_added_empty_iff_covered(fs, gs, path, gs.len());
                assert(gs.take(gs.len() as int) =~= gs);
                assert(forall|i: int|
                    0 <= i < fs.len() ==> (field_agrees(#[trigger] fs[i], gs) <==> match lookup(
                        gs,
                        fs[i].0,
                    ) {
                        Some(other) => agree(fs[i].1, other),
                        None => false,
                    }));
            },
            _ => {},
        }
    }
}

proof fn lemma_items_empty_iff_agree(
    xs: Seq<ValueView>,
    ys: Seq<ValueView>,
    path: Seq<char>,
    n: nat,
)
    ensures
        diff_items(xs, ys, path, n).len() == 0 <==> forall|i: int|
            0 <= i < n ==> agree(#[trigger] item_or_null(xs, i), item_or_null(ys, i)),
    decreases ValueView::Array(xs).depth(), 0nat, n,
{
    if n > 0 {
        let last = (n - 1) as nat;
        ValueView::lemma_item_depth(xs, last as int);
        lemma_items_empty_iff_agree(xs, ys, path, last);
        lemma_empty_iff_agree(
            item_or_null(xs, last as int),
            item_or_null(ys, last as int),
            index_path(path, last),
        );
        if diff_items(xs, ys, path, n).len() == 0 {
            assert forall|i: int| 0 <= i < n implies agree(
                #[trigger] item_or_null(xs, i),
                item_or_null(ys, i),
            ) by {
                if i < last {
                } else {
                    assert(i == last);
                }
            }
        }
    }
}

proof fn lemma_fields_empty_iff_agree(
    fs: Seq<(Seq<char>, ValueView)>,
    gs: Seq<(Seq<char>, ValueView)>,
    path: Seq<char>,
    n: nat,
)
    requires
        n <= fs.len(),
    ensures
        diff_fields(fs, gs, path, n).len() == 0 <==> forall|i: int|
            0 <= i < n ==> field_agrees(#[trigger] fs[i], gs),
    decreases ValueView::Object(fs).depth(), 0nat, n,
{
    if n > 0 {
        let last = (n - 1) as nat;
        let key = fs[last as int].0;
        ValueView::lemma_field_depth(fs, last as int);
        lemma_fields_empty_iff_agree(fs, gs, path, last);
        match lookup(gs, key) {
            Some(other) => {
                lemma_empty_iff_agree(fs[last as int].1, other, field_path(path, key));
            },
            None => {},
        }
        if diff_fields(fs, gs, path, n).len() == 0 {
            assert forall|i: int| 0 <= i < n implies field_agrees(#[trigger] fs[i], gs) by {
                if i < last {
                } else {
                    assert(i == last);
                }
            }
        }
    }
}

proof fn lemma_added_empty_iff_covered(
    fs: Seq<(Seq<char>, ValueView)>,
    gs: Seq<(Seq<char>, ValueView)>,
    path: Seq<char>,
    n: nat,
)
    requires
        n <= gs.len(),
    ensures
        added_fields(fs, gs.take(n as int), path).len() == 0 <==> forall|j: int|
            0 <= j < n ==> has_key(fs, (#[trigger] gs[j]).0),
    decreases n,
{
    if n == 0 {
        assert(gs.take(0).filter_map(added_entry(fs, path)) =~= Seq::empty()) by {
            reveal(Seq::filter_map);
        }
    } else {
        let last = (n - 1) as nat;
        lemma_added_empty_iff_covered(fs, gs, path, last);
        gs.lemma_filter_map_take_succ(added_entry(fs, path), last as int);
        if added_fields(fs, gs.take(n as int), path).len() == 0 {
            assert forall|j: int| 0 <= j < n implies has_key(fs, (#[trigger] gs[j]).0) by {
                if j < last {
                } else {
                    assert(j == last);
                }
            }
        }
    }
}

/// A well-formed tree agrees with itself.
pub proof fn lemma_agree_reflexive(a: ValueView)
    requires
        well_formed(a),
    ensures
        agree(a, a),
    decreases a.depth(),
{
    match a {
        ValueView::Array(xs) => {
            assert forall|i: int| 0 <= i < longer(xs.len(), xs.len()) implies agree(
                #[trigger] item_or_null(xs, i),
                item_or_null(xs, i),
            ) by {
                ValueView::lemma_item_depth(xs, i);
                lemma_agree_reflexive(xs[i]);
            }
        },
        ValueView::Object(fs) => {
            assert forall|i: int| 0 <= i < fs.len() implies match lookup(fs, (#[trigger] fs[i]).0) {
                Some(other) => agree(fs[i].1, other),
                None => false,
            } by {
                ValueView::lemma_field_depth(fs, i);
                lemma_agree_reflexive(fs[i].1);
                assert(is_first(fs, fs[i].0, i));
                lemma_lookup_first(fs, fs[i].0, i);
            }
        },
        _ => {},
    }
}

/// Reflexivity: a well-formed tree has no differences from itself.
pub proof fn lemma_diff_reflexive(a: ValueView, path: Seq<char>)
    requires
        well_formed(a),
    ensures
        diff(a, a, path) == Seq::<DifferenceView>::empty(),
{
    lemma_agree_reflexive(a);
    lemma_empty_iff_agree(a, a, path);
    assert(diff(a, a, path) =~= Seq::empty());
}

/// Detection: two trees that do not agree have at least one difference.
///
/// Unequal trees that do agree have none: such trees differ only in the
/// order of the fields of an object, in `Null`s at the end of an array, or in
/// the sign of a zero.
pub proof fn lemma_disagreement_detected(a: ValueView, b: ValueView, path: Seq<char>)
    requires
        a != b,
        !agree(a, b),
    ensures
        diff(a, b, path).len() > 0,
{
    lemma_empty_iff_agree(a, b, path);
}

/// Trees of different variants have exactly one difference, which holds both
/// of them whole, whatever is inside them.
pub proof fn lemma_kind_mismatch(a: ValueView, b: ValueView, path: Seq<char>)
    requires
        !a.same_kind(b),
    ensures
        diff(a, b, path) == seq![
            DifferenceView { path: path, before: Some(a), after: Some(b) },
        ],
{
}

/// Every record of a comparison is nontrivial.
pub proof fn lemma_entries_nontrivial(a: ValueView, b: ValueView, path: Seq<char>)
    ensures
        forall|k: int| 0 <= k < diff(a, b, path).len() ==> nontrivial(#[trigger] diff(a, b, path)[k]),
    decreases a.depth(), 1nat, 0nat,
{
    if a.same_kind(b) {
        match (a, b) {
            (ValueView::Array(xs), ValueView::Array(ys)) => {
                lemma_items_nontrivial(xs, ys, path, longer(xs.len(), ys.len()));
                assert(diff(a, b, path) == diff_items(xs, ys, path, longer(xs.len(), ys.len())));
            },
            (ValueView::Object(fs), ValueView::Object(gs)) => {
                lemma_fields_nontrivial(fs, gs, path, fs.len());
                lemma_added_nontrivial(fs, gs, path, gs.len());
                assert(gs.take(gs.len() as int) =~= gs);
                lemma_concat_nontrivial(
                    diff_fields(fs, gs, path, fs.len()),
                    added_fields(fs, gs, path),
                );
            },
            _ => {},
        }
    }
}

proof fn lemma_items_nontrivial(xs: Seq<ValueView>, ys: Seq<ValueView>, path: Seq<char>, n: nat)
    ensures
        forall|k: int|
            0 <= k < diff_items(xs, ys, path, n).len() ==> nontrivial(
                #[trigger] diff_items(xs, ys, path, n)[k],
            ),
    decreases ValueView::Array(xs).depth(), 0nat, n,
{
    if n > 0 {
        let last = (n - 1) as nat;
        ValueView::lemma_item_depth(xs, last as int);
        lemma_items_nontrivial(xs, ys, path, last);
        let earlier = diff_items(xs, ys, path, last);
        let here = diff(
            item_or_null(xs, last as int),
            item_or_null(ys, last as int),
            index_path(path, last),
        );
        lemma_entries_nontrivial(
            item_or_null(xs, last as int),
            item_or_null(ys, last as int),
            index_path(path, last),
        );
        lemma_concat_nontrivial(earlier, here);
    }
}

proof fn lemma_fields_nontrivial(
    fs: Seq<(Seq<char>, ValueView)>,
    gs: Seq<(Seq<char>, ValueView)>,
    path: Seq<char>,
    n: nat,
)
    requires
        n <= fs.len(),
    ensures
        forall|k: int|
            0 <= k < diff_fields(fs, gs, path, n).len() ==> nontrivial(
                #[trigger] diff_fields(fs, gs, path, n)[k],
            ),
    decreases ValueView::Object(fs).depth(), 0nat, n,
{
    if n > 0 {
        let last = (n - 1) as nat;
        let key = fs[last as int].0;
        ValueView::lemma_field_depth(fs, last as int);
        lemma_fields_nontrivial(fs, gs, path, last);
        let earlier = diff_fields(fs, gs, path, last);
        match lookup(gs, key) {
            Some(other) => {
                lemma_entries_nontrivial(fs[last as int].1, other, field_path(path, key));
                lemma_concat_nontrivial(earlier, diff(fs[last as int].1, other, field_path(path, key)));
            },
            None => {
                lemma_concat_nontrivial(earlier, seq![removed(key, fs[last as int].1)]);
            },
        }
    }
}

proof fn lemma_added_nontrivial(
    fs: Seq<(Seq<char>, ValueView)>,
    gs: Seq<(Seq<char>, ValueView)>,
    path: Seq<char>,
    n: nat,
)
    requires
        n <= gs.len(),
    ensures
        forall|k: int|
            0 <= k < added_fields(fs, gs.take(n as int), path).len() ==> nontrivial(
                #[trigger] added_fields(fs, gs.take(n as int), path)[k],
            ),
    decreases n,
{
    if n == 0 {
        assert(gs.take(0).filter_map(added_entry(fs, path)) =~= Seq::empty()) by {
            reveal(Seq::filter_map);
        }
    } else {
        let last = (n - 1) as nat;
        lemma_added_nontrivial(fs, gs, path, last);
        gs.lemma_filter_map_take_succ(added_entry(fs, path), last as int);
        let earlier = added_fields(fs, gs.take(last as int), path);
        if has_key(fs, gs[last as int].0) {
            lemma_concat_nontrivial(earlier, Seq::empty());
        } else {
            lemma_concat_nontrivial(
                earlier,
                seq![added(field_path(path, gs[last as int].0), gs[last as int].1)],
            );
        }
    }
}

proof fn lemma_concat_nontrivial(front: Seq<DifferenceView>, back: Seq<DifferenceView>)
    requires
        forall|k: int| 0 <= k < front.len() ==> nontrivial(#[trigger] front[k]),
        forall|k: int| 0 <= k < back.len() ==> nontrivial(#[trigger] back[k]),
    ensures
        forall|k: int| 0 <= k < (front + back).len() ==> nontrivial(#[trigger] (front + back)[k]),
{
    assert forall|k: int| 0 <= k < (front + back).len() implies nontrivial(
        #[trigger] (front + back)[k],
    ) by {
        if k < front.len() {
            assert((front + back)[k] == front[k]);
        } else {
            assert((front + back)[k] == back[k - front.len()]);
        }
    }
}

/// Whether `a` and `b` are the same document: equal leaves, arrays of one
/// length with the same documents at each index, objects with the same keys
/// and the same documents under each key, in whatever order.
pub open spec fn same_document(a: ValueView, b: ValueView) -> bool
    decreases a.depth(),
{
    match (a, b) {
        (ValueView::Array(xs), ValueView::Array(ys)) => {
            &&& xs.len() == ys.len()
            &&& forall|i: int|
                0 <= i < xs.len() ==> {
                    proof {
                        ValueView::lemma_item_depth(xs, i);
                    }
                    same_document(#[trigger] xs[i], ys[i])
                }
        },
        (ValueView::Object(fs), ValueView::Object(gs)) => {
            &&& forall|i: int|
                0 <= i < fs.len() ==> {
                    proof {
                        ValueView::lemma_field_depth(fs, i);
                    }
                    match lookup(gs, (#[trigger] fs[i]).0) {
                        Some(other) => same_document(fs[i].1, other),
                        None => false,
                    }
                }
            &&& forall|j: int| 0 <= j < gs.len() ==> has_key(fs, (#[trigger] gs[j]).0)
        },
        _ => a.same_primitive(b),
    }
}

/// Whether no array in `value`, at any depth, ends with `Null`.
pub open spec fn trimmed(value: ValueView) -> bool
    decreases value,
{
    match value {
        ValueView::Array(items) => {
            &&& items.len() > 0 ==> items.last() != ValueView::Null
            &&& forall|i: int| 0 <= i < items.len() ==> trimmed(#[trigger] items[i])
        },
        ValueView::Object(fields) => forall|i: int|
            0 <= i < fields.len() ==> trimmed((#[trigger] fields[i]).1),
        _ => true,
    }
}

/// The same document agrees with itself: trees that are the same document
/// have no differences, whatever the order of their fields.
pub proof fn lemma_same_document_agrees(a: ValueView, b: ValueView)
    requires
        same_document(a, b),
    ensures
        agree(a, b),
    decreases a.depth(),
{
    match (a, b) {
        (ValueView::Array(xs), ValueView::Array(ys)) => {
            assert forall|i: int| 0 <= i < longer(xs.len(), ys.len()) implies agree(
                #[trigger] item_or_null(xs, i),
                item_or_null(ys, i),
            ) by {
                ValueView::lemma_item_depth(xs, i);
                assert(same_document(xs[i], ys[i]));
                lemma_same_document_agrees(xs[i], ys[i]);
            }
        },
        (ValueView::Object(fs), ValueView::Object(gs)) => {
            assert forall|i: int| 0 <= i < fs.len() implies match lookup(gs, (#[trigger] fs[i]).0) {
                Some(other) => agree(fs[i].1, other),
                None => false,
            } by {
                ValueView::lemma_field_depth(fs, i);
                lemma_same_document_agrees(fs[i].1, lookup(gs, fs[i].0)->0);
            }
        },
        _ => {},
    }
}

/// Where no array ends with `Null`, only the same document agrees: trees
/// that agree without being the same document differ in such `Null`s alone.
pub proof fn lemma_trimmed_agree_same_document(a: ValueView, b: ValueView)
    requires
        trimmed(a),
        trimmed(b),
        agree(a, b),
    ensures
        same_document(a, b),
    decreases a.depth(),
{
    match (a, b) {
        (ValueView::Array(xs), ValueView::Array(ys)) => {
            if xs.len() > ys.len() {
                let last = xs.len() - 1;
                assert(agree(item_or_null(xs, last), item_or_null(ys, last)));
                assert(xs.last() == ValueView::Null);
            }
            if ys.len() > xs.len() {
                let last = ys.len() - 1;
                assert(agree(item_or_null(xs, last), item_or_null(ys, last)));
                assert(ys.last() == ValueView::Null);
            }
            assert forall|i: int| 0 <= i < xs.len() implies same_document(
                #[trigger] xs[i],
                ys[i],
            ) by {
                ValueView::lemma_item_depth(xs, i);
                assert(agree(item_or_null(xs, i), item_or_null(ys, i)));
                assert(trimmed(ys[i]));
                lemma_trimmed_agree_same_document(xs[i], ys[i]);
            }
        },
        (ValueView::Object(fs), ValueView::Object(gs)) => {
            assert forall|i: int| 0 <= i < fs.len() implies match lookup(gs, (#[trigger] fs[i]).0) {
                Some(other) => same_document(fs[i].1, other),
                None => false,
            } by {
                ValueView::lemma_field_depth(fs, i);
                let key = fs[i].0;
                let k = choose|k: int| is_first(gs, key, k);
                assert(has_key(gs, key));
                let w = choose|w: int| 0 <= w < gs.len() && #[trigger] gs[w].0 == key;
                lemma_first_exists(gs, key, w);
                assert(trimmed(gs[k].1));
                lemma_trimmed_agree_same_document(fs[i].1, gs[k].1);
            }
        },
        _ => {},
    }
}

/// A key that some position holds has a first position.
proof fn lemma_first_exists(fields: Seq<(Seq<char>, ValueView)>, key: Seq<char>, w: int)
    requires
        0 <= w < fields.len(),
        fields[w].0 == key,
    ensures
        exists|k: int| is_first(fields, key, k),
    decreases w,
{
    if forall|j: int| 0 <= j < w ==> (#[trigger] fields[j]).0 != key {
        assert(is_first(fields, key, w));
    } else {
        let j = choose|j: int| 0 <= j < w && (#[trigger] fields[j]).0 == key;
        lemma_first_exists(fields, key, j);
    }
}

} // verus!
