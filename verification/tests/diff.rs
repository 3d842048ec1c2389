use deep_diff::{deep_diff, Difference, Number, Value};

fn num(n: u64) -> Value {
    Value::Number(Number::PosInt(n))
}

fn text(s: &str) -> Value {
    Value::String(s.to_string())
}

fn array(items: Vec<Value>) -> Value {
    Value::Array(items)
}

fn object(fields: Vec<(&str, Value)>) -> Value {
    Value::Object(fields.into_iter().map(|(k, v)| (k.to_string(), v)).collect())
}

fn changed(path: &str, before: Value, after: Value) -> Difference {
    Difference { path: path.to_string(), before: Some(before), after: Some(after) }
}

#[test]
fn test_no_change() {
    let a = text("Alice");
    let result = deep_diff(&a, &a);
    assert!(result.is_empty());
}

#[test]
fn test_top_level_change() {
    let a = text("Alice");
    let b = text("Bob");
    let result = deep_diff(&a, &b);
    assert_eq!(
        result,
        vec![Difference {
            path: "".to_string(),
            before: Some(text("Alice")),
            after: Some(text("Bob")),
        }]
    );
}

#[test]
fn test_array_number_change() {
    let a = array(vec![num(1), num(2)]);
    let b = array(vec![num(1), num(3)]);
    let result = deep_diff(&a, &b);
    assert_eq!(
        result,
        vec![Difference {
            path: "[1]".to_string(),
            before: Some(num(2)),
            after: Some(num(3)),
        }]
    );
}

#[test]
fn test_array_string_change() {
    let a = array(vec![text("Alice"), text("Bob")]);
    let b = array(vec![text("Alice"), text("Hob")]);
    let result = deep_diff(&a, &b);
    assert_eq!(
        result,
        vec![Difference {
            path: "[1]".to_string(),
            before: Some(text("Bob")),
            after: Some(text("Hob")),
        }]
    );
}

#[test]
fn test_array_unequal_length() {
    let a = array(vec![num(1), num(2)]);
    let b = array(vec![num(1)]);
    let result = deep_diff(&a, &b);
    assert_eq!(
        result,
        vec![Difference {
            path: "[1]".to_string(),
            before: Some(num(2)),
            after: Some(Value::Null),
        }]
    );
}

#[test]
fn test_compare_map_same() {
    let a = object(vec![("name", text("Bob")), ("age", num(25))]);
    let result = deep_diff(&a, &a);
    assert!(result.is_empty());
}

#[test]
fn test_compare_map_different() {
    let a = object(vec![("name", text("Bob")), ("age", num(25))]);
    let b = object(vec![("name", text("Bob")), ("age", num(26))]);
    let result = deep_diff(&a, &b);
    assert_eq!(
        result,
        vec![Difference {
            path: "age".to_string(),
            before: Some(num(25)),
            after: Some(num(26)),
        }]
    );
}

#[test]
fn test_deep_nested_object() {
    let a = object(vec![("person", object(vec![("name", object(vec![("first", text("Alice"))]))]))]);
    let b = object(vec![("person", object(vec![("name", object(vec![("first", text("Bob"))]))]))]);
    let result = deep_diff(&a, &b);
    assert_eq!(
        result,
        vec![Difference {
            path: "person.name.first".to_string(),
            before: Some(text("Alice")),
            after: Some(text("Bob")),
        }]
    );
}

#[test]
fn test_deep_nested_array() {
    let a = object(vec![(
        "person",
        object(vec![("name", object(vec![("first", array(vec![num(1), num(2), num(3)]))]))]),
    )]);
    let b = object(vec![(
        "person",
        object(vec![("name", object(vec![("first", array(vec![num(1), num(2), num(4)]))]))]),
    )]);
    let result = deep_diff(&a, &b);
    assert_eq!(
        result,
        vec![Difference {
            path: "person.name.first[2]".to_string(),
            before: Some(num(3)),
            after: Some(num(4)),
        }]
    );
}

#[test]
fn reflexive_on_every_kind_of_value() {
    let samples = vec![
        Value::Null,
        Value::Bool(true),
        Value::Bool(false),
        num(0),
        Value::Number(Number::NegInt(-7)),
        Value::Number(Number::Float(1.5f64.to_bits())),
        text(""),
        text("x"),
        array(vec![]),
        object(vec![]),
        array(vec![Value::Null, array(vec![]), object(vec![])]),
        object(vec![
            ("a", array(vec![num(1), object(vec![("b", Value::Null)])])),
            ("c", object(vec![("d", object(vec![("e", array(vec![text("f")]))]))])),
        ]),
    ];
    for sample in &samples {
        assert_eq!(deep_diff(sample, sample), vec![]);
        assert_eq!(deep_diff(sample, &sample.clone()), vec![]);
    }
}

#[test]
fn unequal_values_are_detected() {
    let pairs = vec![
        (Value::Null, Value::Bool(false)),
        (Value::Bool(true), Value::Bool(false)),
        (num(1), num(2)),
        (num(1), text("1")),
        (array(vec![num(1)]), array(vec![num(1), num(2)])),
        (array(vec![array(vec![])]), array(vec![object(vec![])])),
        (object(vec![("a", num(1))]), object(vec![("a", num(2))])),
        (object(vec![("a", num(1))]), object(vec![("b", num(1))])),
        (object(vec![]), object(vec![("a", Value::Null)])),
    ];
    for (a, b) in &pairs {
        assert!(!deep_diff(a, b).is_empty());
        assert!(!deep_diff(b, a).is_empty());
    }
}

#[test]
fn every_record_is_nontrivial() {
    let a = object(vec![
        ("same", num(1)),
        ("changed", array(vec![num(1), text("x"), Value::Null])),
        ("gone", object(vec![("inner", Value::Bool(true))])),
        ("retyped", array(vec![])),
    ]);
    let b = object(vec![
        ("retyped", object(vec![])),
        ("changed", array(vec![num(2), text("x"), num(3), array(vec![])])),
        ("same", num(1)),
        ("fresh", Value::Null),
    ]);
    let result = deep_diff(&a, &b);
    assert_eq!(result.len(), 6);
    for record in &result {
        assert!(record.before.is_some() || record.after.is_some());
        if record.before.is_some() && record.after.is_some() {
            assert_ne!(record.before, record.after);
        }
    }
}

#[test]
fn records_come_in_walk_order() {
    let a = object(vec![
        ("same", num(1)),
        ("changed", array(vec![num(1), text("x"), Value::Null])),
        ("gone", object(vec![("inner", Value::Bool(true))])),
        ("retyped", array(vec![])),
    ]);
    let b = object(vec![
        ("retyped", object(vec![])),
        ("changed", array(vec![num(2), text("x"), num(3), array(vec![])])),
        ("same", num(1)),
        ("fresh", Value::Null),
    ]);
    assert_eq!(
        deep_diff(&a, &b),
        vec![
            changed("changed[0]", num(1), num(2)),
            changed("changed[2]", Value::Null, num(3)),
            changed("changed[3]", Value::Null, array(vec![])),
            Difference {
                path: "gone".to_string(),
                before: Some(object(vec![("inner", Value::Bool(true))])),
                after: None,
            },
            changed("retyped", array(vec![]), object(vec![])),
            Difference { path: "fresh".to_string(), before: None, after: Some(Value::Null) },
        ]
    );
}

#[test]
fn different_variants_at_the_root_are_one_difference() {
    let a = object(vec![]);
    let b = array(vec![]);
    assert_eq!(deep_diff(&a, &b), vec![changed("", object(vec![]), array(vec![]))]);

    let deep = object(vec![("a", array(vec![num(1), num(2), object(vec![("b", Value::Null)])]))]);
    assert_eq!(deep_diff(&deep, &num(5)), vec![changed("", deep.clone(), num(5))]);
    assert_eq!(deep_diff(&Value::Null, &deep), vec![changed("", Value::Null, deep.clone())]);
    assert_eq!(deep_diff(&num(1), &text("1")), vec![changed("", num(1), text("1"))]);
}

#[test]
fn different_variants_inside_are_one_difference() {
    let a = object(vec![("k", array(vec![num(1), num(2)]))]);
    let b = object(vec![("k", object(vec![("0", num(1)), ("1", num(2))]))]);
    assert_eq!(
        deep_diff(&a, &b),
        vec![changed(
            "k",
            array(vec![num(1), num(2)]),
            object(vec![("0", num(1)), ("1", num(2))]),
        )]
    );
}

#[test]
fn missing_element_equals_null() {
    let a = array(vec![num(1)]);
    let b = array(vec![num(1), Value::Null]);
    assert_eq!(deep_diff(&a, &b), vec![]);
    assert_eq!(deep_diff(&b, &a), vec![]);
    assert_eq!(deep_diff(&array(vec![]), &array(vec![Value::Null, Value::Null])), vec![]);
}

#[test]
fn longer_second_array_is_padded_on_the_left() {
    let a = array(vec![num(1)]);
    let b = array(vec![num(1), num(2), array(vec![Value::Null])]);
    assert_eq!(
        deep_diff(&a, &b),
        vec![
            changed("[1]", Value::Null, num(2)),
            changed("[2]", Value::Null, array(vec![Value::Null])),
        ]
    );
}

#[test]
fn removed_key_has_bare_path() {
    let a = object(vec![("person", object(vec![("a", num(1))]))]);
    let b = object(vec![("person", object(vec![]))]);
    assert_eq!(
        deep_diff(&a, &b),
        vec![Difference { path: "a".to_string(), before: Some(num(1)), after: None }]
    );
}

#[test]
fn removed_key_inside_array_has_bare_path() {
    let a = object(vec![("list", array(vec![num(0), object(vec![("deep", text("v"))])]))]);
    let b = object(vec![("list", array(vec![num(0), object(vec![])]))]);
    assert_eq!(
        deep_diff(&a, &b),
        vec![Difference { path: "deep".to_string(), before: Some(text("v")), after: None }]
    );
}

#[test]
fn added_key_has_full_path() {
    let a = object(vec![("person", object(vec![]))]);
    let b = object(vec![("person", object(vec![("a", num(1))]))]);
    assert_eq!(
        deep_diff(&a, &b),
        vec![Difference { path: "person.a".to_string(), before: None, after: Some(num(1)) }]
    );
}

#[test]
fn added_key_at_the_root_has_no_dot() {
    let a = object(vec![]);
    let b = object(vec![("a", num(1))]);
    assert_eq!(
        deep_diff(&a, &b),
        vec![Difference { path: "a".to_string(), before: None, after: Some(num(1)) }]
    );
}

#[test]
fn added_key_inside_array_has_full_path() {
    let a = array(vec![array(vec![object(vec![])])]);
    let b = array(vec![array(vec![object(vec![("k", Value::Bool(false))])])]);
    assert_eq!(
        deep_diff(&a, &b),
        vec![Difference {
            path: "[0][0].k".to_string(),
            before: None,
            after: Some(Value::Bool(false)),
        }]
    );
}

#[test]
fn empty_objects_are_equal() {
    assert_eq!(deep_diff(&object(vec![]), &object(vec![])), vec![]);
}

#[test]
fn key_order_does_not_matter() {
    let a = object(vec![("a", num(1)), ("b", num(2))]);
    let b = object(vec![("b", num(2)), ("a", num(1))]);
    assert_eq!(deep_diff(&a, &a.clone()), vec![]);
    assert_eq!(deep_diff(&a, &b), vec![]);
    assert_eq!(deep_diff(&b, &a), vec![]);
}

#[test]
fn root_array_element_path() {
    let a = array(vec![num(1)]);
    let b = array(vec![num(2)]);
    assert_eq!(deep_diff(&a, &b), vec![changed("[0]", num(1), num(2))]);
}

#[test]
fn index_of_several_digits() {
    let mut xs = Vec::new();
    let mut ys = Vec::new();
    for i in 0..124u64 {
        xs.push(num(i));
        ys.push(num(if i == 10 || i == 99 || i == 100 || i == 123 { i + 1000 } else { i }));
    }
    let a = object(vec![("a", object(vec![("b", array(xs))]))]);
    let b = object(vec![("a", object(vec![("b", array(ys))]))]);
    assert_eq!(
        deep_diff(&a, &b),
        vec![
            changed("a.b[10]", num(10), num(1010)),
            changed("a.b[99]", num(99), num(1099)),
            changed("a.b[100]", num(100), num(1100)),
            changed("a.b[123]", num(123), num(1123)),
        ]
    );
}

#[test]
fn nested_arrays_concatenate_brackets() {
    let a = array(vec![array(vec![num(1), array(vec![text("x")])])]);
    let b = array(vec![array(vec![num(1), array(vec![text("y")])])]);
    assert_eq!(deep_diff(&a, &b), vec![changed("[0][1][0]", text("x"), text("y"))]);
}

#[test]
fn empty_key_under_the_root_and_below() {
    let a = object(vec![("", object(vec![("", num(1))]))]);
    let b = object(vec![("", object(vec![("", num(2))]))]);
    // The root's field has the path "", and a field below an empty path gets
    // no dot.
    assert_eq!(deep_diff(&a, &b), vec![changed("", num(1), num(2))]);
}

#[test]
fn first_of_two_fields_with_one_key_is_found() {
    let a = object(vec![("k", num(1))]);
    let b = object(vec![("k", num(1)), ("k", num(2))]);
    assert_eq!(deep_diff(&a, &b), vec![]);
    assert_eq!(deep_diff(&b, &a), vec![changed("k", num(2), num(1))]);
}

#[test]
fn inputs_are_left_as_they_were() {
    let a = object(vec![("a", array(vec![num(1), num(2)]))]);
    let b = object(vec![("a", array(vec![num(1)]))]);
    let a_before = a.clone();
    let b_before = b.clone();
    let result = deep_diff(&a, &b);
    assert_eq!(a, a_before);
    assert_eq!(b, b_before);
    drop(a);
    drop(b);
    assert_eq!(result, vec![changed("a[1]", num(2), Value::Null)]);
}
