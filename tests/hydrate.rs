use hydrate::{Error, Hydrate, Value, MAGIC_MARKER};

fn s(text: &str) -> Value {
    Value::String(text.to_string())
}

fn num(n: i64) -> Value {
    Value::Number(n.to_string())
}

fn arr(items: Vec<Value>) -> Value {
    Value::Array(items)
}

fn obj(members: Vec<(&str, Value)>) -> Value {
    let mut v = Value::Object(Vec::new());
    for (k, x) in members {
        v.insert(k.to_string(), x);
    }
    v
}

#[test]
fn test_equal_hydrate() {
    let base = obj(vec![("a", s("first")), ("b", s("second")), ("c", s("third"))]);
    let mut item = obj(vec![("a", s("first")), ("b", s("second")), ("c", s("third"))]);
    let target = obj(vec![("a", s("first")), ("b", s("second")), ("c", s("third"))]);
    item.hydrate(base).unwrap();
    assert_eq!(item, target);
}

#[test]
fn test_full_hydrate() {
    let base = obj(vec![("a", s("first")), ("b", s("second")), ("c", s("third"))]);
    let mut item = obj(vec![]);
    let target = obj(vec![("a", s("first")), ("b", s("second")), ("c", s("third"))]);
    item.hydrate(base).unwrap();
    assert_eq!(item, target);
}

#[test]
fn test_full_nested() {
    let base = obj(vec![
        ("a", s("first")),
        ("b", s("second")),
        ("c", obj(vec![("d", s("third"))])),
    ]);
    let mut item = obj(vec![]);
    let target = obj(vec![
        ("a", s("first")),
        ("b", s("second")),
        ("c", obj(vec![("d", s("third"))])),
    ]);
    item.hydrate(base).unwrap();
    assert_eq!(item, target);
}

#[test]
fn test_nested_extra_keys() {
    let base = obj(vec![
        ("a", s("first")),
        ("b", s("second")),
        ("c", obj(vec![("d", s("third"))])),
    ]);
    let mut item = obj(vec![("c", obj(vec![("e", s("fourth")), ("f", s("fifth"))]))]);
    let target = obj(vec![
        ("a", s("first")),
        ("b", s("second")),
        ("c", obj(vec![("d", s("third")), ("e", s("fourth")), ("f", s("fifth"))])),
    ]);
    item.hydrate(base).unwrap();
    assert_eq!(item, target);
}

#[test]
fn test_list_of_dicts_extra_keys() {
    let base = obj(vec![(
        "a",
        arr(vec![
            obj(vec![("b1", num(1)), ("b2", num(2))]),
            obj(vec![("c1", num(1)), ("c2", num(2))]),
        ]),
    )]);
    let mut item = obj(vec![(
        "a",
        arr(vec![obj(vec![("b3", num(3))]), obj(vec![("c3", num(3))])]),
    )]);
    let target = obj(vec![(
        "a",
        arr(vec![
            obj(vec![("b1", num(1)), ("b2", num(2)), ("b3", num(3))]),
            obj(vec![("c1", num(1)), ("c2", num(2)), ("c3", num(3))]),
        ]),
    )]);
    item.hydrate(base).unwrap();
    assert_eq!(item, target);
}

#[test]
fn test_equal_len_list_of_mixed_types() {
    let base = obj(vec![(
        "a",
        arr(vec![
            obj(vec![("b1", num(1)), ("b2", num(2))]),
            s("foo"),
            obj(vec![("c1", num(1)), ("c2", num(2))]),
            s("bar"),
        ]),
    )]);
    let mut item = obj(vec![(
        "a",
        arr(vec![
            obj(vec![("b3", num(3))]),
            s("far"),
            obj(vec![("c3", num(3))]),
            s("boo"),
        ]),
    )]);
    let target = obj(vec![(
        "a",
        arr(vec![
            obj(vec![("b1", num(1)), ("b2", num(2)), ("b3", num(3))]),
            s("far"),
            obj(vec![("c1", num(1)), ("c2", num(2)), ("c3", num(3))]),
            s("boo"),
        ]),
    )]);
    item.hydrate(base).unwrap();
    assert_eq!(item, target);
}

#[test]
fn test_unequal_len_list() {
    let base = obj(vec![(
        "a",
        arr(vec![
            obj(vec![("b1", num(1))]),
            obj(vec![("c1", num(1))]),
            obj(vec![("d1", num(1))]),
        ]),
    )]);
    let mut item = obj(vec![(
        "a",
        arr(vec![
            obj(vec![("b1", num(1)), ("b2", num(2))]),
            obj(vec![("c1", num(1)), ("c2", num(2))]),
        ]),
    )]);
    let target = obj(vec![(
        "a",
        arr(vec![
            obj(vec![("b1", num(1)), ("b2", num(2))]),
            obj(vec![("c1", num(1)), ("c2", num(2))]),
        ]),
    )]);
    item.hydrate(base).unwrap();
    assert_eq!(item, target);
}

#[test]
fn test_marked_non_merged_fields() {
    let base = obj(vec![
        ("a", s("first")),
        ("b", s("second")),
        ("c", obj(vec![("d", s("third")), ("e", s("fourth"))])),
    ]);
    let mut item = obj(vec![("c", obj(vec![("e", s("𒍟※")), ("f", s("fifth"))]))]);
    let target = obj(vec![
        ("a", s("first")),
        ("b", s("second")),
        ("c", obj(vec![("d", s("third")), ("f", s("fifth"))])),
    ]);
    item.hydrate(base).unwrap();
    assert_eq!(item, target);
}

#[test]
fn test_marked_non_merged_fields_in_list() {
    let base = obj(vec![(
        "a",
        arr(vec![
            obj(vec![("b", s("first")), ("d", s("third"))]),
            obj(vec![("c", s("second")), ("e", s("fourth"))]),
        ]),
    )]);
    let mut item = obj(vec![(
        "a",
        arr(vec![
            obj(vec![("d", s("𒍟※"))]),
            obj(vec![("e", s("𒍟※")), ("f", s("fifth"))]),
        ]),
    )]);
    let target = obj(vec![(
        "a",
        arr(vec![
            obj(vec![("b", s("first"))]),
            obj(vec![("c", s("second")), ("f", s("fifth"))]),
        ]),
    )]);
    item.hydrate(base).unwrap();
    assert_eq!(item, target);
}

#[test]
fn test_deeply_nested_dict() {
    let base = obj(vec![(
        "a",
        obj(vec![(
            "b",
            obj(vec![("c", obj(vec![("d", s("first")), ("d1", s("second"))]))]),
        )]),
    )]);
    let mut item = obj(vec![(
        "a",
        obj(vec![("b", obj(vec![("c", obj(vec![("d2", s("third"))]))]))]),
    )]);
    let target = obj(vec![(
        "a",
        obj(vec![(
            "b",
            obj(vec![(
                "c",
                obj(vec![("d", s("first")), ("d1", s("second")), ("d2", s("third"))]),
            )]),
        )]),
    )]);
    item.hydrate(base).unwrap();
    assert_eq!(item, target);
}

#[test]
fn test_equal_list_of_non_dicts() {
    let base = obj(vec![(
        "assets",
        obj(vec![("thumbnail", obj(vec![("roles", arr(vec![s("thumbnail")]))]))]),
    )]);
    let mut item = obj(vec![(
        "assets",
        obj(vec![("thumbnail", obj(vec![("href", s("http://foo.com"))]))]),
    )]);
    let target = obj(vec![(
        "assets",
        obj(vec![(
            "thumbnail",
            obj(vec![
                ("roles", arr(vec![s("thumbnail")])),
                ("href", s("http://foo.com")),
            ]),
        )]),
    )]);
    item.hydrate(base).unwrap();
    assert_eq!(item, target);
}

#[test]
fn test_invalid_assets_removed() {
    let base = obj(vec![
        ("type", s("Feature")),
        (
            "assets",
            obj(vec![
                ("asset1", obj(vec![("name", s("Asset one"))])),
                ("asset2", obj(vec![("name", s("Asset two"))])),
            ]),
        ),
    ]);
    let mut item = obj(vec![(
        "assets",
        obj(vec![
            ("asset1", obj(vec![("href", s("http://foo.com"))])),
            ("asset2", s("𒍟※")),
        ]),
    )]);
    let target = obj(vec![
        ("type", s("Feature")),
        (
            "assets",
            obj(vec![(
                "asset1",
                obj(vec![("name", s("Asset one")), ("href", s("http://foo.com"))]),
            )]),
        ),
    ]);
    item.hydrate(base).unwrap();
    assert_eq!(item, target);
}

#[test]
fn test_top_level_base_keys_marked() {
    let base = obj(vec![
        ("single", s("Feature")),
        ("double", obj(vec![("nested", s("value"))])),
        ("triple", obj(vec![("nested", obj(vec![("deep", s("value"))]))])),
        ("included", s("value")),
    ]);
    let mut item = obj(vec![
        ("single", s("𒍟※")),
        ("double", s("𒍟※")),
        ("triple", s("𒍟※")),
        ("unique", s("value")),
    ]);
    let target = obj(vec![("included", s("value")), ("unique", s("value"))]);
    item.hydrate(base).unwrap();
    assert_eq!(item, target);
}

#[test]
fn marker_constant_is_the_documented_token() {
    assert_eq!(MAGIC_MARKER, "\u{1235F}\u{203B}");
}

#[test]
fn identity_merge_leaves_item_unchanged() {
    let doc = || {
        obj(vec![
            ("a", s("first")),
            ("n", num(7)),
            ("l", arr(vec![num(1), obj(vec![("x", Value::Null)])])),
            ("o", obj(vec![("b", Value::Bool(true))])),
        ])
    };
    let mut item = doc();
    item.hydrate(doc()).unwrap();
    assert_eq!(item, doc());
}

#[test]
fn identity_with_marker_drops_marked_key() {
    let mut item = obj(vec![("a", s(MAGIC_MARKER)), ("b", num(1))]);
    let base = obj(vec![("a", s(MAGIC_MARKER)), ("b", num(1))]);
    item.hydrate(base).unwrap();
    assert_eq!(item, obj(vec![("b", num(1))]));
}

#[test]
fn hydrating_twice_equals_hydrating_once() {
    let base = obj(vec![
        ("a", s("first")),
        ("b", s("second")),
        ("c", obj(vec![("d", s("third")), ("e", s("fourth"))])),
        ("l", arr(vec![obj(vec![("p", num(1))]), num(2)])),
    ]);
    let base_again = obj(vec![
        ("a", s("first")),
        ("b", s("second")),
        ("c", obj(vec![("d", s("third")), ("e", s("fourth"))])),
        ("l", arr(vec![obj(vec![("p", num(1))]), num(2)])),
    ]);
    let mut item = obj(vec![
        ("c", obj(vec![("e", s("own")), ("f", s("fifth"))])),
        ("l", arr(vec![obj(vec![("q", num(3))]), s("x")])),
    ]);
    item.hydrate(base).unwrap();
    let once = obj(vec![
        ("a", s("first")),
        ("b", s("second")),
        ("c", obj(vec![("d", s("third")), ("e", s("own")), ("f", s("fifth"))])),
        ("l", arr(vec![obj(vec![("p", num(1)), ("q", num(3))]), s("x")])),
    ]);
    assert_eq!(item, once);
    item.hydrate(base_again).unwrap();
    assert_eq!(item, once);
}

#[test]
fn array_length_mismatch_at_root_is_a_no_op() {
    let mut item = arr(vec![
        obj(vec![("b1", num(1)), ("b2", num(2))]),
        obj(vec![("c1", num(1)), ("c2", num(2))]),
    ]);
    let base = arr(vec![
        obj(vec![("b3", num(3))]),
        obj(vec![("c3", num(3))]),
        obj(vec![("d3", num(3))]),
    ]);
    item.hydrate(base).unwrap();
    assert_eq!(
        item,
        arr(vec![
            obj(vec![("b1", num(1)), ("b2", num(2))]),
            obj(vec![("c1", num(1)), ("c2", num(2))]),
        ])
    );
}

#[test]
fn array_length_mismatch_hides_inner_mismatch() {
    let mut item = arr(vec![obj(vec![("a", num(1))])]);
    let base = arr(vec![num(1), num(2)]);
    assert!(item.hydrate(base).is_ok());
    assert_eq!(item, arr(vec![obj(vec![("a", num(1))])]));
}

#[test]
fn type_mismatch_at_root_is_raised() {
    let mut item = obj(vec![("a", num(1))]);
    let base = arr(vec![num(1), num(2), num(3)]);
    let r = item.hydrate(base);
    assert_eq!(
        r,
        Err(Error::TypeMismatch(
            obj(vec![("a", num(1))]),
            arr(vec![num(1), num(2), num(3)])
        ))
    );
    assert_eq!(item, obj(vec![("a", num(1))]));
}

#[test]
fn array_over_scalar_is_a_mismatch() {
    let mut item = arr(vec![num(1)]);
    let r = item.hydrate(s("text"));
    assert_eq!(r, Err(Error::TypeMismatch(arr(vec![num(1)]), s("text"))));
}

#[test]
fn nested_mismatch_leaves_item_untouched() {
    let mut item = obj(vec![("a", obj(vec![("x", num(1))])), ("z", obj(vec![("y", num(2))]))]);
    let base = obj(vec![
        ("a", obj(vec![("w", num(0))])),
        ("b", s("added")),
        ("z", arr(vec![])),
    ]);
    let r = item.hydrate(base);
    assert_eq!(r, Err(Error::TypeMismatch(obj(vec![("y", num(2))]), arr(vec![]))));
    assert_eq!(
        item,
        obj(vec![("a", obj(vec![("x", num(1))])), ("z", obj(vec![("y", num(2))]))])
    );
}

#[test]
fn first_mismatch_in_key_order_is_reported() {
    let mut item = obj(vec![("b", arr(vec![])), ("a", obj(vec![]))]);
    let base = obj(vec![("b", num(2)), ("a", num(1))]);
    let r = item.hydrate(base);
    assert_eq!(r, Err(Error::TypeMismatch(obj(vec![]), num(1))));
}

#[test]
fn marked_key_skips_mismatch() {
    let mut item = obj(vec![("a", s(MAGIC_MARKER))]);
    let base = obj(vec![("a", arr(vec![num(1)]))]);
    item.hydrate(base).unwrap();
    assert_eq!(item, obj(vec![]));
}

#[test]
fn lenient_keeps_mismatched_subtree_and_merges_siblings() {
    let mut item = obj(vec![("a", obj(vec![("x", num(1))])), ("c", obj(vec![]))]);
    let base = obj(vec![
        ("a", num(5)),
        ("b", s("added")),
        ("c", obj(vec![("d", num(4))])),
    ]);
    item.hydrate_lenient(base);
    assert_eq!(
        item,
        obj(vec![
            ("a", obj(vec![("x", num(1))])),
            ("b", s("added")),
            ("c", obj(vec![("d", num(4))])),
        ])
    );
}

#[test]
fn scalars_win_over_base() {
    let mut n = Value::Null;
    n.hydrate(obj(vec![("a", num(1))])).unwrap();
    assert_eq!(n, Value::Null);
    let mut b = Value::Bool(false);
    b.hydrate(Value::Bool(true)).unwrap();
    assert_eq!(b, Value::Bool(false));
    let mut t = s("mine");
    t.hydrate(arr(vec![num(1)])).unwrap();
    assert_eq!(t, s("mine"));
}

#[test]
fn item_only_marker_stays() {
    let mut item = obj(vec![("only", s(MAGIC_MARKER))]);
    item.hydrate(obj(vec![("other", num(1))])).unwrap();
    assert_eq!(item, obj(vec![("only", s(MAGIC_MARKER)), ("other", num(1))]));
}

#[test]
fn insert_keeps_keys_sorted_and_replaces() {
    let mut v = Value::Object(Vec::new());
    v.insert("b".to_string(), num(1));
    v.insert("a".to_string(), num(2));
    v.insert("c".to_string(), num(3));
    v.insert("b".to_string(), num(4));
    assert_eq!(
        v,
        Value::Object(vec![
            ("a".to_string(), num(2)),
            ("b".to_string(), num(4)),
            ("c".to_string(), num(3)),
        ])
    );
}

#[test]
fn keys_sort_by_bytes() {
    let mut v = Value::Object(Vec::new());
    v.insert("é".to_string(), num(1));
    v.insert("z".to_string(), num(2));
    v.insert("Z".to_string(), num(3));
    v.insert("".to_string(), num(4));
    v.insert("zz".to_string(), num(5));
    assert_eq!(
        v,
        Value::Object(vec![
            ("".to_string(), num(4)),
            ("Z".to_string(), num(3)),
            ("z".to_string(), num(2)),
            ("zz".to_string(), num(5)),
            ("é".to_string(), num(1)),
        ])
    );
}

#[test]
fn copy_value_is_equal() {
    let v = obj(vec![("a", arr(vec![num(1), s("x"), Value::Null])), ("b", Value::Bool(true))]);
    assert_eq!(hydrate::value::copy_value(&v), v);
}

#[test]
fn depth_limit_refuses_deep_item() {
    let mut item = obj(vec![("a", obj(vec![("b", obj(vec![]))]))]);
    let r = item.hydrate_within(obj(vec![("c", num(1))]), 2);
    assert_eq!(r, Err(Error::DepthExceeded));
    assert_eq!(item, obj(vec![("a", obj(vec![("b", obj(vec![]))]))]));
}

#[test]
fn depth_limit_refuses_deep_base() {
    let mut item = obj(vec![]);
    let r = item.hydrate_within(arr(vec![arr(vec![num(1)])]), 1);
    assert_eq!(r, Err(Error::DepthExceeded));
    assert_eq!(item, obj(vec![]));
}

#[test]
fn depth_limit_allows_exact_depth() {
    let mut item = obj(vec![("a", obj(vec![("b", obj(vec![]))]))]);
    let r = item.hydrate_within(obj(vec![("c", num(1))]), 3);
    assert_eq!(r, Ok(()));
    assert_eq!(
        item,
        obj(vec![("a", obj(vec![("b", obj(vec![]))])), ("c", num(1))])
    );
}

#[test]
fn depth_limit_zero_allows_scalars_only() {
    let mut item = num(3);
    assert_eq!(item.hydrate_within(s("x"), 0), Ok(()));
    let mut empty = obj(vec![]);
    assert_eq!(empty.hydrate_within(Value::Null, 0), Err(Error::DepthExceeded));
}

#[test]
fn depth_limit_still_reports_mismatch() {
    let mut item = obj(vec![("a", num(1))]);
    let r = item.hydrate_within(arr(vec![]), 5);
    assert_eq!(r, Err(Error::TypeMismatch(obj(vec![("a", num(1))]), arr(vec![]))));
}

