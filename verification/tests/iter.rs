use mav_param::{param_iter, param_iter_named, Error, Node, Parameter, Tree, Value};

fn leaf(value: Value) -> Node {
    Node::Leaf(value)
}

/// The test tree: struct-like aggregates built as explicit entry lists.
fn basic_params() -> Node {
    let mut deeper = Tree::new();
    deeper.add_entry("val", true, leaf(Value::I8(-5)));

    let mut subtree = Tree::new();
    subtree.add_entry("leaf1", true, leaf(Value::U32(42)));
    subtree.add_entry("leaf2", true, leaf(Value::F32(3.14f32.to_bits())));
    subtree.add_entry("deep", true, Node::Tree(deeper));

    let mut params = Tree::new();
    params.add_entry("sub", true, Node::Tree(subtree));
    params.add_entry("value1", true, leaf(Value::U8(10)));
    params.add_entry("value2", true, leaf(Value::I16(-100)));
    params.add_entry("float_val", true, leaf(Value::F32(2.718f32.to_bits())));
    Node::Tree(params)
}

fn collect_ok(node: &Node, root: &str) -> Vec<Parameter> {
    let mut iter = param_iter_named(node, root);
    let mut out = Vec::new();
    while let Some(result) = iter.next() {
        if let Ok(param) = result {
            out.push(param);
        }
        if out.len() >= 20 {
            break;
        }
    }
    out
}

#[test]
fn basic_iteration() {
    let params = basic_params();

    let results = collect_ok(&params, "test");

    // test.sub.deep.val would need 17 bytes, so it fails with an in-band
    // error and is skipped.
    assert_eq!(results.len(), 5, "Should iterate over 5 leaf values");

    let expected_params = vec![
        ("test.sub.leaf1", Value::U32(42)),
        ("test.sub.leaf2", Value::F32(3.14f32.to_bits())),
        ("test.value1", Value::U8(10)),
        ("test.value2", Value::I16(-100)),
        ("test.float_val", Value::F32(2.718f32.to_bits())),
    ];

    for (param, (expected_path, expected_value)) in results.iter().zip(expected_params.iter()) {
        assert_eq!(param.ident.as_str(), *expected_path);

        match (&param.value, expected_value) {
            (Value::U8(a), Value::U8(b)) => assert_eq!(a, b),
            (Value::I8(a), Value::I8(b)) => assert_eq!(a, b),
            (Value::U16(a), Value::U16(b)) => assert_eq!(a, b),
            (Value::I16(a), Value::I16(b)) => assert_eq!(a, b),
            (Value::U32(a), Value::U32(b)) => assert_eq!(a, b),
            (Value::I32(a), Value::I32(b)) => assert_eq!(a, b),
            (Value::F32(a), Value::F32(b)) => {
                assert!((f32::from_bits(*a) - f32::from_bits(*b)).abs() < f32::EPSILON)
            }
            _ => panic!("Value type mismatch"),
        }
    }
}

#[test]
fn path_too_long_is_in_band() {
    let params = basic_params();

    let mut iter = param_iter_named(&params, "test");
    let mut errors = Vec::new();
    let mut values = 0usize;
    while let Some(result) = iter.next() {
        match result {
            Ok(_) => values += 1,
            Err(error) => errors.push(error),
        }
    }

    assert_eq!(values, 5);
    assert_eq!(errors.len(), 1);
    match &errors[0] {
        Error::PathTooLong(path, entry) => {
            assert_eq!(path.as_str(), "test.sub.deep");
            assert_eq!(entry, "val");
        }
        other => panic!("expected PathTooLong, got {:?}", other),
    }
}

#[test]
fn max_depth_error() {
    // A chain nested one level deeper than the traversal stack allows.
    let mut level = Tree::new();
    level.add_entry("l6", true, leaf(Value::U8(42)));
    let mut node = Node::Tree(level);
    for name in ["l5", "l4", "l3", "l2", "l1"] {
        let mut outer = Tree::new();
        outer.add_entry(name, true, node);
        node = Node::Tree(outer);
    }

    let mut iter = param_iter_named(&node, "d");
    let mut found_depth_error = false;

    while let Some(result) = iter.next() {
        if let Err(Error::DepthTooBig(_, _)) = result {
            found_depth_error = true;
            break;
        }
    }

    assert!(found_depth_error, "Should encounter a DepthTooBig error");
}

#[test]
fn declared_order_preserved() {
    // Params { entry1: u8 = 10, entry2: i16 = -100, float_val: f32 = 2.718,
    // subtree: { leaf1: u32 = 42, leaf2: f32 = 3.14 } }, declared with the
    // subtree first. Iterated without a root name, since "subtree.leaf1"
    // together with a root segment would not fit 16 bytes.
    let mut subtree = Tree::new();
    subtree.add_entry("leaf1", true, leaf(Value::U32(42)));
    subtree.add_entry("leaf2", true, leaf(Value::F32(3.14f32.to_bits())));

    let mut params = Tree::new();
    params.add_entry("subtree", true, Node::Tree(subtree));
    params.add_entry("entry1", true, leaf(Value::U8(10)));
    params.add_entry("entry2", true, leaf(Value::I16(-100)));
    params.add_entry("float_val", true, leaf(Value::F32(2.718f32.to_bits())));
    let root = Node::Tree(params);

    let mut iter = param_iter(&root);
    let mut flat = Vec::new();
    while let Some(result) = iter.next() {
        let param = result.expect("every identifier fits");
        flat.push((param.ident.as_str().to_owned(), param.value));
    }

    assert_eq!(
        flat,
        vec![
            ("subtree.leaf1".to_owned(), Value::U32(42)),
            ("subtree.leaf2".to_owned(), Value::F32(3.14f32.to_bits())),
            ("entry1".to_owned(), Value::U8(10)),
            ("entry2".to_owned(), Value::I16(-100)),
            ("float_val".to_owned(), Value::F32(2.718f32.to_bits())),
        ]
    );
}

#[test]
fn root_leaf_yields_once() {
    let node = leaf(Value::I32(-7));
    let mut iter = param_iter_named(&node, "only");
    match iter.next() {
        Some(Ok(param)) => {
            assert_eq!(param.ident.as_str(), "only");
            assert_eq!(param.value, Value::I32(-7));
        }
        other => panic!("expected one value, got {:?}", other),
    }
    assert!(iter.next().is_none());
}
