use mav_param::{
    get_value, param_iter_named, set_value, Enum, Node, Tree, Value, Variant,
};

fn leaf(value: Value) -> Node {
    Node::Leaf(value)
}

/// `Inner { i1, i2, i3 }` as a tree of three byte leaves.
fn inner_tree(i1: u8, i2: u8, i3: u8) -> Node {
    let mut t = Tree::new();
    t.add_entry("i1", true, leaf(Value::U8(i1)));
    t.add_entry("i2", true, leaf(Value::U8(i2)));
    t.add_entry("i3", true, leaf(Value::U8(i3)));
    Node::Tree(t)
}

/// A tagged union with two variants: discriminant 0 holds an `Inner` whose
/// declared default is (2, 4, 8); discriminant 1 holds a float whose
/// declared default is 5.0. Starts at variant 0 with a zeroed payload.
fn union_node() -> Node {
    let variants = vec![
        Variant {
            tag: Value::U8(0),
            payload: inner_tree(2, 4, 8),
        },
        Variant {
            tag: Value::U8(1),
            payload: leaf(Value::F32(5.0f32.to_bits())),
        },
    ];
    Node::Enum(Enum {
        variants,
        active: 0,
        payload: Box::new(inner_tree(0, 0, 0)),
    })
}

/// `Params { entry1: u8, entry2: u8, var: Union }`, all zeroed.
fn params_tree() -> Node {
    let mut t = Tree::new();
    t.add_entry("entry1", true, leaf(Value::U8(0)));
    t.add_entry("entry2", true, leaf(Value::U8(0)));
    t.add_entry("var", true, union_node());
    Node::Tree(t)
}

/// Replace the enum at the named entry with variant 1 holding 5.0, the
/// caller's own composition of a whole-enum write.
fn switch_union_to_float(node: &mut Node) {
    let Node::Tree(t) = node else {
        panic!("expected a tree root")
    };
    let entry = t
        .entries
        .iter_mut()
        .find(|e| e.name == "var")
        .expect("var entry");
    let Node::Enum(u) = &mut entry.node else {
        panic!("expected an enum at var")
    };
    u.active = 1;
    u.payload = Box::new(leaf(Value::F32(5.0f32.to_bits())));
}

fn get_value_func_case() {
    let mut test = params_tree();

    assert_eq!(get_value(&test, ".var.#"), Some(Value::U8(0)));
    assert_eq!(get_value(&test, ".var.i1"), Some(Value::U8(0)));

    // This will implicitly update the discriminant 'leaf'
    switch_union_to_float(&mut test);

    assert_eq!(get_value(&test, ".var.#"), Some(Value::U8(1)));
    assert_eq!(get_value(&test, ".var"), Some(Value::F32(5.0f32.to_bits())));

    // Setting the discriminant will set the variant to default
    assert_eq!(set_value(&mut test, ".var.#", Value::U8(0)), Some(()));

    assert_eq!(get_value(&test, ".var.#"), Some(Value::U8(0)));
    assert_eq!(get_value(&test, ".var.i1"), Some(Value::U8(2)));
}

#[test]
fn lib_get_value_func() {
    get_value_func_case();
}

#[test]
fn mod_get_value_func() {
    get_value_func_case();
}

fn names_of(node: &Node, root: &str) -> Vec<String> {
    let mut iter = param_iter_named(node, root);
    let mut names = Vec::new();
    while let Some(result) = iter.next() {
        if let Ok(param) = result {
            names.push(param.ident.as_str().to_owned());
        }
        if names.len() >= 20 {
            break;
        }
    }
    names
}

fn basic_derive_case() {
    let mut test = params_tree();

    let params_vec = names_of(&test, "param");

    let names = vec![
        "param.entry1".to_owned(),
        "param.entry2".to_owned(),
        "param.var.#".to_owned(),
        "param.var.i1".to_owned(),
        "param.var.i2".to_owned(),
        "param.var.i3".to_owned(),
    ];

    assert_eq!(names, params_vec);

    switch_union_to_float(&mut test);

    let params_vec = names_of(&test, "param");

    let names = vec![
        "param.entry1".to_owned(),
        "param.entry2".to_owned(),
        "param.var.#".to_owned(),
        "param.var".to_owned(),
    ];

    assert_eq!(names, params_vec);
}

#[test]
fn lib_basic_derive() {
    basic_derive_case();
}

#[test]
fn mod_basic_derive() {
    basic_derive_case();
}

/// `(f32, f32)` as a tree with positional entry names.
fn float_pair_tree(a: f32, b: f32) -> Node {
    let mut t = Tree::new();
    t.add_entry("0", true, leaf(Value::F32(a.to_bits())));
    t.add_entry("1", true, leaf(Value::F32(b.to_bits())));
    Node::Tree(t)
}

fn option_enum_case() {
    // Params { entry1, entry2, var: Option<(f32, f32)>, float1, float2 }
    let mut t = Tree::new();
    t.add_entry("entry1", true, leaf(Value::U8(0)));
    t.add_entry("entry2", true, leaf(Value::U8(0)));
    t.add_entry(
        "var",
        true,
        Node::Enum(Enum::optional(float_pair_tree(0.0, 0.0), None)),
    );
    t.add_entry("float1", true, leaf(Value::F32(0.0f32.to_bits())));
    t.add_entry("float2", true, leaf(Value::F32(0.0f32.to_bits())));
    let mut test = Node::Tree(t);

    let params_vec = names_of(&test, "param");

    let names = vec![
        "param.entry1".to_owned(),
        "param.entry2".to_owned(),
        "param.var.#".to_owned(),
        "param.float1".to_owned(),
        "param.float2".to_owned(),
    ];

    assert_eq!(names, params_vec);

    // test.var = Some((2.0, 3.0))
    {
        let Node::Tree(t) = &mut test else {
            panic!("expected a tree root")
        };
        let entry = t
            .entries
            .iter_mut()
            .find(|e| e.name == "var")
            .expect("var entry");
        let Node::Enum(u) = &mut entry.node else {
            panic!("expected an enum at var")
        };
        u.active = 1;
        u.payload = Box::new(float_pair_tree(2.0, 3.0));
    }

    let params_vec = names_of(&test, "param");

    let names = vec![
        "param.entry1".to_owned(),
        "param.entry2".to_owned(),
        "param.var.#".to_owned(),
        "param.var.0".to_owned(),
        "param.var.1".to_owned(),
        "param.float1".to_owned(),
        "param.float2".to_owned(),
    ];

    assert_eq!(names, params_vec);
}

#[test]
fn lib_option_enum() {
    option_enum_case();
}

#[test]
fn mod_option_enum() {
    option_enum_case();
}

fn basic_derive_renamed_case() {
    // NestedParams' entries carry their renamed names "e1" and "e2".
    let mut nest = Tree::new();
    nest.add_entry("e1", true, leaf(Value::U8(0)));
    nest.add_entry("e2", true, leaf(Value::U8(0)));

    let mut t = Tree::new();
    t.add_entry("entry1", true, leaf(Value::U8(0)));
    t.add_entry("entry2", true, leaf(Value::U8(0)));
    t.add_entry("nest", true, Node::Tree(nest));
    let test = Node::Tree(t);

    let params_vec = names_of(&test, "test");

    let names = vec![
        "test.entry1".to_owned(),
        "test.entry2".to_owned(),
        "test.nest.e1".to_owned(),
        "test.nest.e2".to_owned(),
    ];

    assert_eq!(names, params_vec);
}

#[test]
fn lib_basic_derive_renamed() {
    basic_derive_renamed_case();
}

#[test]
fn mod_basic_derive_renamed() {
    basic_derive_renamed_case();
}

/// The conditional tree: `nest` is gated on `entry1 != entry2`, evaluated
/// by the builder of the tree.
fn conditional_params(entry1: u8, entry2: u8, nest_name: &str) -> Node {
    let mut nest = Tree::new();
    nest.add_entry("entry1", true, leaf(Value::U8(0)));
    nest.add_entry("entry2", true, leaf(Value::U8(0)));

    let mut t = Tree::new();
    t.add_entry("entry1", true, leaf(Value::U8(entry1)));
    t.add_entry("entry2", true, leaf(Value::U8(entry2)));
    t.add_entry(nest_name, entry1 != entry2, Node::Tree(nest));
    Node::Tree(t)
}

fn basic_derive_conditional_case() {
    // entry1 == entry2, so the condition "self.entry1 != self.entry2"
    // hides the nested tree.
    let test = conditional_params(0, 0, "nest");

    let params_vec = names_of(&test, "test");

    let names = vec!["test.entry1".to_owned(), "test.entry2".to_owned()];

    assert_eq!(names, params_vec);

    // test.entry1 += 1: the condition becomes true.
    let test = conditional_params(1, 0, "nest");

    let params_vec = names_of(&test, "test");

    let names = vec![
        "test.entry1".to_owned(),
        "test.entry2".to_owned(),
        "test.nest.entry1".to_owned(),
        "test.nest.entry2".to_owned(),
    ];

    assert_eq!(names, params_vec);
}

#[test]
fn lib_basic_derive_conditional() {
    basic_derive_conditional_case();
}

#[test]
fn mod_basic_derive_conditional() {
    basic_derive_conditional_case();
}

fn derive_conditional_and_rename_case() {
    let test = conditional_params(0, 0, "n");

    let params_vec = names_of(&test, "test");

    let names = vec!["test.entry1".to_owned(), "test.entry2".to_owned()];

    assert_eq!(names, params_vec);

    let test = conditional_params(1, 0, "n");

    let params_vec = names_of(&test, "test");

    let names = vec![
        "test.entry1".to_owned(),
        "test.entry2".to_owned(),
        "test.n.entry1".to_owned(),
        "test.n.entry2".to_owned(),
    ];

    assert_eq!(names, params_vec);
}

#[test]
fn lib_derive_conditional_and_rename() {
    derive_conditional_and_rename_case();
}

#[test]
fn mod_derive_conditional_and_rename() {
    derive_conditional_and_rename_case();
}

#[test]
fn set_enabled_reveals_entry() {
    // The same gating, driven through the library's own toggle.
    let mut test = conditional_params(0, 0, "nest");
    if let Node::Tree(t) = &mut test {
        assert!(t.set_enabled("nest", true));
        assert!(!t.set_enabled("no_such", true));
    } else {
        panic!("expected a tree root");
    }

    let params_vec = names_of(&test, "test");
    assert_eq!(
        params_vec,
        vec![
            "test.entry1".to_owned(),
            "test.entry2".to_owned(),
            "test.nest.entry1".to_owned(),
            "test.nest.entry2".to_owned(),
        ]
    );
}

#[test]
fn enum_chain_shares_path() {
    // An optional wrapping an optional: enum substitution consumes no
    // stack slot and no extra path segment, so both discriminants sit at
    // the same sigil path and the innermost value at the entry path.
    let inner = Enum::optional(
        leaf(Value::U8(3)),
        Some(leaf(Value::U8(9))),
    );
    let outer = Enum::optional(Node::Absent, Some(Node::Enum(inner)));
    let mut t = Tree::new();
    t.add_entry("opt", true, Node::Enum(outer));
    let mut root = Node::Tree(t);

    let mut iter = param_iter_named(&root, "p");
    let mut flat = Vec::new();
    while let Some(result) = iter.next() {
        let param = result.expect("all paths fit");
        flat.push((param.ident.as_str().to_owned(), param.value));
    }
    assert_eq!(
        flat,
        vec![
            ("p.opt.#".to_owned(), Value::U8(1)),
            ("p.opt.#".to_owned(), Value::U8(1)),
            ("p.opt".to_owned(), Value::U8(9)),
        ]
    );

    // The sigil halts at the outermost enum.
    assert_eq!(get_value(&root, ".opt.#"), Some(Value::U8(1)));
    assert_eq!(get_value(&root, ".opt"), Some(Value::U8(9)));

    // Resetting the outer discriminant discards the whole chain.
    assert_eq!(set_value(&mut root, ".opt.#", Value::U8(0)), Some(()));
    assert_eq!(get_value(&root, ".opt.#"), Some(Value::U8(0)));
    assert_eq!(get_value(&root, ".opt"), None);
}

#[test]
fn resolver_misses_and_mismatches() {
    let mut test = params_tree();

    // Unknown segment.
    assert_eq!(get_value(&test, ".nosuch"), None);
    // Trailing segments past a leaf.
    assert_eq!(get_value(&test, ".entry1.extra"), None);
    // Kind mismatch on write leaves the tree unchanged.
    assert_eq!(set_value(&mut test, ".entry1", Value::I16(-1)), None);
    assert_eq!(get_value(&test, ".entry1"), Some(Value::U8(0)));
    // Undeclared discriminant is a no-op.
    assert_eq!(set_value(&mut test, ".var.#", Value::U8(9)), None);
    assert_eq!(get_value(&test, ".var.#"), Some(Value::U8(0)));
    // Matching kind succeeds.
    assert_eq!(set_value(&mut test, ".entry2", Value::U8(17)), Some(()));
    assert_eq!(get_value(&test, ".entry2"), Some(Value::U8(17)));
}

#[test]
fn leading_separators_are_ignored() {
    let test = params_tree();
    assert_eq!(get_value(&test, "entry1"), Some(Value::U8(0)));
    assert_eq!(get_value(&test, ".entry1"), Some(Value::U8(0)));
    assert_eq!(get_value(&test, "..entry1"), Some(Value::U8(0)));
    // The empty path names no leaf.
    assert_eq!(get_value(&test, ""), None);
    assert_eq!(get_value(&test, "."), None);
}

#[test]
fn hidden_entry_is_unreachable() {
    let test = conditional_params(0, 0, "nest");
    // While the condition is false the gated entry resolves to nothing...
    assert_eq!(get_value(&test, ".nest.entry1"), None);

    let test = conditional_params(1, 0, "nest");
    // ...and once it holds, the same path resolves normally.
    assert_eq!(get_value(&test, ".nest.entry1"), Some(Value::U8(0)));
}
