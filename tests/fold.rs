use bom_fold::data::{FlatData, Node};
use bom_fold::error::Error;
use bom_fold::ordered_level_key::fold;
use bom_fold::rules::{AbsoluteParentLocator, ChildIdentificationPolicy, ItemSyncFormatRules, OutputRules, Rules};
use bom_fold::transform::transform;
use bom_fold::value::Value;

fn keys() -> Vec<String> {
    vec!["level".to_string(), "foo".to_string()]
}

fn leaf(record: usize) -> Node {
    Node { record, children: Vec::new() }
}

fn num(x: f64) -> Value {
    Value::Number(x.to_bits())
}

fn test_case(key: &str, input: &FlatData, output: Vec<Node>) {
    let folded = fold(input, key).unwrap();
    assert_eq!(folded.top_level_nodes, output);
    assert_eq!(folded.attribute_keys, &input.keys);
}

#[test]
fn degenerate() {
    let input = FlatData { keys: keys(), records: vec![vec![Value::text("1"), Value::text("foo")]] };
    test_case("level", &input, vec![leaf(0)]);
}

#[test]
fn single_root_single_layer() {
    let input = FlatData {
        keys: keys(),
        records: vec![
            vec![Value::text("1"), Value::text("foo")],
            vec![Value::text("1.1"), Value::text("foo")],
        ],
    };
    test_case("level", &input, vec![Node { record: 0, children: vec![leaf(1)] }]);
}

#[test]
fn single_root_single_layer_number() {
    let input = FlatData {
        keys: keys(),
        records: vec![vec![num(1.0), Value::text("foo")], vec![num(1.1), Value::text("foo")]],
    };
    test_case("level", &input, vec![Node { record: 0, children: vec![leaf(1)] }]);
}

#[test]
fn multi_root_single_layer() {
    let input = FlatData {
        keys: keys(),
        records: vec![
            vec![Value::text("1"), Value::text("1")],
            vec![Value::text("1.1"), Value::text("2")],
            vec![Value::text("1"), Value::text("3")],
            vec![Value::text("1.1"), Value::text("4")],
        ],
    };
    test_case(
        "level",
        &input,
        vec![Node { record: 0, children: vec![leaf(1)] }, Node { record: 2, children: vec![leaf(3)] }],
    );
}

#[test]
fn single_root_multi_layer() {
    let input = FlatData {
        keys: keys(),
        records: vec![
            vec![Value::text("1"), Value::text("0")],
            vec![Value::text("1.1"), Value::text("1")],
            vec![Value::text("1.1"), Value::text("2")],
            vec![Value::text("1.2"), Value::text("3")],
            vec![Value::text("1.1"), Value::text("4")],
        ],
    };
    test_case(
        "level",
        &input,
        vec![Node {
            record: 0,
            children: vec![leaf(1), Node { record: 2, children: vec![leaf(3)] }, leaf(4)],
        }],
    );
}

#[test]
fn empty_table_folds_to_empty_forest() {
    let input = FlatData { keys: keys(), records: Vec::new() };
    assert!(fold(&input, "level").unwrap().top_level_nodes.is_empty());
    let input = FlatData { keys: Vec::new(), records: vec![vec![Value::text("1")]] };
    assert!(fold(&input, "missing").unwrap().top_level_nodes.is_empty());
}

#[test]
fn missing_level_key_is_invalid_argument() {
    let input = FlatData { keys: keys(), records: vec![vec![Value::text("1"), Value::text("a")]] };
    let err = fold(&input, "depth").unwrap_err();
    assert!(matches!(err, Error::InvalidArgument(_)));
    assert_eq!(err.client_code(), "INVALID_ARGUMENT");
}

#[test]
fn short_row_is_invalid_argument() {
    let input = FlatData {
        keys: vec!["foo".to_string(), "level".to_string()],
        records: vec![vec![Value::text("a"), num(1.0)], vec![Value::text("b")]],
    };
    assert!(matches!(fold(&input, "level").unwrap_err(), Error::InvalidArgument(_)));
}

#[test]
fn flat_single_level_makes_only_roots() {
    let input = FlatData {
        keys: keys(),
        records: vec![
            vec![num(2.0), Value::text("a")],
            vec![num(2.0), Value::text("b")],
            vec![num(2.0), Value::text("c")],
        ],
    };
    test_case("level", &input, vec![leaf(0), leaf(1), leaf(2)]);
}

#[test]
fn strict_nesting_makes_a_chain() {
    let input = FlatData {
        keys: keys(),
        records: vec![
            vec![num(1.0), Value::text("a")],
            vec![num(1.1), Value::text("b")],
            vec![num(1.2), Value::text("c")],
        ],
    };
    let chain = Node { record: 0, children: vec![Node { record: 1, children: vec![leaf(2)] }] };
    test_case("level", &input, vec![chain]);
}

#[test]
fn equal_level_resets_to_sibling() {
    let input = FlatData {
        keys: keys(),
        records: vec![
            vec![num(1.0), Value::text("0")],
            vec![num(2.0), Value::text("1")],
            vec![num(3.0), Value::text("2")],
            vec![num(2.0), Value::text("3")],
        ],
    };
    let expected = Node {
        record: 0,
        children: vec![Node { record: 1, children: vec![leaf(2)] }, leaf(3)],
    };
    test_case("level", &input, vec![expected]);
}

#[test]
fn two_roots_each_with_a_child() {
    let input = FlatData {
        keys: keys(),
        records: vec![
            vec![num(0.0), Value::text("a")],
            vec![num(1.0), Value::text("b")],
            vec![num(0.0), Value::text("c")],
            vec![num(1.0), Value::text("d")],
        ],
    };
    test_case(
        "level",
        &input,
        vec![Node { record: 0, children: vec![leaf(1)] }, Node { record: 2, children: vec![leaf(3)] }],
    );
}

#[test]
fn incomparable_levels_nest_deeper() {
    let input = FlatData {
        keys: keys(),
        records: vec![
            vec![num(1.0), Value::text("a")],
            vec![Value::text("1"), Value::text("b")],
            vec![num(1.0), Value::text("c")],
        ],
    };
    // "1" cannot be compared with 1.0, so each row opens under the one before it.
    let chain = Node { record: 0, children: vec![Node { record: 1, children: vec![leaf(2)] }] };
    test_case("level", &input, vec![chain]);
}

#[test]
fn nan_level_is_incomparable() {
    let input = FlatData {
        keys: keys(),
        records: vec![vec![num(f64::NAN), Value::text("a")], vec![num(f64::NAN), Value::text("b")]],
    };
    test_case("level", &input, vec![Node { record: 0, children: vec![leaf(1)] }]);
}

#[test]
fn negative_zero_equals_zero_level() {
    let input = FlatData {
        keys: keys(),
        records: vec![vec![num(0.0), Value::text("a")], vec![num(-0.0), Value::text("b")]],
    };
    test_case("level", &input, vec![leaf(0), leaf(1)]);
}

#[test]
fn transform_by_level_key_and_absolute() {
    let input = FlatData {
        keys: keys(),
        records: vec![vec![Value::text("1"), Value::text("a")], vec![Value::text("2"), Value::text("b")]],
    };
    let output_rules = || {
        OutputRules::ItemSync(ItemSyncFormatRules {
            id_key: "foo".to_string(),
            name_key: None,
            quantity_key: None,
        })
    };
    let rules = Rules {
        type_mapping: None,
        child_identification_policy: ChildIdentificationPolicy::OrderedLevelKey("level".to_string()),
        output_rules: output_rules(),
    };
    let folded = transform(&input, &rules).unwrap();
    assert_eq!(folded.top_level_nodes, vec![Node { record: 0, children: vec![leaf(1)] }]);
    let rules = Rules {
        type_mapping: None,
        child_identification_policy: ChildIdentificationPolicy::Absolute(AbsoluteParentLocator {}),
        output_rules: output_rules(),
    };
    assert!(matches!(transform(&input, &rules).unwrap_err(), Error::Unimplemented(_)));
}
