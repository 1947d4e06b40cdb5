use cq::engine::{
    evaluate_filter, execute_path, execute_path_recursive, execute_path_with_wildcards,
    get_nested_field, query_document, QueryResult,
};
use cq::error::Error;
use cq::path::{FilterExpr, FilterOp, FilterValue, PathSegment, QueryPath};
use cq::value::{Number, QueryValue};

fn object(members: Vec<(&str, QueryValue)>) -> QueryValue {
    QueryValue::Object(members.into_iter().map(|(k, v)| (k.to_string(), v)).collect())
}

fn array(items: Vec<QueryValue>) -> QueryValue {
    QueryValue::Array(items)
}

fn text(s: &str) -> QueryValue {
    QueryValue::String(s.to_string())
}

fn whole(n: u64) -> QueryValue {
    QueryValue::Number(Number::PosInt(n))
}

fn fraction(x: f64) -> QueryValue {
    QueryValue::Number(Number::Float(x.to_bits()))
}

fn parse(query: &str) -> QueryPath {
    QueryPath::parse(query).unwrap()
}

fn query(tree: &QueryValue, q: &str) -> Result<QueryResult, Error> {
    query_document(tree, &[0xde, 0xad, 0x01, 0xf0], q)
}

#[test]
fn test_execute_path_simple() {
    let json = object(vec![("body", object(vec![("fee", whole(200000)), ("inputs", array(vec![]))]))]);

    let segments = vec![
        PathSegment::Field("body".into()),
        PathSegment::Field("fee".into()),
    ];

    let result = execute_path(&json, &segments).unwrap();
    match result {
        QueryValue::Number(n) => assert_eq!(n, Number::PosInt(200000)),
        _ => panic!("Expected number"),
    }
}

#[test]
fn test_execute_path_with_index() {
    let json = object(vec![(
        "outputs",
        array(vec![
            object(vec![("address", text("addr1..."))]),
            object(vec![("address", text("addr2..."))]),
        ]),
    )]);

    let segments = vec![
        PathSegment::Field("outputs".into()),
        PathSegment::Index(0),
        PathSegment::Field("address".into()),
    ];

    let result = execute_path(&json, &segments).unwrap();
    match result {
        QueryValue::String(s) => assert_eq!(s, "addr1..."),
        _ => panic!("Expected string"),
    }
}

#[test]
fn test_execute_path_with_wildcard() {
    let json = object(vec![(
        "outputs",
        array(vec![
            object(vec![("address", text("addr1"))]),
            object(vec![("address", text("addr2"))]),
            object(vec![("address", text("addr3"))]),
        ]),
    )]);

    let segments = vec![
        PathSegment::Field("outputs".into()),
        PathSegment::Wildcard,
        PathSegment::Field("address".into()),
    ];

    let results = execute_path_with_wildcards(&json, &segments).unwrap();
    assert_eq!(results.len(), 3);
    assert_eq!(results, vec![text("addr1"), text("addr2"), text("addr3")]);
}

#[test]
fn test_field_not_found() {
    let json = object(vec![("body", object(vec![]))]);
    let segments = vec![
        PathSegment::Field("body".into()),
        PathSegment::Field("nonexistent".into()),
    ];

    let result = execute_path(&json, &segments);
    assert!(matches!(result, Err(Error::FieldNotFound(_))));
    match result {
        Err(Error::FieldNotFound(name)) => assert_eq!(name, "nonexistent"),
        _ => panic!("Expected FieldNotFound"),
    }
}

#[test]
fn test_index_out_of_bounds() {
    let json = object(vec![("arr", array(vec![whole(1), whole(2)]))]);
    let segments = vec![PathSegment::Field("arr".into()), PathSegment::Index(10)];

    let result = execute_path(&json, &segments);
    assert!(matches!(result, Err(Error::IndexOutOfBounds(10))));
}

fn items_with_datum() -> QueryValue {
    object(vec![(
        "items",
        array(vec![
            object(vec![("name", text("a")), ("datum", object(vec![("type", text("inline"))]))]),
            object(vec![("name", text("b"))]),
            object(vec![("name", text("c")), ("datum", QueryValue::Null)]),
        ]),
    )])
}

#[test]
fn test_filter_not_null() {
    let json = items_with_datum();

    let filter = FilterExpr {
        field: "datum".to_string(),
        op: FilterOp::Ne,
        value: FilterValue::Null,
    };

    let segments = vec![
        PathSegment::Field("items".into()),
        PathSegment::Filter(filter),
    ];

    let result = execute_path(&json, &segments).unwrap();
    match result {
        QueryValue::Array(arr) => {
            assert_eq!(arr.len(), 1, "Expected 1 item with datum != null");
            if let QueryValue::Object(_) = &arr[0] {
                assert_eq!(arr[0].get("name"), Some(&text("a")));
            } else {
                panic!("Expected object");
            }
        }
        _ => panic!("Expected array"),
    }
}

#[test]
fn test_filter_is_null() {
    let json = items_with_datum();

    let filter = FilterExpr {
        field: "datum".to_string(),
        op: FilterOp::Eq,
        value: FilterValue::Null,
    };

    let segments = vec![
        PathSegment::Field("items".into()),
        PathSegment::Filter(filter),
    ];

    let result = execute_path(&json, &segments).unwrap();
    match result {
        QueryValue::Array(arr) => {
            assert_eq!(arr.len(), 2, "Expected 2 items with datum == null");
            assert_eq!(arr[0].get("name"), Some(&text("b")));
            assert_eq!(arr[1].get("name"), Some(&text("c")));
        }
        _ => panic!("Expected array"),
    }
}

#[test]
fn test_filter_integration_parsed() {
    let json = object(vec![(
        "outputs",
        array(vec![
            object(vec![("address", text("addr1")), ("datum", object(vec![("type", text("inline"))]))]),
            object(vec![("address", text("addr2"))]),
            object(vec![("address", text("addr3"))]),
        ]),
    )]);

    let path = parse("outputs[datum != null]");

    println!("Segments: {:?}", path.segments);
    println!("Has wildcard: {}", path.has_wildcard());
    println!("Has filter: {}", path.has_filter());

    let result = execute_path(&json, &path.segments).unwrap();
    println!("Result: {:?}", result);

    match result {
        QueryValue::Array(arr) => {
            println!("Array length: {}", arr.len());
            assert_eq!(arr.len(), 1, "Expected 1 item with datum != null");
        }
        _ => panic!("Expected array"),
    }
}

fn outputs_x() -> QueryValue {
    object(vec![(
        "body",
        object(vec![(
            "outputs",
            array(vec![
                object(vec![("x", whole(1))]),
                object(vec![("x", whole(2))]),
                object(vec![("x", whole(3))]),
            ]),
        )]),
    )])
}

#[test]
fn fee_shortcut_gives_a_single_number() {
    let tree = object(vec![("body", object(vec![("fee", whole(200000))]))]);
    match query(&tree, "fee").unwrap() {
        QueryResult::Single(v) => assert_eq!(v, whole(200000)),
        other => panic!("Expected Single, got {:?}", other),
    }
}

#[test]
fn wildcard_gives_every_address_in_order() {
    let tree = object(vec![(
        "body",
        object(vec![(
            "outputs",
            array(vec![
                object(vec![("address", text("a1"))]),
                object(vec![("address", text("a2"))]),
            ]),
        )]),
    )]);
    match query(&tree, "outputs.*.address").unwrap() {
        QueryResult::Multiple(v) => assert_eq!(v, vec![text("a1"), text("a2")]),
        other => panic!("Expected Multiple, got {:?}", other),
    }
}

#[test]
fn trailing_filter_gives_a_single_array() {
    match query(&outputs_x(), "outputs[x > 1]").unwrap() {
        QueryResult::Single(v) => assert_eq!(
            v,
            array(vec![object(vec![("x", whole(2))]), object(vec![("x", whole(3))])])
        ),
        other => panic!("Expected Single, got {:?}", other),
    }
}

#[test]
fn filter_with_continuation_gives_many() {
    match query(&outputs_x(), "outputs[x > 1].x").unwrap() {
        QueryResult::Multiple(v) => assert_eq!(v, vec![whole(2), whole(3)]),
        other => panic!("Expected Multiple, got {:?}", other),
    }
}

#[test]
fn consecutive_dots_are_an_invalid_query() {
    assert!(matches!(query(&outputs_x(), "a..b"), Err(Error::InvalidQuery(_))));
}

#[test]
fn index_past_the_end_is_out_of_bounds() {
    let tree = object(vec![("body", object(vec![("outputs", array(vec![whole(1), whole(2)]))]))]);
    assert!(matches!(query(&tree, "outputs.99"), Err(Error::IndexOutOfBounds(99))));
}

#[test]
fn empty_query_gives_the_full_tree() {
    let tree = outputs_x();
    match query(&tree, "").unwrap() {
        QueryResult::FullTransaction(v) => assert_eq!(v, tree),
        other => panic!("Expected FullTransaction, got {:?}", other),
    }
}

#[test]
fn hash_shortcut_gives_the_hash_in_hex() {
    match query(&outputs_x(), "hash").unwrap() {
        QueryResult::Single(v) => assert_eq!(v, text("dead01f0")),
        other => panic!("Expected Single, got {:?}", other),
    }
    let tree = object(vec![("__hash__", object(vec![("x", whole(1))]))]);
    match query(&tree, "hash.x").unwrap() {
        QueryResult::Single(v) => assert_eq!(v, whole(1)),
        other => panic!("Expected Single, got {:?}", other),
    }
}

#[test]
fn errors_name_what_is_missing() {
    let tree = outputs_x();
    match query(&tree, "body.nope.x") {
        Err(Error::FieldNotFound(name)) => assert_eq!(name, "nope"),
        other => panic!("{:?}", other),
    }
    match query(&tree, "outputs.*.y") {
        Err(Error::FieldNotFound(name)) => assert_eq!(name, "y"),
        other => panic!("{:?}", other),
    }
    assert!(matches!(query(&tree, "body.*"), Err(Error::InvalidQuery(_))));
    assert!(matches!(query(&tree, "body[x > 1]"), Err(Error::InvalidQuery(_))));
    assert!(matches!(query(&tree, "body[x > 1].y"), Err(Error::InvalidQuery(_))));
    assert!(matches!(query(&tree, "body.0"), Err(Error::IndexOutOfBounds(0))));
    assert!(matches!(query(&tree, "outputs.x"), Err(Error::FieldNotFound(_))));
    let wildcard = vec![PathSegment::Field("body".into()), PathSegment::Wildcard];
    assert!(matches!(execute_path(&tree, &wildcard), Err(Error::InvalidQuery(_))));
}

#[test]
fn fan_out_flattens_in_order() {
    let tree = object(vec![(
        "rows",
        array(vec![
            object(vec![("k", whole(1)), ("cells", array(vec![whole(10), whole(11)]))]),
            object(vec![("k", whole(2)), ("cells", array(vec![]))]),
            object(vec![("k", whole(3)), ("cells", array(vec![whole(30)]))]),
        ]),
    )]);
    let all = execute_path_recursive(&tree, &parse("rows.*.cells.*").segments).unwrap();
    assert_eq!(all, vec![whole(10), whole(11), whole(30)]);
    let some = execute_path_recursive(&tree, &parse("rows[k >= 2].cells.*").segments).unwrap();
    assert_eq!(some, vec![whole(30)]);
    let none = execute_path_recursive(&tree, &parse("rows[k > 5].missing").segments).unwrap();
    assert_eq!(none, Vec::<QueryValue>::new());
    let root = execute_path_recursive(&tree, &[]).unwrap();
    assert_eq!(root, vec![tree.clone()]);
    let filtered = execute_path_recursive(&tree, &parse("rows[k < 2]").segments).unwrap();
    assert_eq!(filtered.len(), 1);
    assert_eq!(filtered[0].get("k"), Some(&whole(1)));
}

fn passes(candidate: &QueryValue, filter: &str) -> bool {
    let q = format!("[{}]", filter);
    match parse(&q).segments.into_iter().next() {
        Some(PathSegment::Filter(f)) => evaluate_filter(candidate, &f),
        _ => panic!("Expected Filter segment"),
    }
}

#[test]
fn numeric_filters_compare_as_doubles() {
    let c = object(vec![
        ("n", whole(5)),
        ("neg", QueryValue::Number(Number::NegInt(-3))),
        ("r", fraction(2.5)),
        ("s", text("5")),
        ("big", whole(9007199254740993)),
        ("deep", object(vec![("er", object(vec![("v", whole(7))]))])),
    ]);
    assert!(passes(&c, "n > 4") && !passes(&c, "n > 5") && passes(&c, "n >= 5"));
    assert!(passes(&c, "n < 5.5") && !passes(&c, "n < 5") && passes(&c, "n <= 5"));
    assert!(passes(&c, "n == 5") && !passes(&c, "n != 5") && passes(&c, "n != 6"));
    assert!(passes(&c, "n == 5.0000000000000001") && !passes(&c, "n == 5.000000000000001"));
    assert!(passes(&c, "neg < 0") && passes(&c, "neg == -3") && passes(&c, "neg >= -3"));
    assert!(passes(&c, "r > 2") && passes(&c, "r == 2.5") && passes(&c, "r < 1e9"));
    assert!(passes(&c, "big == 9007199254740992") && !passes(&c, "big > 9007199254740992"));
    assert!(passes(&c, "deep.er.v == 7") && !passes(&c, "deep.v == 7"));
    assert!(!passes(&c, "s > 4") && !passes(&c, "s == 5") && !passes(&c, "missing > 0"));
    assert!(!passes(&c, "missing != 0") && !passes(&c, "n ~ 5"));
    assert!(!passes(&c, "n > nan") && !passes(&c, "n == nan") && !passes(&c, "n != nan"));
    assert!(passes(&c, "n < inf") && passes(&c, "n != inf") && passes(&c, "n > -inf"));
}

#[test]
fn string_and_null_filters() {
    let c = object(vec![
        ("s", text("addr1xyz")),
        ("z", QueryValue::Null),
        ("n", whole(5)),
        ("b", QueryValue::Bool(true)),
    ]);
    assert!(passes(&c, "s == addr1xyz") && passes(&c, "s == 'addr1xyz'") && !passes(&c, "s == addr"));
    assert!(passes(&c, "s != addr") && !passes(&c, "s != addr1xyz") && !passes(&c, "n != addr"));
    assert!(passes(&c, "s ~ 1x") && passes(&c, "s ~ ''") && !passes(&c, "s ~ zz") && !passes(&c, "n ~ '5'"));
    assert!(!passes(&c, "s > abc") && !passes(&c, "missing == abc") && !passes(&c, "missing != abc"));
    assert!(passes(&c, "z == null") && passes(&c, "missing == null") && passes(&c, "n.x == null"));
    assert!(!passes(&c, "s == null") && !passes(&c, "b == null"));
    assert!(passes(&c, "s != null") && passes(&c, "b != null") && passes(&c, "n != null"));
    assert!(!passes(&c, "z != null") && !passes(&c, "missing != null"));
    assert!(!passes(&c, "z > null") && !passes(&c, "z ~ null") && !passes(&c, "z >= null"));
}

#[test]
fn nested_fields_are_looked_up_member_by_member() {
    let c = object(vec![
        ("a", object(vec![("b", whole(1)), ("", whole(2))])),
        ("a.b", whole(3)),
        ("dup", whole(4)),
        ("dup", whole(5)),
    ]);
    assert_eq!(get_nested_field(&c, "a.b"), Some(&whole(1)));
    assert_eq!(get_nested_field(&c, "a."), Some(&whole(2)));
    assert_eq!(get_nested_field(&c, "a"), c.get("a"));
    assert_eq!(get_nested_field(&c, "a.b.c"), None);
    assert_eq!(get_nested_field(&c, "x.b"), None);
    assert_eq!(get_nested_field(&c, ""), None);
    assert_eq!(get_nested_field(&c, "dup"), Some(&whole(4)));
    assert_eq!(array(vec![whole(9)]).at(0), Some(&whole(9)));
    assert_eq!(array(vec![whole(9)]).at(1), None);
    assert_eq!(c.at(0), None);
    assert_eq!(whole(1).get("a"), None);
}
