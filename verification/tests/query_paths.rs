use cq::error::Error;
use cq::path::{FilterOp, FilterValue, NumberLiteral, PathSegment, QueryPath};

fn parse(query: &str) -> Result<QueryPath, Error> {
    QueryPath::parse(query)
}

fn number(x: f64, text: &str) -> FilterValue {
    FilterValue::Number(NumberLiteral { text: text.to_string(), bits: x.to_bits() })
}

#[test]
fn test_parse_simple_path() {
    let path = parse("body.fee").unwrap();
    assert_eq!(path.segments.len(), 2);
    assert_eq!(path.segments[0], PathSegment::Field("body".into()));
    assert_eq!(path.segments[1], PathSegment::Field("fee".into()));
}

#[test]
fn test_parse_with_index() {
    let path = parse("outputs.0.address").unwrap();
    assert_eq!(path.segments.len(), 3);
    assert_eq!(path.segments[0], PathSegment::Field("outputs".into()));
    assert_eq!(path.segments[1], PathSegment::Index(0));
    assert_eq!(path.segments[2], PathSegment::Field("address".into()));
}

#[test]
fn test_parse_with_wildcard() {
    let path = parse("outputs.*.address").unwrap();
    assert_eq!(path.segments.len(), 3);
    assert_eq!(path.segments[0], PathSegment::Field("outputs".into()));
    assert_eq!(path.segments[1], PathSegment::Wildcard);
    assert_eq!(path.segments[2], PathSegment::Field("address".into()));
    assert!(path.has_wildcard());
}

#[test]
fn test_parse_single_field() {
    let path = parse("fee").unwrap();
    assert_eq!(path.segments.len(), 1);
    assert_eq!(path.segments[0], PathSegment::Field("fee".into()));
}

#[test]
fn test_parse_empty() {
    let path = parse("").unwrap();
    assert!(path.is_empty());
}

#[test]
fn test_parse_consecutive_dots_error() {
    let result = parse("body..fee");
    assert!(result.is_err());
}

#[test]
fn test_has_wildcard() {
    assert!(!parse("body.fee").unwrap().has_wildcard());
    assert!(parse("outputs.*").unwrap().has_wildcard());
}

#[test]
fn test_parse_filter_gt() {
    let path = parse("outputs[value.coin > 1000000]").unwrap();
    assert_eq!(path.segments.len(), 2);
    assert_eq!(path.segments[0], PathSegment::Field("outputs".into()));
    if let PathSegment::Filter(f) = &path.segments[1] {
        assert_eq!(f.field, "value.coin");
        assert_eq!(f.op, FilterOp::Gt);
        assert_eq!(f.value, number(1000000.0, "1000000"));
    } else {
        panic!("Expected Filter segment");
    }
    assert!(path.has_filter());
}

#[test]
fn test_parse_filter_contains() {
    let path = parse("outputs[address.address ~ \"addr1\"]").unwrap();
    assert_eq!(path.segments.len(), 2);
    if let PathSegment::Filter(f) = &path.segments[1] {
        assert_eq!(f.field, "address.address");
        assert_eq!(f.op, FilterOp::Contains);
        assert_eq!(f.value, FilterValue::String("addr1".into()));
    } else {
        panic!("Expected Filter segment");
    }
}

#[test]
fn test_parse_filter_not_null() {
    let path = parse("outputs[datum != null]").unwrap();
    if let PathSegment::Filter(f) = &path.segments[1] {
        assert_eq!(f.field, "datum");
        assert_eq!(f.op, FilterOp::Ne);
        assert_eq!(f.value, FilterValue::Null);
    } else {
        panic!("Expected Filter segment");
    }
}

#[test]
fn test_parse_filter_with_continuation() {
    let path = parse("outputs[value.coin > 1000000].address").unwrap();
    assert_eq!(path.segments.len(), 3);
    assert_eq!(path.segments[0], PathSegment::Field("outputs".into()));
    assert!(matches!(path.segments[1], PathSegment::Filter(_)));
    assert_eq!(path.segments[2], PathSegment::Field("address".into()));
}

fn filter_of(query: &str) -> (String, FilterOp, FilterValue) {
    let path = parse(query).unwrap();
    match path.segments.into_iter().last() {
        Some(PathSegment::Filter(f)) => (f.field, f.op, f.value),
        other => panic!("Expected Filter segment, got {:?}", other),
    }
}

#[test]
fn operators_are_told_apart() {
    assert_eq!(filter_of("a[x >= 1]").1, FilterOp::Gte);
    assert_eq!(filter_of("a[x <= 1]").1, FilterOp::Lte);
    assert_eq!(filter_of("a[x != 1]").1, FilterOp::Ne);
    assert_eq!(filter_of("a[x == 1]").1, FilterOp::Eq);
    assert_eq!(filter_of("a[x > 1]").1, FilterOp::Gt);
    assert_eq!(filter_of("a[x < 1]").1, FilterOp::Lt);
    assert_eq!(filter_of("a[x ~ y]").1, FilterOp::Contains);
}

#[test]
fn two_character_operators_come_first() {
    let (field, op, value) = filter_of("a[x < y >= 3]");
    assert_eq!(field, "x < y");
    assert_eq!(op, FilterOp::Gte);
    assert_eq!(value, number(3.0, "3"));
    let (field, op, value) = filter_of("a[x>=y>z]");
    assert_eq!(field, "x");
    assert_eq!(op, FilterOp::Gte);
    assert_eq!(value, FilterValue::String("y>z".into()));
}

#[test]
fn filter_values_are_classified() {
    assert_eq!(filter_of("a[x == null]").2, FilterValue::Null);
    assert_eq!(filter_of("a[x == 'null']").2, FilterValue::String("null".into()));
    assert_eq!(filter_of("a[x == \"it's\"]").2, FilterValue::String("it's".into()));
    assert_eq!(filter_of("a[x == ' padded ']").2, FilterValue::String(" padded ".into()));
    assert_eq!(filter_of("a[x == addr1]").2, FilterValue::String("addr1".into()));
    assert_eq!(filter_of("a[x == 1.5e3]").2, number(1500.0, "1.5e3"));
    assert_eq!(filter_of("a[x == -2]").2, number(-2.0, "-2"));
    assert_eq!(filter_of("a[x ==]").2, FilterValue::String("".into()));
    assert_eq!(filter_of("a[x == \"]").2, FilterValue::String("\"".into()));
    assert_eq!(filter_of("a[x == '5']").2, FilterValue::String("5".into()));
}

#[test]
fn numbers_are_read_as_doubles() {
    for token in ["5", "-2", "+7", "1.5e3", "1E-2", ".5", "5.", "inf", "-Infinity", "1e400", "0.1", "007"] {
        let expected = token.parse::<f64>().unwrap();
        assert_eq!(filter_of(&format!("a[x > {}]", token)).2, number(expected, token), "{}", token);
    }
    match filter_of("a[x == nan]").2 {
        FilterValue::Number(n) => {
            assert_eq!(n.text, "nan");
            assert!(f64::from_bits(n.bits).is_nan());
        }
        other => panic!("{:?}", other),
    }
    for token in ["5x", "1e", "e5", ".", "1_000", "0x10", "--1", "addr1", "1 2", "infinit"] {
        assert_eq!(
            filter_of(&format!("a[x == {}]", token)).2,
            FilterValue::String(token.into()),
            "{}",
            token
        );
    }
    assert_eq!(filter_of("a[x == '5']").2, FilterValue::String("5".into()));
    assert_eq!(filter_of("a[x ==   12.50  ]").2, number(12.5, "12.50"));
}

#[test]
fn malformed_queries_are_refused() {
    for query in ["a..b", ".a", "a[x > 1", "a[]", "a[ ]", "a[x]", "a[> 1]", "a[ == 1]", "a..b[x > 1]", "a[x > 1]..b", "."] {
        match parse(query) {
            Err(Error::InvalidQuery(_)) => {}
            other => panic!("{:?} gave {:?}", query, other),
        }
    }
}

#[test]
fn trailing_dots_and_plain_segments() {
    assert_eq!(parse("foo.").unwrap().segments, vec![PathSegment::Field("foo".into())]);
    assert_eq!(parse("a.[x > 1]").unwrap().segments.len(), 2);
    assert_eq!(parse("a[x > 1].").unwrap().segments.len(), 2);
    assert_eq!(parse("a[x > 1]b").unwrap().segments[2], PathSegment::Field("b".into()));
    assert_eq!(parse("[x > 1][y > 2]").unwrap().segments.len(), 2);
    assert_eq!(parse("a]b[x > 1]").unwrap().segments[0], PathSegment::Field("a]b".into()));
}

#[test]
fn indices_are_read_as_the_machine_word_allows() {
    assert_eq!(parse("007").unwrap().segments, vec![PathSegment::Index(7)]);
    assert_eq!(parse("+5").unwrap().segments, vec![PathSegment::Index(5)]);
    assert_eq!(parse("-5").unwrap().segments, vec![PathSegment::Field("-5".into())]);
    assert_eq!(parse("+").unwrap().segments, vec![PathSegment::Field("+".into())]);
    assert_eq!(parse("1_0").unwrap().segments, vec![PathSegment::Field("1_0".into())]);
    assert_eq!(
        parse("18446744073709551615").unwrap().segments,
        vec![PathSegment::Index(usize::MAX)]
    );
    assert_eq!(
        parse("18446744073709551616").unwrap().segments,
        vec![PathSegment::Field("18446744073709551616".into())]
    );
    assert_eq!(parse("**").unwrap().segments, vec![PathSegment::Field("**".into())]);
    for text in ["0", "9", "10", "+0012", "4294967296", "99999999999999999999", "1a", ""] {
        let expected = match text.parse::<usize>() {
            Ok(i) => vec![PathSegment::Index(i)],
            Err(_) if text.is_empty() => vec![],
            Err(_) => vec![PathSegment::Field(text.into())],
        };
        assert_eq!(parse(text).unwrap().segments, expected);
    }
}

#[test]
fn mode_selection() {
    let plain = parse("a.0.b").unwrap();
    assert!(!plain.has_wildcard() && !plain.has_filter() && !plain.has_filter_with_continuation());
    let trailing = parse("a[x > 1]").unwrap();
    assert!(trailing.has_filter() && !trailing.has_filter_with_continuation());
    let inner = parse("a[x > 1].b").unwrap();
    assert!(inner.has_filter() && inner.has_filter_with_continuation());
    let two = parse("a[x > 1][y > 1]").unwrap();
    assert!(two.has_filter_with_continuation());
    assert!(!parse("").unwrap().has_filter_with_continuation());
}

#[test]
fn white_space_is_what_std_trims() {
    for code in 0..=0x10ffffu32 {
        if let Some(c) = char::from_u32(code) {
            assert_eq!(cq::text::is_space(c), c.is_whitespace(), "U+{:04X}", code);
        }
    }
    assert_eq!(filter_of("a[\u{2003}x\t>\u{a0}1\n]").0, "x");
}

#[test]
fn rendered_paths_are_read_again() {
    let queries = [
        "",
        "fee",
        "body.fee",
        "outputs.0.address",
        "outputs.*.address",
        "007.+5.*",
        "foo.",
        "a]b.c",
        "outputs[value.coin > 1000000]",
        "outputs[value.coin>1000000].address",
        "outputs[ address.address ~ \"addr1\" ]x.y",
        "a[datum != null][x == 'null'].b[y <= -1.5e3]",
        "[x == \"it's\"]",
        "[x == 'say \"hi\"']",
        "[x ==]",
        "[x == \"]",
        "[x < y >= 3].*[k ~ a>b]",
        "a[b[c > 1]",
        "a[x! == 5]",
        "a[x === 5]",
        "a[x >= =]",
        "a[x ~ ~]",
        "a[x < <b]",
        "a.[x > 1].",
        "x[\u{2003}\u{e9}t\u{e9} == caf\u{e9}\u{a0}]",
        "a[n == nan][m > inf][k == 1e400]",
    ];
    for query in queries {
        let path = QueryPath::parse(query).unwrap();
        let text = path.render();
        let again = QueryPath::parse(&text).unwrap();
        assert_eq!(again.segments, path.segments, "{:?} -> {:?}", query, text);
        assert_eq!(again.render(), text);
    }
}

#[test]
fn paths_are_rendered_in_dot_and_bracket_notation() {
    let render = |query: &str| parse(query).unwrap().render();
    assert_eq!(render(""), "");
    assert_eq!(render("body.fee"), "body.fee");
    assert_eq!(render("a.007.+5.*.b."), "a.7.5.*.b");
    assert_eq!(render("outputs[value.coin>1000000].address"), "outputs[value.coin > 1000000].address");
    assert_eq!(render("a[ x ~ 'q' ]b"), "a[x ~ \"q\"].b");
    assert_eq!(render("[x!=null][y==z]"), "[x != null][y == \"z\"]");
    assert_eq!(render("a[x ==]"), "a[x == \"\"]");
    assert_eq!(render("a[x>=1e3]"), "a[x >= 1e3]");
    assert_eq!(render("18446744073709551615"), "18446744073709551615");
}

#[test]
fn shortcuts_parse_like_their_paths() {
    let aliases = [
        ("fee", "body.fee"),
        ("inputs", "body.inputs"),
        ("outputs", "body.outputs"),
        ("metadata", "auxiliary_data.metadata"),
        ("witnesses", "witness_set"),
        ("hash", "__hash__"),
        ("ttl", "body.ttl"),
        ("mint", "body.mint"),
        ("certs", "body.certs"),
        ("withdrawals", "body.withdrawals"),
        ("collateral", "body.collateral_inputs"),
        ("required_signers", "body.required_signers"),
        ("network_id", "body.network_id"),
        ("validity_start", "body.validity_interval_start"),
        ("script_data_hash", "body.script_data_hash"),
        ("collateral_return", "body.collateral_return"),
        ("total_collateral", "body.total_collateral"),
    ];
    for (alias, full) in aliases {
        assert_eq!(cq::shortcuts::shortcut_expansion(alias), Some(full));
        assert_eq!(cq::shortcuts::expand_shortcut(alias), full);
        for suffix in [".0.address", ".*", ".x[y > 1].z", "[y > 1]", "."] {
            let expanded = cq::shortcuts::expand_shortcut(&format!("{}{}", alias, suffix));
            assert_eq!(expanded, format!("{}{}", full, suffix));
            assert_eq!(
                parse(&expanded).unwrap().segments,
                parse(&format!("{}{}", full, suffix)).unwrap().segments
            );
        }
    }
    assert_eq!(cq::shortcuts::shortcut_expansion("Fee"), None);
    assert_eq!(cq::shortcuts::shortcut_expansion(""), None);
    assert_eq!(cq::shortcuts::expand_shortcut("fees.x"), "fees.x");
    assert_eq!(cq::shortcuts::expand_shortcut("x.fee"), "x.fee");
    assert_eq!(cq::shortcuts::expand_shortcut(".fee"), ".fee");
    assert_eq!(cq::shortcuts::expand_shortcut("fee[x].y"), "body.fee[x].y");
}

#[test]
fn segments_filters_and_values_are_read_one_by_one() {
    assert_eq!(QueryPath::parse_segment("*").unwrap(), PathSegment::Wildcard);
    assert_eq!(QueryPath::parse_segment("12").unwrap(), PathSegment::Index(12));
    assert_eq!(QueryPath::parse_segment("a.b").unwrap(), PathSegment::Field("a.b".into()));
    assert!(matches!(QueryPath::parse_segment(""), Err(Error::InvalidQuery(_))));
    let f = QueryPath::parse_filter("  value.coin >= 1e3 ").unwrap();
    assert_eq!(f.field, "value.coin");
    assert_eq!(f.op, FilterOp::Gte);
    assert_eq!(f.value, number(1000.0, "1e3"));
    assert!(matches!(QueryPath::parse_filter("value.coin"), Err(Error::InvalidQuery(_))));
    assert!(matches!(QueryPath::parse_filter(" > 1"), Err(Error::InvalidQuery(_))));
    assert!(matches!(QueryPath::parse_filter(""), Err(Error::InvalidQuery(_))));
    match QueryPath::parse_filter("x") {
        Err(e) => assert_eq!(e.message(), "Invalid query: Invalid filter syntax: 'x'. Expected: field op value"),
        Ok(f) => panic!("{:?}", f),
    }
    assert_eq!(QueryPath::parse_filter_value(" null ").unwrap(), FilterValue::Null);
    assert_eq!(QueryPath::parse_filter_value("1e3").unwrap(), number(1000.0, "1e3"));
    assert_eq!(QueryPath::parse_filter_value("1000x").unwrap(), FilterValue::String("1000x".into()));
    assert_eq!(QueryPath::parse_filter_value("'1e3'").unwrap(), FilterValue::String("1e3".into()));
    assert_eq!(QueryPath::parse_filter_value("\"a'").unwrap(), FilterValue::String("\"a'".into()));
}
