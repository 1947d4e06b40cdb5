use cq::cli::{Args, InputSpec};

#[test]
fn test_looks_like_query_shortcuts() {
    assert!(Args::looks_like_query("fee"));
    assert!(Args::looks_like_query("inputs"));
    assert!(Args::looks_like_query("outputs"));
    assert!(Args::looks_like_query("hash"));
}

#[test]
fn test_looks_like_query_dot_notation() {
    assert!(Args::looks_like_query("body.fee"));
    assert!(Args::looks_like_query("outputs.0.address"));
    assert!(Args::looks_like_query("outputs.*.value"));
}

#[test]
fn test_looks_like_query_file_paths() {
    assert!(!Args::looks_like_query("tx.cbor"));
    assert!(!Args::looks_like_query("/path/to/file.cbor"));
    assert!(!Args::looks_like_query("transaction.bin"));
}

#[test]
fn test_input_spec_detect_hex() {
    match InputSpec::detect("84a4000081") {
        InputSpec::Hex(s) => assert_eq!(s, "84a4000081"),
        _ => panic!("Expected Hex"),
    }
}

#[test]
fn test_input_spec_detect_hex_with_prefix() {
    match InputSpec::detect("0x84a400abc123") {
        InputSpec::Hex(s) => assert_eq!(s, "84a400abc123"),
        _ => panic!("Expected Hex"),
    }
}

#[test]
fn test_input_spec_detect_file() {
    match InputSpec::detect("tx.cbor") {
        InputSpec::File(p) => assert_eq!(std::path::PathBuf::from(p), std::path::PathBuf::from("tx.cbor")),
        _ => panic!("Expected File"),
    }
}

#[test]
fn more_queries_and_inputs() {
    assert!(Args::looks_like_query("collateral"));
    assert!(Args::looks_like_query("body"));
    assert!(Args::looks_like_query("auxiliary_data"));
    assert!(Args::looks_like_query("witness_set"));
    assert!(Args::looks_like_query("*"));
    assert!(!Args::looks_like_query("required_signers"));
    assert!(!Args::looks_like_query("body.json"));
    assert!(!Args::looks_like_query("a.tx"));
    assert!(!Args::looks_like_query("84a400"));
    assert!(!Args::looks_like_query(""));
    assert!(!Args::looks_like_query("bod"));
    for (text, hex) in [
        ("84a40000", Some("84a40000")),
        ("84A4ffFF", Some("84A4ffFF")),
        ("84a4000", None),
        ("85a40000", None),
        ("84a4000g", None),
        ("0x84a40000", Some("84a40000")),
        ("0X84a40000", None),
        ("0x0x84a40000", None),
        ("", None),
        ("0x", None),
        ("84a4000\u{e9}", None),
    ] {
        match (InputSpec::detect(text), hex) {
            (InputSpec::Hex(s), Some(h)) => assert_eq!(s, h),
            (InputSpec::File(p), None) => assert_eq!(p, text),
            (got, _) => panic!("{:?} gave {:?}", text, got),
        }
    }
}

fn args(first: Option<&str>, second: Option<&str>) -> Args {
    Args {
        command: None,
        first: first.map(String::from),
        second: second.map(String::from),
        json: false,
        raw: false,
        ada: false,
        check: false,
        no_color: true,
    }
}

#[test]
fn positional_arguments_are_resolved() {
    let a = args(None, None);
    assert!(matches!(a.resolve(), (None, InputSpec::Stdin)));
    let a = args(Some("fee"), None);
    assert!(matches!(a.resolve(), (Some("fee"), InputSpec::Stdin)));
    let a = args(Some("tx.cbor"), None);
    match a.resolve() {
        (None, InputSpec::File(p)) => assert_eq!(p, "tx.cbor"),
        other => panic!("{:?}", other),
    }
    let a = args(Some("84a4000081"), None);
    match a.resolve() {
        (None, InputSpec::Hex(h)) => assert_eq!(h, "84a4000081"),
        other => panic!("{:?}", other),
    }
    let a = args(Some("tx.cbor"), Some("0x84a4000081"));
    match a.resolve() {
        (Some("tx.cbor"), InputSpec::Hex(h)) => assert_eq!(h, "84a4000081"),
        other => panic!("{:?}", other),
    }
}
