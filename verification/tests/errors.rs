use cq::error::Error;

#[test]
fn test_exit_codes() {
    assert_eq!(Error::NoInput.exit_code(), 3);
    assert_eq!(Error::DecodeFailed("test".into()).exit_code(), 1);
    assert_eq!(Error::InvalidQuery("test".into()).exit_code(), 4);
}

#[test]
fn test_error_display() {
    let err = Error::FieldNotFound("fee".into());
    assert_eq!(err.message(), "Field not found: 'fee'");
}

#[test]
fn every_error_has_its_code_and_its_words() {
    let odd = hex::decode("abc").unwrap_err();
    let cases: Vec<(Error, i32, String)> = vec![
        (Error::NoInput, 3, "No input provided. Use: cq <file>, cq <hex>, or pipe CBOR to stdin".into()),
        (Error::FileNotFound("a.cbor".into()), 3, "File not found: a.cbor".into()),
        (
            Error::IoError { path: Some("a.cbor".into()), message: "denied".into() },
            3,
            "IO error reading a.cbor: denied".into(),
        ),
        (Error::IoError { path: None, message: "closed".into() }, 3, "IO error: closed".into()),
        (Error::InvalidHex(odd), 2, format!("Invalid hex input: {}", odd)),
        (Error::DecodeFailed("bad".into()), 1, "Failed to decode transaction: bad".into()),
        (Error::InvalidQuery("why".into()), 4, "Invalid query: why".into()),
        (Error::FieldNotFound("x".into()), 4, "Field not found: 'x'".into()),
        (Error::IndexOutOfBounds(99), 4, "Index 99 out of bounds".into()),
        (Error::IndexOutOfBounds(0), 4, "Index 0 out of bounds".into()),
        (Error::FormatError("f".into()), 5, "Format error: f".into()),
        (
            Error::UnsupportedEra,
            1,
            "Unsupported era: only Babbage and Conway transactions are supported".into(),
        ),
        (Error::NetworkError("down".into()), 6, "Network error: down".into()),
    ];
    for (error, code, words) in cases {
        assert_eq!(error.exit_code(), code);
        assert_eq!(error.message(), words);
    }
    match Error::invalid_query("reason") {
        Error::InvalidQuery(r) => assert_eq!(r, "reason"),
        other => panic!("{:?}", other),
    }
}
