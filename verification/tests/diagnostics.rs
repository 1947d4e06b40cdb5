use cq::diagnostic::{cbor_value_to_diagnostic, CborValue};

fn plain(value: &ciborium::Value) -> CborValue {
    match value {
        ciborium::Value::Integer(n) => {
            let i: i128 = (*n).into();
            CborValue::Integer(i)
        }
        ciborium::Value::Bytes(b) => CborValue::Bytes(b.clone()),
        ciborium::Value::Text(s) => CborValue::Text(s.clone()),
        ciborium::Value::Array(items) => CborValue::Array(items.iter().map(plain).collect()),
        ciborium::Value::Map(entries) => {
            CborValue::Entries(entries.iter().map(|(k, v)| (plain(k), plain(v))).collect())
        }
        ciborium::Value::Tag(tag, inner) => CborValue::Tag(*tag, Box::new(plain(inner))),
        ciborium::Value::Bool(b) => CborValue::Bool(*b),
        ciborium::Value::Null => CborValue::Null,
        ciborium::Value::Float(f) => CborValue::Float(format!("{}", f)),
        _ => CborValue::Other,
    }
}

fn bytes_to_diagnostic(bytes: &[u8]) -> Result<String, String> {
    let value: ciborium::Value = ciborium::from_reader(bytes).map_err(|e| e.to_string())?;
    Ok(cbor_value_to_diagnostic(&plain(&value)))
}

#[test]
fn test_cbor_diagnostic() {
    // Simple CBOR integer
    let cbor = vec![0x18, 0x64]; // Integer 100
    let output = bytes_to_diagnostic(&cbor).unwrap();
    assert_eq!(output, "100");
}

#[test]
fn test_cbor_diagnostic_array() {
    // CBOR array [1, 2, 3]
    let cbor = vec![0x83, 0x01, 0x02, 0x03];
    let output = bytes_to_diagnostic(&cbor).unwrap();
    assert_eq!(output, "[1, 2, 3]");
}

#[test]
fn every_kind_of_value_has_its_notation() {
    assert_eq!(cbor_value_to_diagnostic(&CborValue::Integer(0)), "0");
    assert_eq!(cbor_value_to_diagnostic(&CborValue::Integer(-1)), "-1");
    assert_eq!(
        cbor_value_to_diagnostic(&CborValue::Integer(-18446744073709551616)),
        "-18446744073709551616"
    );
    assert_eq!(cbor_value_to_diagnostic(&CborValue::Bytes(vec![0x01, 0xff])), "h'01ff'");
    assert_eq!(cbor_value_to_diagnostic(&CborValue::Bytes(vec![])), "h''");
    assert_eq!(cbor_value_to_diagnostic(&CborValue::Text("a \"b\"".into())), "\"a \"b\"\"");
    assert_eq!(cbor_value_to_diagnostic(&CborValue::Array(vec![])), "[]");
    assert_eq!(cbor_value_to_diagnostic(&CborValue::Array(vec![CborValue::Null])), "[null]");
    assert_eq!(cbor_value_to_diagnostic(&CborValue::Entries(vec![])), "{}");
    assert_eq!(
        cbor_value_to_diagnostic(&CborValue::Entries(vec![
            (CborValue::Integer(1), CborValue::Text("a".into())),
            (CborValue::Text("k".into()), CborValue::Array(vec![CborValue::Bool(true), CborValue::Bool(false)])),
        ])),
        "{1: \"a\", \"k\": [true, false]}"
    );
    assert_eq!(
        cbor_value_to_diagnostic(&CborValue::Tag(121, Box::new(CborValue::Array(vec![CborValue::Integer(7)])))),
        "121([7])"
    );
    assert_eq!(cbor_value_to_diagnostic(&CborValue::Float("1.5".into())), "1.5");
    assert_eq!(cbor_value_to_diagnostic(&CborValue::Other), "?");
    assert_eq!(bytes_to_diagnostic(&[0xa1, 0x61, 0x61, 0x42, 0x01, 0x02]).unwrap(), "{\"a\": h'0102'}");
    assert_eq!(bytes_to_diagnostic(&[0xd8, 0x79, 0x80]).unwrap(), "121([])");
    assert_eq!(bytes_to_diagnostic(&[0xfb, 0x3f, 0xf8, 0, 0, 0, 0, 0, 0]).unwrap(), "1.5");
    assert_eq!(bytes_to_diagnostic(&[0xf6]).unwrap(), "null");
    assert_eq!(bytes_to_diagnostic(&[0x3b, 0xff, 0xff, 0xff, 0xff, 0xff, 0xff, 0xff, 0xff]).unwrap(), "-18446744073709551616");
    assert!(bytes_to_diagnostic(&[0x83, 0x01]).is_err());
}
