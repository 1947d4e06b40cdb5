use cq::cli::InputSpec;
use cq::error::Error;
use cq::input::{detect_and_decode_stdin, InputSource};

fn from_spec(spec: &InputSpec) -> Result<InputSource, Error> {
    let exists = match spec {
        InputSpec::File(path) => std::path::Path::new(path).exists(),
        _ => false,
    };
    InputSource::from_spec(spec, false, exists)
}

#[test]
fn test_hex_input() {
    let spec = InputSpec::Hex("84a400".to_string());
    let source = from_spec(&spec).unwrap();
    match source {
        InputSource::Bytes(b) => assert_eq!(b, vec![0x84, 0xa4, 0x00]),
        _ => panic!("Expected Bytes"),
    }
}

#[test]
fn test_invalid_hex() {
    let spec = InputSpec::Hex("not_hex".to_string());
    assert!(from_spec(&spec).is_err());
}

#[test]
fn detect_test_file_not_found() {
    let spec = InputSpec::File("/nonexistent/file.cbor".to_string());
    let result = from_spec(&spec);
    assert!(matches!(result, Err(Error::FileNotFound(_))));
}

#[test]
fn test_detect_hex_stdin() {
    let input = b"84a400".to_vec();
    let result = detect_and_decode_stdin(input).unwrap();
    assert_eq!(result, vec![0x84, 0xa4, 0x00]);
}

#[test]
fn test_detect_hex_stdin_with_prefix() {
    let input = b"0x84a400".to_vec();
    let result = detect_and_decode_stdin(input).unwrap();
    assert_eq!(result, vec![0x84, 0xa4, 0x00]);
}

#[test]
fn test_detect_hex_stdin_with_whitespace() {
    let input = b"  84a400  \n".to_vec();
    let result = detect_and_decode_stdin(input).unwrap();
    assert_eq!(result, vec![0x84, 0xa4, 0x00]);
}

#[test]
fn test_detect_binary_stdin() {
    let input = vec![0x84, 0xa4, 0x00, 0xff];
    let result = detect_and_decode_stdin(input.clone()).unwrap();
    assert_eq!(result, input);
}

#[test]
fn test_empty_stdin() {
    let input = b"   ".to_vec();
    let result = detect_and_decode_stdin(input);
    assert!(matches!(result, Err(Error::NoInput)));
}

#[test]
fn piped_text_is_hex_or_itself() {
    assert_eq!(detect_and_decode_stdin(b"84A4ff".to_vec()).unwrap(), vec![0x84, 0xa4, 0xff]);
    assert_eq!(detect_and_decode_stdin(b"84a".to_vec()).unwrap(), b"84a".to_vec());
    assert_eq!(detect_and_decode_stdin(b"0x84".to_vec()).unwrap(), b"0x84".to_vec());
    assert_eq!(detect_and_decode_stdin(b"0x".to_vec()).unwrap(), b"0x".to_vec());
    assert_eq!(detect_and_decode_stdin(b"hello".to_vec()).unwrap(), b"hello".to_vec());
    assert_eq!(detect_and_decode_stdin(b"84 a4".to_vec()).unwrap(), b"84 a4".to_vec());
    assert!(matches!(detect_and_decode_stdin(b"84a40".to_vec()), Err(Error::InvalidHex(_))));
    assert!(matches!(detect_and_decode_stdin(Vec::new()), Err(Error::NoInput)));
    assert!(matches!(detect_and_decode_stdin(b"\n\t ".to_vec()), Err(Error::NoInput)));
}

#[test]
fn sources_are_resolved() {
    assert!(matches!(InputSource::from_spec(&InputSpec::Stdin, true, false), Err(Error::NoInput)));
    assert!(matches!(InputSource::from_spec(&InputSpec::Stdin, false, false), Ok(InputSource::Stdin)));
    match InputSource::from_spec(&InputSpec::File("a.cbor".to_string()), false, true) {
        Ok(InputSource::File(p)) => assert_eq!(p, "a.cbor"),
        other => panic!("{:?}", other),
    }
    match InputSource::from_spec(&InputSpec::File("a.cbor".to_string()), false, false) {
        Err(Error::FileNotFound(p)) => assert_eq!(p, "a.cbor"),
        other => panic!("{:?}", other),
    }
    assert!(matches!(
        InputSource::from_spec(&InputSpec::Hex("84a".to_string()), false, false),
        Err(Error::InvalidHex(_))
    ));
    match InputSource::from_spec(&InputSpec::Hex("00fF10".to_string()), false, false) {
        Ok(InputSource::Bytes(b)) => assert_eq!(b, vec![0x00, 0xff, 0x10]),
        other => panic!("{:?}", other),
    }
}
