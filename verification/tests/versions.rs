use cq::update::is_newer;

#[test]
fn test_is_newer() {
    assert!(is_newer("0.3.0", "0.2.0"));
    assert!(is_newer("0.2.1", "0.2.0"));
    assert!(is_newer("1.0.0", "0.9.9"));
    assert!(!is_newer("0.2.0", "0.2.0"));
    assert!(!is_newer("0.1.0", "0.2.0"));
}

#[test]
fn versions_need_three_numbers() {
    assert!(is_newer("1.2.3.4", "1.2.2"));
    assert!(is_newer("+1.0.0", "0.0.1"));
    assert!(is_newer("0.10.0", "0.9.0"));
    assert!(is_newer("4294967295.0.0", "4294967294.9.9"));
    assert!(!is_newer("4294967296.0.0", "1.0.0"));
    assert!(!is_newer("1.0", "0.0.1"));
    assert!(!is_newer("1.0.x", "0.0.1"));
    assert!(!is_newer("1.0.0", "0.0"));
    assert!(!is_newer("1.0.0-beta", "0.0.1"));
    assert!(!is_newer("", ""));
    assert!(!is_newer("1..0", "0.0.0"));
}
