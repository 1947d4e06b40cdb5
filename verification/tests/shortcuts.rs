use cq::shortcuts::{expand_shortcut, is_hash_query};

#[test]
fn test_expand_shortcuts() {
    assert_eq!(expand_shortcut("fee"), "body.fee");
    assert_eq!(expand_shortcut("inputs"), "body.inputs");
    assert_eq!(expand_shortcut("outputs"), "body.outputs");
    assert_eq!(expand_shortcut("metadata"), "auxiliary_data.metadata");
    assert_eq!(expand_shortcut("witnesses"), "witness_set");
    assert_eq!(expand_shortcut("hash"), "__hash__");
}

#[test]
fn test_expand_shortcuts_nested() {
    assert_eq!(
        expand_shortcut("outputs.0.address"),
        "body.outputs.0.address"
    );
    assert_eq!(
        expand_shortcut("inputs.0.transaction_id"),
        "body.inputs.0.transaction_id"
    );
    assert_eq!(expand_shortcut("outputs.*.value"), "body.outputs.*.value");
}

#[test]
fn test_passthrough() {
    assert_eq!(expand_shortcut("body.fee"), "body.fee");
    assert_eq!(
        expand_shortcut("body.outputs.0.address"),
        "body.outputs.0.address"
    );
    assert_eq!(expand_shortcut("unknown"), "unknown");
    assert_eq!(expand_shortcut("unknown.field"), "unknown.field");
}

#[test]
fn test_expand_shortcuts_with_filter() {
    assert_eq!(
        expand_shortcut("outputs[value.coin > 1000000]"),
        "body.outputs[value.coin > 1000000]"
    );
    assert_eq!(
        expand_shortcut("outputs[value.coin > 1000000].address"),
        "body.outputs[value.coin > 1000000].address"
    );
}

#[test]
fn test_is_hash_query() {
    assert!(is_hash_query("__hash__"));
    assert!(!is_hash_query("hash"));
    assert!(!is_hash_query("body.fee"));
}
