//! Query shortcuts: short names for the paths that are asked for most.

use crate::path::segments_of;
use crate::text::{
    find_char, first_at, index_of, lemma_index_of, lemma_index_of_some, same_text, to_chars, to_text,
};
use vstd::prelude::*;
use vstd::string::StringExecFns;

verus! {

/// The path that a shortcut stands for.
pub open spec fn shortcut_of(alias: Seq<char>) -> Option<Seq<char>> {
    if alias == "fee"@ {
        Some("body.fee"@)
    } else if alias == "inputs"@ {
        Some("body.inputs"@)
    } else if alias == "outputs"@ {
        Some("body.outputs"@)
    } else if alias == "metadata"@ {
        Some("auxiliary_data.metadata"@)
    } else if alias == "witnesses"@ {
        Some("witness_set"@)
    } else if alias == "hash"@ {
        Some("__hash__"@)
    } else if alias == "ttl"@ {
        Some("body.ttl"@)
    } else if alias == "mint"@ {
        Some("body.mint"@)
    } else if alias == "certs"@ {
        Some("body.certs"@)
    } else if alias == "withdrawals"@ {
        Some("body.withdrawals"@)
    } else if alias == "collateral"@ {
        Some("body.collateral_inputs"@)
    } else if alias == "required_signers"@ {
        Some("body.required_signers"@)
    } else if alias == "network_id"@ {
        Some("body.network_id"@)
    } else if alias == "validity_start"@ {
        Some("body.validity_interval_start"@)
    } else if alias == "script_data_hash"@ {
        Some("body.script_data_hash"@)
    } else if alias == "collateral_return"@ {
        Some("body.collateral_return"@)
    } else if alias == "total_collateral"@ {
        Some("body.total_collateral"@)
    } else {
        None
    }
}

/// Where the first `.` or `[` of a query stands.
pub open spec fn first_delimiter(q: Seq<char>) -> Option<int> {
    match (index_of(q, '.'), index_of(q, '[')) {
        (Some(d), Some(b)) => Some(if d <= b {
            d
        } else {
            b
        }),
        (Some(d), None) => Some(d),
        (None, Some(b)) => Some(b),
        (None, None) => None,
    }
}

/// The query with its shortcut written out: a query that is a shortcut gives
/// the shortcut's path; one that starts with a shortcut, up to its first `.`
/// or `[`, has that part replaced; any other stays as it is.
pub open spec fn expand(q: Seq<char>) -> Seq<char> {
    match shortcut_of(q) {
        Some(full) => full,
        None => match first_delimiter(q) {
            Some(p) => match shortcut_of(q.subrange(0, p)) {
                Some(full) => full + q.subrange(p, q.len() as int),
                None => q,
            },
            None => q,
        },
    }
}

/// The path that names the computed transaction hash.
pub open spec fn hash_sentinel() -> Seq<char> {
    "__hash__"@
}

/// Get the expansion for a shortcut prefix.
pub fn shortcut_expansion(shortcut: &str) -> (r: Option<&'static str>)
    ensures
        match r {
            Some(full) => shortcut_of(shortcut@) == Some(full@),
            None => shortcut_of(shortcut@) is None,
        },
{
    if same_text(shortcut, "fee") {
        Some("body.fee")
    } else if same_text(shortcut, "inputs") {
        Some("body.inputs")
    } else if same_text(shortcut, "outputs") {
        Some("body.outputs")
    } else if same_text(shortcut, "metadata") {
        Some("auxiliary_data.metadata")
    } else if same_text(shortcut, "witnesses") {
        Some("witness_set")
    } else if same_text(shortcut, "hash") {
        Some("__hash__")
    } else if same_text(shortcut, "ttl") {
        Some("body.ttl")
    } else if same_text(shortcut, "mint") {
        Some("body.mint")
    } else if same_text(shortcut, "certs") {
        Some("body.certs")
    } else if same_text(shortcut, "withdrawals") {
        Some("body.withdrawals")
    } else if same_text(shortcut, "collateral") {
        Some("body.collateral_inputs")
    } else if same_text(shortcut, "required_signers") {
        Some("body.required_signers")
    } else if same_text(shortcut, "network_id") {
        Some("body.network_id")
    } else if same_text(shortcut, "validity_start") {
        Some("body.validity_interval_start")
    } else if same_text(shortcut, "script_data_hash") {
        Some("body.script_data_hash")
    } else if same_text(shortcut, "collateral_return") {
        Some("body.collateral_return")
    } else if same_text(shortcut, "total_collateral") {
        Some("body.total_collateral")
    } else {
        None
    }
}

/// Expand a query shortcut to its full path.
pub fn expand_shortcut(query: &str) -> (r: String)
    ensures
        r@ == expand(query@),
{
    if let Some(full) = shortcut_expansion(query) {
        return full.to_owned();
    }
    let chars = to_chars(query);
    let n = chars.len();
    assert(chars@.subrange(0, n as int) =~= chars@);
    let dot = find_char(&chars, 0, '.');
    let bracket = find_char(&chars, 0, '[');
    let delimiter = match (dot, bracket) {
        (Some(d), Some(b)) => Some(if d <= b {
            d
        } else {
            b
        }),
        (Some(d), None) => Some(d),
        (None, Some(b)) => Some(b),
        (None, None) => None,
    };
    if let Some(p) = delimiter {
        let prefix = to_text(&chars, 0, p);
        let rest = to_text(&chars, p, n);
        if let Some(full) = shortcut_expansion(prefix.as_str()) {
            return full.to_owned().concat(rest.as_str());
        }
    }
    query.to_owned()
}

/// Check if a query is the special hash computed field.
pub fn is_hash_query(expanded: &str) -> (r: bool)
    ensures
        r == (expanded@ == hash_sentinel()),
{
    same_text(expanded, "__hash__")
}

/// No shortcut holds a `.` or a `[`.
pub proof fn lemma_shortcut_has_no_delimiter(alias: Seq<char>)
    requires
        shortcut_of(alias) is Some,
    ensures
        forall|i: int| 0 <= i < alias.len() ==> alias[i] != '.' && alias[i] != '[',
{
    reveal_strlit("fee");
    reveal_strlit("inputs");
    reveal_strlit("outputs");
    reveal_strlit("metadata");
    reveal_strlit("witnesses");
    reveal_strlit("hash");
    reveal_strlit("ttl");
    reveal_strlit("mint");
    reveal_strlit("certs");
    reveal_strlit("withdrawals");
    reveal_strlit("collateral");
    reveal_strlit("required_signers");
    reveal_strlit("network_id");
    reveal_strlit("validity_start");
    reveal_strlit("script_data_hash");
    reveal_strlit("collateral_return");
    reveal_strlit("total_collateral");
}

/// A shortcut is expanded to its path, alone and in front of a `.` and
/// anything after it.
pub proof fn lemma_expand_shortcut(alias: Seq<char>, suffix: Seq<char>)
    requires
        shortcut_of(alias) is Some,
    ensures
        expand(alias) == shortcut_of(alias)->Some_0,
        expand(alias + seq!['.'] + suffix) == shortcut_of(alias)->Some_0 + seq!['.'] + suffix,
{
    let full = shortcut_of(alias)->Some_0;
    let q = alias + seq!['.'] + suffix;
    let n = alias.len() as int;
    lemma_shortcut_has_no_delimiter(alias);
    assert(q[n] == '.');
    if shortcut_of(q) is Some {
        lemma_shortcut_has_no_delimiter(q);
    }
    assert(first_at(q, '.', n)) by {
        assert forall|j: int| 0 <= j < n implies q[j] != '.' by {
            assert(q[j] == alias[j]);
        }
    }
    lemma_index_of_some(q, '.', n);
    lemma_index_of(q, '[');
    if let Some(b) = index_of(q, '[') {
        if b < n {
            assert(q[b] == alias[b]);
        }
    }
    assert(first_delimiter(q) == Some(n));
    assert(q.subrange(0, n) =~= alias);
    assert(q.subrange(n, q.len() as int) =~= seq!['.'] + suffix);
    assert(full + (seq!['.'] + suffix) =~= full + seq!['.'] + suffix);
}

/// Parsing an expanded shortcut is parsing the path that it stands for, with
/// and without a `.` and a suffix behind it.
pub proof fn lemma_parse_expanded_shortcut(alias: Seq<char>, suffix: Seq<char>)
    requires
        shortcut_of(alias) is Some,
    ensures
        segments_of(expand(alias)) == segments_of(shortcut_of(alias)->Some_0),
        segments_of(expand(alias + seq!['.'] + suffix)) == segments_of(
            shortcut_of(alias)->Some_0 + seq!['.'] + suffix,
                    ),
{
    lemma_expand_shortcut(alias, suffix);
}

} // verus!
