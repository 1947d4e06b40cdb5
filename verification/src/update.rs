//! Versions: which of two is the newer one.

use crate::text::{parse_bounded, read_bounded, rows, split, split_at_each, to_chars};
use vstd::prelude::*;

verus! {

/// The three numbers that a version begins with: the first three of its
/// parts between dots, each a number of at most 32 bits.
pub open spec fn version_of(s: Seq<char>) -> Option<(nat, nat, nat)> {
    let parts = split(s, '.');
    if parts.len() >= 3 {
        match (
            parse_bounded(parts[0], u32::MAX as nat),
            parse_bounded(parts[1], u32::MAX as nat),
            parse_bounded(parts[2], u32::MAX as nat),
        ) {
            (Some(a), Some(b), Some(c)) => Some((a, b, c)),
            _ => None,
        }
    } else {
        None
    }
}

/// Whether one version comes after another: by the first number, then by
/// the second, then by the third.
pub open spec fn comes_after(n: (nat, nat, nat), c: (nat, nat, nat)) -> bool {
    n.0 > c.0 || (n.0 == c.0 && (n.1 > c.1 || (n.1 == c.1 && n.2 > c.2)))
}

/// Whether `new_version` is newer than `current_version`; false where either
/// is not a version.
pub open spec fn newer(new_version: Seq<char>, current_version: Seq<char>) -> bool {
    match (version_of(new_version), version_of(current_version)) {
        (Some(n), Some(c)) => comes_after(n, c),
        _ => false,
    }
}

fn read_version(s: &str) -> (r: Option<(u64, u64, u64)>)
    ensures
        match r {
            Some(v) => version_of(s@) == Some((v.0 as nat, v.1 as nat, v.2 as nat)),
            None => version_of(s@) is None,
        },
{
    let chars = to_chars(s);
    let parts = split_at_each(&chars, '.');
    if parts.len() < 3 {
        return None;
    }
    assert(rows(parts@)[0] == parts@[0]@);
    assert(rows(parts@)[1] == parts@[1]@);
    assert(rows(parts@)[2] == parts@[2]@);
    let a = read_bounded(&parts[0], 0xffff_ffff);
    let b = read_bounded(&parts[1], 0xffff_ffff);
    let c = read_bounded(&parts[2], 0xffff_ffff);
    match (a, b, c) {
        (Some(a), Some(b), Some(c)) => Some((a, b, c)),
        _ => None,
    }
}

/// Check if `new_version` is newer than `current_version`.
pub fn is_newer(new_version: &str, current_version: &str) -> (r: bool)
    ensures
        r == newer(new_version@, current_version@),
{
    match (read_version(new_version), read_version(current_version)) {
        (Some(n), Some(c)) => n.0 > c.0 || (n.0 == c.0 && (n.1 > c.1 || (n.1 == c.1 && n.2 > c.2))),
        _ => false,
    }
}

} // verus!
