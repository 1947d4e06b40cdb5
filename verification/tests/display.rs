use cq::cli::Args;
use cq::format::{
    format_cert_type, format_lovelace, format_number_with_separators, format_string_raw,
    format_string_value, to_micro_ada, truncate_address, truncate_hash,
};

#[test]
fn test_format_number_with_separators() {
    assert_eq!(format_number_with_separators(1000), "1,000");
    assert_eq!(format_number_with_separators(1000000), "1,000,000");
    assert_eq!(format_number_with_separators(123), "123");
}

#[test]
fn test_truncate_hash() {
    let hash = "0123456789abcdef0123456789abcdef";
    assert_eq!(truncate_hash(hash, 16), "012345...abcdef");
}

#[test]
fn test_truncate_address() {
    let addr = "addr1qxck47d8fy6vk2jqsf3r9k2l7vr5h9d8wkz3r9k2l7vr5h9d8wkz";
    let truncated = truncate_address(addr, 24);
    assert!(truncated.len() <= 27); // 24 + "..."
    assert!(truncated.starts_with("addr1"));
}

#[test]
fn numbers_are_grouped_in_threes() {
    assert_eq!(format_number_with_separators(0), "0");
    assert_eq!(format_number_with_separators(999), "999");
    assert_eq!(format_number_with_separators(12345), "12,345");
    assert_eq!(format_number_with_separators(100000), "100,000");
    assert_eq!(format_number_with_separators(2_500_000), "2,500,000");
    assert_eq!(format_number_with_separators(u64::MAX), "18,446,744,073,709,551,615");
}

#[test]
fn hashes_and_addresses_are_cut_in_the_middle() {
    assert_eq!(truncate_hash("abcdef", 6), "abcdef");
    assert_eq!(truncate_hash("abcdefg", 6), "a...g");
    assert_eq!(truncate_hash("abcdefg", 3), "...");
    assert_eq!(truncate_hash("0123456789abcdef0123456789abcdef", 12), "0123...cdef");
    assert_eq!(truncate_hash("", 0), "");
    let addr = "addr1qxck47d8fy6vk2jqsf3r9k2l7vr5h9d8wkz3r9k2l7vr5h9d8wkz";
    assert_eq!(truncate_address(addr, 24), "addr1qxck47d8...5h9d8wkz");
    assert_eq!(truncate_address(addr, 32), "addr1qxck47d8fy6vk2jq...5h9d8wkz");
    assert_eq!(truncate_address(addr, 11), "...5h9d8wkz");
    assert_eq!(truncate_address(addr, 100), addr);
    assert_eq!(truncate_address("stake_test1uqxyz0123456789", 20), "stake_tes...23456789");
}

#[test]
fn certificate_types_have_titles() {
    assert_eq!(format_cert_type("stake_registration"), "Stake Registration");
    assert_eq!(format_cert_type("stake_deregistration"), "Stake Deregistration");
    assert_eq!(format_cert_type("stake_delegation"), "Stake Delegation");
    assert_eq!(format_cert_type("pool_registration"), "Pool Registration");
    assert_eq!(format_cert_type("pool_retirement"), "Pool Retirement");
    assert_eq!(format_cert_type("reg_cert"), "Registration (Conway)");
    assert_eq!(format_cert_type("unreg_cert"), "Deregistration (Conway)");
    assert_eq!(format_cert_type("vote_deleg_cert"), "Vote Delegation");
    assert_eq!(format_cert_type("stake_vote_deleg_cert"), "Stake+Vote Delegation");
    assert_eq!(format_cert_type("stake_reg_deleg_cert"), "Stake Reg+Delegation");
    assert_eq!(format_cert_type("vote_reg_deleg_cert"), "Vote Reg+Delegation");
    assert_eq!(format_cert_type("stake_vote_reg_deleg_cert"), "Stake+Vote Reg+Del");
    assert_eq!(format_cert_type("auth_committee_hot_cert"), "Auth Committee Hot");
    assert_eq!(format_cert_type("resign_committee_cold_cert"), "Resign Committee Cold");
    assert_eq!(format_cert_type("reg_drep_cert"), "Register DRep");
    assert_eq!(format_cert_type("unreg_drep_cert"), "Unregister DRep");
    assert_eq!(format_cert_type("update_drep_cert"), "Update DRep");
    assert_eq!(format_cert_type("something_else"), "something_else");
}

#[test]
fn short_texts_are_kept_whatever_they_hold() {
    assert_eq!(truncate_hash("h\u{e9}", 3), "h\u{e9}");
    assert_eq!(truncate_hash("h\u{e9}", 100), "h\u{e9}");
    assert_eq!(truncate_address("\u{1f600}", 4), "\u{1f600}");
    assert_eq!(truncate_hash("abc", 3), "abc");
    assert_eq!(truncate_hash("abcd", 3), "...");
    assert_eq!(truncate_hash("abcdefgh", 5), "a...h");
}

#[test]
fn test_format_hex_string() {
    let output = format_string_raw("84a400");
    assert_eq!(output, "h'84a400'");
}

#[test]
fn test_format_text_string() {
    let output = format_string_raw("hello world");
    assert_eq!(output, "\"hello world\"");
}

#[test]
fn strings_are_shown_by_what_they_look_like() {
    assert_eq!(format_string_raw(""), "\"\"");
    assert_eq!(format_string_raw("a"), "\"a\"");
    assert_eq!(format_string_raw("ab"), "h'ab'");
    assert_eq!(format_string_raw("abc"), "\"abc\"");
    assert_eq!(format_string_raw("AbCd"), "h'AbCd'");
    assert_eq!(format_string_raw("abcg"), "\"abcg\"");
    assert_eq!(format_string_raw("\u{e9}\u{e9}"), "\"\u{e9}\u{e9}\"");
    assert_eq!(format_string_value("addr1qxyz"), "addr1qxyz");
    assert_eq!(format_string_value("hello"), "hello");
    assert_eq!(format_string_value("0123456789abcde"), "0123456789abcde");
    assert_eq!(format_string_value("0123456789abcdef"), "0123456789abcdef");
    assert_eq!(format_string_value("0123456789abcdef0123456789"), "0123456789...0123456789");
    assert_eq!(
        format_string_value("0123456789abcdef0123456789abcdef"),
        "0123456789...6789abcdef"
    );
    assert_eq!(format_string_value("0123456789abcdeg0123456789abcdef"), "0123456789abcdeg0123456789abcdef");
}

#[test]
fn test_format_lovelace_as_ada() {
    let args = Args {
        command: None,
        first: None,
        second: None,
        json: false,
        raw: false,
        ada: true,
        check: false,
        no_color: true,
    };
    assert_eq!(format_lovelace(2_500_000, &args), "2.500000 ADA");
}

#[test]
fn test_format_lovelace_as_lovelace() {
    let args = Args {
        command: None,
        first: None,
        second: None,
        json: false,
        raw: false,
        ada: false,
        check: false,
        no_color: true,
    };
    assert_eq!(format_lovelace(2_500_000, &args), "2,500,000 lovelace");
}

fn next(state: &mut u64) -> u64 {
    *state ^= *state << 13;
    *state ^= *state >> 7;
    *state ^= *state << 17;
    *state
}

#[test]
fn ada_amounts_are_what_doubles_give() {
    let ada = Args {
        command: None,
        first: None,
        second: None,
        json: false,
        raw: false,
        ada: true,
        check: false,
        no_color: true,
    };
    let mut values: Vec<u64> = vec![
        0,
        1,
        5,
        499_999,
        500_000,
        999_999,
        1_000_000,
        1_000_001,
        171_617,
        9_594_993_891,
        45_000_000_000_000_000,
        (1 << 52) - 1,
        1 << 52,
        (1 << 53) - 1,
        1 << 53,
        (1 << 53) + 1,
        4_503_599_627_370_497,
        9_007_199_254_740_993,
        u64::MAX,
        u64::MAX - 1,
        u64::MAX - 1024,
        u64::MAX - 1025,
        1 << 63,
        (1 << 63) + 1024,
        (1 << 63) + 1025,
    ];
    for k in 0..64u32 {
        for j in [0u64, 1, 2, 3, 15_624, 15_625, 15_626] {
            values.push((1u64 << k).wrapping_add(j));
            values.push((1u64 << k).wrapping_sub(j));
            values.push(15_625u64.wrapping_mul(1 << (k % 50)).wrapping_add(j));
        }
    }
    let mut state = 0x0bad_cafe_dead_beefu64;
    for _ in 0..400_000 {
        let v = next(&mut state);
        values.push(v);
        values.push(v >> (next(&mut state) % 64));
        values.push((v >> 11) | (1 << 53));
        values.push(v % 100_000_000_000_000_000);
    }
    for v in values {
        let expected = format!("{:.6} ADA", v as f64 / 1_000_000.0);
        assert_eq!(format_lovelace(v, &ada), expected, "{}", v);
    }
    assert_eq!(to_micro_ada(2_500_000), 2_500_000);
    assert_eq!(format_lovelace(171_617, &ada), "0.171617 ADA");
    assert_eq!(format_lovelace(9_594_993_891, &ada), "9594.993891 ADA");
    assert_eq!(format_lovelace(0, &ada), "0.000000 ADA");
}
