use cq::cli::all_hex_from;
use cq::text::{
    find_char, find_pattern, push_digits, push_integer, push_wide_digits, read_bounded, read_index,
    same_text, slice, split_at_each, stands_at, to_chars, to_text, trimmed,
};

fn next(state: &mut u64) -> u64 {
    *state ^= *state << 13;
    *state ^= *state >> 7;
    *state ^= *state << 17;
    *state
}

fn random_text(state: &mut u64, alphabet: &[char], max_len: u64) -> String {
    let len = next(state) % (max_len + 1);
    (0..len).map(|_| alphabet[(next(state) % alphabet.len() as u64) as usize]).collect()
}

fn text(chars: &[char]) -> String {
    chars.iter().collect()
}

#[test]
fn characters_go_in_and_out() {
    for s in ["", "a", "h\u{e9}llo \u{1f600}", "a.b[c]"] {
        let chars = to_chars(s);
        assert_eq!(chars, s.chars().collect::<Vec<char>>());
        assert_eq!(to_text(&chars, 0, chars.len()), s);
        assert!(same_text(s, &text(&chars)));
    }
    let chars = to_chars("h\u{e9}llo");
    assert_eq!(to_text(&chars, 1, 3), "\u{e9}l");
    assert_eq!(slice(&chars, 2, 5), vec!['l', 'l', 'o']);
    assert_eq!(slice(&chars, 2, 2), Vec::<char>::new());
    assert!(!same_text("a", "b") && !same_text("a", "ab") && same_text("", ""));
}

#[test]
fn trimming_agrees_with_std() {
    let alphabet = [' ', '\t', '\n', '\u{a0}', '\u{2003}', '\u{200b}', 'a', 'b', '\u{e9}', '\u{85}', '\r'];
    let mut state = 0x1234_5678_9abc_def1u64;
    for _ in 0..20_000 {
        let s = random_text(&mut state, &alphabet, 8);
        assert_eq!(text(&trimmed(&to_chars(&s))), s.trim(), "{:?}", s);
    }
}

#[test]
fn searching_agrees_with_std() {
    let alphabet = ['a', 'b', '=', '>', '.', '['];
    let mut state = 0x0fed_cba9_8765_4321u64;
    for _ in 0..20_000 {
        let s = random_text(&mut state, &alphabet, 10);
        let pat = random_text(&mut state, &alphabet, 3);
        let chars = to_chars(&s);
        assert_eq!(find_pattern(&chars, &to_chars(&pat)), s.find(pat.as_str()), "{:?} {:?}", s, pat);
        let from = (next(&mut state) % (chars.len() as u64 + 1)) as usize;
        let c = alphabet[(next(&mut state) % 6) as usize];
        assert_eq!(find_char(&chars, from, c), s[from..].find(c).map(|i| i + from));
        let at = (next(&mut state) % 12) as usize;
        let expected = at <= s.len() && s[at..].starts_with(pat.as_str());
        assert_eq!(stands_at(&chars, &to_chars(&pat), at), expected);
        let parts: Vec<String> = split_at_each(&chars, '.').iter().map(|p| text(p)).collect();
        assert_eq!(parts, s.split('.').map(String::from).collect::<Vec<String>>());
    }
    assert_eq!(stands_at(&to_chars("ab"), &to_chars("b"), usize::MAX), false);
}

#[test]
fn numbers_are_read_as_std_reads_them() {
    let alphabet = ['0', '1', '9', '+', '-', '4', '2', '7', ' ', 'a'];
    let mut state = 0x5555_aaaa_1234_4321u64;
    for _ in 0..50_000 {
        let s = random_text(&mut state, &alphabet, 22);
        let chars = to_chars(&s);
        assert_eq!(read_index(&chars), s.parse::<usize>().ok(), "{:?}", s);
        assert_eq!(read_bounded(&chars, u32::MAX as u64), s.parse::<u32>().ok().map(u64::from));
        assert_eq!(read_bounded(&chars, u64::MAX), s.parse::<u64>().ok());
        assert_eq!(read_bounded(&chars, 0), s.parse::<u64>().ok().filter(|v| *v == 0));
    }
    for s in ["18446744073709551615", "18446744073709551616", "00000000000000000000001", "+0", "٣"] {
        assert_eq!(read_index(&to_chars(s)), s.parse::<usize>().ok(), "{:?}", s);
    }
}

#[test]
fn numbers_are_written_as_std_writes_them() {
    let mut state = 0x7777_3333_1111_9999u64;
    let mut values: Vec<u128> = vec![0, 1, 9, 10, 99, 100, u64::MAX as u128, u128::MAX, 1 << 64];
    for _ in 0..5_000 {
        let v = ((next(&mut state) as u128) << 64 | next(&mut state) as u128) >> (next(&mut state) % 128);
        values.push(v);
    }
    for v in values {
        let mut out = vec!['x'];
        push_wide_digits(v, &mut out);
        assert_eq!(text(&out), format!("x{}", v));
        let small = v as u64;
        let mut out = Vec::new();
        push_digits(small, &mut out);
        assert_eq!(text(&out), small.to_string());
        for i in [v as i128, -(v as i128), (v as i128).wrapping_neg(), i128::MIN, i128::MAX] {
            let mut out = Vec::new();
            push_integer(i, &mut out);
            assert_eq!(text(&out), i.to_string());
        }
    }
}

#[test]
fn hexadecimal_digits_are_what_std_says() {
    for code in 0..=0x10ffffu32 {
        if let Some(c) = char::from_u32(code) {
            assert_eq!(all_hex_from(&vec![c], 0), c.is_ascii_hexdigit(), "U+{:04X}", code);
        }
    }
    assert!(all_hex_from(&to_chars("xyz09afAF"), 3));
    assert!(!all_hex_from(&to_chars("09afAFg"), 0));
    assert!(all_hex_from(&to_chars("zz"), 2));
}
