use cq::bignum::Big;
use cq::decimal::{numeral_to_bits, ratio_to_bits};

fn next(state: &mut u64) -> u64 {
    *state ^= *state << 13;
    *state ^= *state >> 7;
    *state ^= *state << 17;
    *state
}

fn big(mut x: u128) -> Big {
    let mut limbs = Vec::new();
    while x > 0 {
        limbs.push(x as u32);
        x >>= 32;
    }
    Big { limbs }
}

#[test]
fn ratios_are_rounded_as_the_machine_divides() {
    let mut state = 0x1357_9bdf_0246_8aceu64;
    for _ in 0..100_000 {
        let n = (next(&mut state) >> 11).max(1) >> (next(&mut state) % 53);
        let m = (next(&mut state) >> 11).max(1) >> (next(&mut state) % 53);
        let (n, m) = (n.max(1), m.max(1));
        let expected = (n as f64 / m as f64).to_bits();
        assert_eq!(ratio_to_bits(big(n as u128), big(m as u128)), expected, "{} / {}", n, m);
    }
    assert_eq!(ratio_to_bits(big(1), big(1)), 1.0f64.to_bits());
    assert_eq!(ratio_to_bits(big(1), big(3)), (1.0f64 / 3.0).to_bits());
    assert_eq!(ratio_to_bits(big(u128::MAX), big(1)), (u128::MAX as f64).to_bits());
    assert_eq!(ratio_to_bits(big(1), big(u128::MAX)), (1.0 / (u128::MAX as f64)).to_bits());
}

fn digits(text: &str) -> Vec<char> {
    text.chars().collect()
}

#[test]
fn numerals_are_read_as_the_machine_reads_them() {
    let mut state = 0x2468_ace0_1357_9bdfu64;
    let mut cases: Vec<(String, i128)> = vec![
        ("0".into(), 0),
        ("0".into(), 1000),
        ("1".into(), 0),
        ("1".into(), 308),
        ("1".into(), 309),
        ("17976931348623157".into(), 292),
        ("17976931348623158".into(), 292),
        ("17976931348623159".into(), 292),
        ("179769313486231580793".into(), 288),
        ("49".into(), -325),
        ("5".into(), -324),
        ("24703282292062327".into(), -340),
        ("24703282292062328".into(), -340),
        ("2470328229206232720882843964341106861825299013071623822127928412503377536351043".into(), -402),
        ("22250738585072014".into(), -324),
        ("22250738585072011".into(), -324),
        ("9007199254740993".into(), 0),
        ("9007199254740992".into(), 0),
        ("9007199254740995".into(), 0),
        ("1".into(), -400),
        ("1".into(), 400),
        ("1".into(), 401),
        ("1".into(), -10_000),
        ("1".into(), 10_000),
        ("000000000000000000000000000000001".into(), 0),
        ("1".repeat(800), -800),
        ("1".repeat(800), -1120),
        ("9".repeat(400), -95),
        ("1".to_string() + &"0".repeat(700), -700),
        ("1".to_string() + &"0".repeat(700), -1024),
    ];
    for _ in 0..4_000 {
        let len = 1 + next(&mut state) % 25;
        let text: String = (0..len).map(|_| char::from(b'0' + (next(&mut state) % 10) as u8)).collect();
        let exp = (next(&mut state) % 700) as i128 - 350;
        cases.push((text, exp));
    }
    for _ in 0..60 {
        let len = 1 + next(&mut state) % 60;
        let text: String = (0..len).map(|_| char::from(b'0' + (next(&mut state) % 10) as u8)).collect();
        for exp in [-345, -340, -330, -325, -324, -323, -310, 290, 300, 305, 308, 309] {
            cases.push((text.clone(), exp - len as i128));
            cases.push((text.clone(), exp));
        }
    }
    for (text, exp) in cases {
        let expected = format!("{}e{}", text, exp).parse::<f64>().unwrap().to_bits();
        assert_eq!(numeral_to_bits(&digits(&text), exp), expected, "{}e{}", text, exp);
    }
}

fn read(text: &str) -> Option<u64> {
    cq::decimal::parse_double(&text.chars().collect())
}

#[test]
fn texts_are_read_as_the_machine_reads_them() {
    let crafted = [
        "", "+", "-", ".", "+.", "e", "e5", ".e5", "1e", "1e+", "1e-", "1e+5", "1E5", "1e5e6", "1..2",
        "1.", ".5", "1.5", "-1.5", "+1.5", "++1", "--1", "+-1", "1.5.", "1_000", " 1", "1 ", "0x10",
        "inf", "INF", "Inf", "+inf", "-inf", "infinity", "Infinity", "-INFINITY", "infinit", "in",
        "infinityy", "nan", "NaN", "NAN", "+nan", "-nan", "nana", "na", "n", "i", "0", "-0", "+0",
        "0.0", "-0.0", "00", "0e0", "0e999999999999999999999999999999999999", "1e99999999999999999999999999999999",
        "1e-99999999999999999999999999999999", "-1e99999999999999999999999999999999",
        "0.000000000000000000000000000000000000000000000000001e51", "1e308", "1e309", "1.7976931348623157e308",
        "1.7976931348623158e308", "1.7976931348623159e308", "179769313486231580793728971405303415079934132710037826936173778980444968292764750946649017977587207096330286416692887910946555547851940402630657488671505820681908902000708383676273854845817711531764475730270069855571366959622842914819860834936475292719074168444365510704342711559699508093042880177904174497791.9999999999999999999999999999999999999999999999999999999999999999999999",
        "179769313486231580793728971405303415079934132710037826936173778980444968292764750946649017977587207096330286416692887910946555547851940402630657488671505820681908902000708383676273854845817711531764475730270069855571366959622842914819860834936475292719074168444365510704342711559699508093042880177904174497792",
        "4.9e-324", "2.4703282292062327e-324", "2.4703282292062328e-324", "2.4703282292062329e-324", "5e-324", "1e-323",
        "2.2250738585072014e-308", "2.2250738585072011e-308", "2.225073858507201e-308", "9007199254740993", "9007199254740992.5",
        "9007199254740993.0000000000000000000000000000000000000000000000000000000001", "0.1", "0.2", "0.3", "1e23", "8.5", "1000000",
        "1.5e3", "-2", "5.0000000000000001", "5.000000000000001", "٣", "1e٣", "１", "0.5e-0", "1e+0", "1e-0", "1E+10", ".0", "0.",
        "18446744073709551615", "18446744073709551616", "3.14159265358979323846264338327950288419716939937510",
        "123456789012345678901234567890123456789012345678901234567890e-30",
    ];
    for text in crafted {
        assert_eq!(read(text), text.parse::<f64>().ok().map(f64::to_bits), "{:?}", text);
    }
}

#[test]
fn random_texts_are_read_as_the_machine_reads_them() {
    let alphabet: Vec<char> = "0123456789012345678901234567890123456789..eE+-infaty ".chars().collect();
    let mut state = 0x0123_4567_89ab_cdefu64;
    for _ in 0..40_000 {
        let len = next(&mut state) % 12;
        let text: String =
            (0..len).map(|_| alphabet[(next(&mut state) % alphabet.len() as u64) as usize]).collect();
        assert_eq!(read(&text), text.parse::<f64>().ok().map(f64::to_bits), "{:?}", text);
    }
}

#[test]
fn random_numerals_are_read_as_the_machine_reads_them() {
    let mut state = 0x0f1e_2d3c_4b5a_6978u64;
    for _ in 0..8_000 {
        let int_len = next(&mut state) % 20;
        let frac_len = next(&mut state) % 20;
        let mut text = String::new();
        if next(&mut state) % 3 == 0 {
            text.push(if next(&mut state) % 2 == 0 { '-' } else { '+' });
        }
        for _ in 0..int_len {
            text.push(char::from(b'0' + (next(&mut state) % 10) as u8));
        }
        if next(&mut state) % 2 == 0 {
            text.push('.');
            for _ in 0..frac_len {
                text.push(char::from(b'0' + (next(&mut state) % 10) as u8));
            }
        }
        if next(&mut state) % 2 == 0 {
            text.push(if next(&mut state) % 2 == 0 { 'e' } else { 'E' });
            match next(&mut state) % 3 {
                0 => text.push('-'),
                1 => text.push('+'),
                _ => {}
            }
            text.push_str(&(next(&mut state) % 400).to_string());
        }
        assert_eq!(read(&text), text.parse::<f64>().ok().map(f64::to_bits), "{:?}", text);
    }
}

#[test]
fn doubles_written_out_are_read_back() {
    let mut state = 0x9999_8888_7777_6666u64;
    for bits in (0..1_500).map(|_| next(&mut state)) {
        let x = f64::from_bits(bits);
        if x.is_nan() {
            continue;
        }
        for text in [format!("{}", x), format!("{:.20e}", x), format!("{:.3}", x)] {
            assert_eq!(read(&text), text.parse::<f64>().ok().map(f64::to_bits), "{:?}", text);
        }
        assert_eq!(read(&format!("{:e}", x)), Some(bits));
    }
}
