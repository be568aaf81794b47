use lattice::text::{parse_i64_line, parse_i64_str, parse_usize_str, split_words, white_space, write_i64, write_u64, chars_of};

#[test]
fn writes_decimal() {
    let mut out = Vec::new();
    write_i64(-120, &mut out);
    write_u64(0, &mut out);
    write_i64(i64::MAX, &mut out);
    assert_eq!(out, b"-12009223372036854775807".to_vec());
}

#[test]
fn parses_i64_like_str_parse() {
    assert_eq!(parse_i64_str("42"), Some(42));
    assert_eq!(parse_i64_str("+42"), Some(42));
    assert_eq!(parse_i64_str("-42"), Some(-42));
    assert_eq!(parse_i64_str("007"), Some(7));
    assert_eq!(parse_i64_str("-9223372036854775808"), Some(i64::MIN));
    assert_eq!(parse_i64_str("9223372036854775807"), Some(i64::MAX));
    assert_eq!(parse_i64_str("9223372036854775808"), None);
    assert_eq!(parse_i64_str("-9223372036854775809"), None);
    assert_eq!(parse_i64_str("99999999999999999999999999"), None);
    assert_eq!(parse_i64_str(""), None);
    assert_eq!(parse_i64_str("-"), None);
    assert_eq!(parse_i64_str("+"), None);
    assert_eq!(parse_i64_str("1 "), None);
    assert_eq!(parse_i64_str("1a"), None);
    for s in ["0", "-0", "+17", "12x", "", "-", "+-1", "123456789012"] {
        assert_eq!(parse_i64_str(s), s.parse::<i64>().ok());
    }
}

#[test]
fn parses_usize_like_str_parse() {
    assert_eq!(parse_usize_str("12"), Some(12));
    assert_eq!(parse_usize_str("+12"), Some(12));
    assert_eq!(parse_usize_str("-0"), None);
    assert_eq!(parse_usize_str("18446744073709551615"), Some(usize::MAX));
    assert_eq!(parse_usize_str("18446744073709551616"), None);
    for s in ["0", "-1", "+5", "", "+", "5 "] {
        assert_eq!(parse_usize_str(s), s.parse::<usize>().ok());
    }
}

#[test]
fn splits_at_unicode_white_space() {
    let line = " 1\t-2\u{3000}3  \u{a0}4 ";
    let words = split_words(&chars_of(line));
    let expect: Vec<Vec<char>> = line.split_whitespace().map(|w| w.chars().collect()).collect();
    assert_eq!(words, expect);
    assert_eq!(parse_i64_line(line), Some(vec![1, -2, 3, 4]));
    assert_eq!(parse_i64_line("   "), Some(vec![]));
    assert_eq!(parse_i64_line("1 two 3"), None);
}

#[test]
fn white_space_matches_char_is_whitespace() {
    for c in ['\t', '\n', ' ', '\u{85}', '\u{a0}', '\u{1680}', '\u{2000}', '\u{200a}', '\u{2028}', '\u{2029}', '\u{202f}', '\u{205f}', '\u{3000}', 'a', '0', '\u{200b}', '\u{180e}', '-'] {
        assert_eq!(white_space(c), c.is_whitespace(), "{:?}", c);
    }
}

#[test]
fn white_space_agrees_on_every_char() {
    for u in 0u32..=0x10FFFF {
        if let Some(c) = char::from_u32(u) {
            assert_eq!(white_space(c), c.is_whitespace(), "{:?}", c);
        }
    }
}

#[test]
fn decimal_reads_back() {
    let mut xs: Vec<i64> = vec![i64::MIN, i64::MIN + 1, -1, 0, 1, i64::MAX - 1, i64::MAX];
    let mut x: i64 = 1;
    while x < i64::MAX / 7 {
        xs.push(x);
        xs.push(-x);
        x = x * 7 + 3;
    }
    for x in xs {
        let mut out = Vec::new();
        write_i64(x, &mut out);
        let s = String::from_utf8(out).unwrap();
        assert_eq!(s, x.to_string());
        assert_eq!(parse_i64_str(&s), Some(x));
    }
    for n in [0u64, 9, 10, 99, 100, u64::MAX] {
        let mut out = Vec::new();
        write_u64(n, &mut out);
        let s = String::from_utf8(out).unwrap();
        assert_eq!(parse_usize_str(&s), Some(n as usize));
    }
}
