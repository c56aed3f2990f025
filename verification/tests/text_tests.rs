use balamod::text::{eq_ignore_ascii_case, nth_line, parse_usize, str_eq, trim_whitespace};

#[test]
fn trims_unicode_white_space() {
    assert_eq!(trim_whitespace("  2\n"), "2");
    assert_eq!(trim_whitespace("\u{3000}\t x y \u{2029}"), "x y");
    assert_eq!(trim_whitespace("   "), "");
    assert_eq!(trim_whitespace(""), "");
}

#[test]
fn parses_like_std() {
    for s in ["0", "7", "+12", "007", "18446744073709551615", "18446744073709551616", "", "+", "-1", "1 ", "1a", "٣"] {
        assert_eq!(parse_usize(s), s.parse::<usize>().ok(), "input {:?}", s);
    }
}

#[test]
fn lines_like_std() {
    for text in ["", "a", "a\n", "a\r\nb", "a\n\nb\n", "\n", "x\r", "1\n0.9.3\r\n", "one\rtwo\nthree"] {
        let expected: Vec<&str> = text.lines().collect();
        for i in 0..5usize {
            assert_eq!(nth_line(text, i).as_deref(), expected.get(i).copied(), "{:?} line {}", text, i);
        }
    }
}

#[test]
fn compares_text() {
    assert!(str_eq("abc", "abc"));
    assert!(!str_eq("abc", "abd"));
    assert!(!str_eq("ab", "abc"));
    assert!(eq_ignore_ascii_case("DAT1.JKR", "dat1.jkr"));
    assert!(!eq_ignore_ascii_case("É", "é"));
    assert!(!eq_ignore_ascii_case("a", "ab"));
}
