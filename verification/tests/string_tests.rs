use knowit::strings::{check_answer, is_whitespace_char, parse_u32, trim_str};

#[test]
fn trim_removes_surrounding_whitespace_only() {
    assert_eq!(trim_str("  hello world  "), "hello world");
    assert_eq!(trim_str("no change"), "no change");
    assert_eq!(trim_str("\t\n mixed \r\n"), "mixed");
    assert_eq!(trim_str(""), "");
    assert_eq!(trim_str("   "), "");
}

#[test]
fn trim_knows_unicode_whitespace() {
    assert_eq!(trim_str("\u{3000}\u{a0}wide\u{2028} "), "wide");
    assert!(is_whitespace_char('\u{2009}'));
    assert!(!is_whitespace_char('x'));
    assert_eq!(trim_str("\u{3000}\tfoo "), "foo");
}

#[test]
fn trim_agrees_with_the_standard_library() {
    for s in ["  a b  ", "\u{205f}x\u{1680}", "ünï çödé  ", "\r\n", "+", " \u{85}inner space kept \u{85}"] {
        assert_eq!(trim_str(s), s.trim());
    }
}

#[test]
fn parse_u32_accepts_what_the_standard_parser_accepts() {
    for s in ["0", "7", "42", "007", "+13", "4294967295", "4294967296", "", "+", "-1", " 5", "5 ", "1e3", "ten", "12.5", "٣"] {
        assert_eq!(parse_u32(s), s.parse::<u32>().ok(), "on {:?}", s);
    }
}

#[test]
fn answers_compare_without_case_or_surrounding_whitespace() {
    assert!(check_answer(" paris ", "Paris"));
    assert!(check_answer("PARIS", "paris"));
    assert!(check_answer("4", "4"));
    assert!(!check_answer("london", "Paris"));
    assert!(!check_answer("", "Paris"));
    assert!(check_answer("  ", ""));
    assert!(check_answer("STRASSE", "strasse"));
}
