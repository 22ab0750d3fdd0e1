use recipe_pipeline::numbers::{decimal_chars, parse_i32, parse_i64, parse_u64, parse_usize};
use recipe_pipeline::text::{
    before_pattern_chars, chars_of, collapse_spaces, remove_newlines, shorten_whitespace,
    split_chars, string_of, strip_line_ending, trim_chars, trim_end_matches_char,
};

fn s(v: &[char]) -> String {
    v.iter().collect()
}

#[test]
fn remove_newlines_drops_line_breaks() {
    assert_eq!(remove_newlines("a\nb\r\nc".to_string()), "abc");
    assert_eq!(remove_newlines("\n\r".to_string()), "");
    assert_eq!(remove_newlines("plain".to_string()), "plain");
}

#[test]
fn remove_newlines_is_idempotent() {
    let once = remove_newlines("x\ny\rz".to_string());
    assert_eq!(remove_newlines(once.clone()), once);
}

#[test]
fn shorten_whitespace_collapses_runs() {
    assert_eq!(shorten_whitespace("a   b c  d".to_string()), "a b c d");
    assert_eq!(shorten_whitespace("  lead".to_string()), " lead");
    assert_eq!(shorten_whitespace("tab\t\tkept".to_string()), "tab\t\tkept");
    assert_eq!(shorten_whitespace(String::new()), "");
}

#[test]
fn shorten_whitespace_is_idempotent() {
    let once = shorten_whitespace("p  q   r".to_string());
    assert_eq!(shorten_whitespace(once.clone()), once);
}

#[test]
fn cleaned_text_has_no_breaks_nor_double_spaces() {
    let v = chars_of("  Борщ\n  с   говядиной ");
    let t = trim_chars(&v);
    let cleaned = s(&collapse_spaces(&recipe_pipeline::text::remove_line_breaks(&t)));
    assert_eq!(cleaned, "Борщ с говядиной");
}

#[test]
fn trim_uses_unicode_white_space() {
    assert_eq!(s(&trim_chars(&chars_of("\u{a0} x y\u{3000}\t"))), "x y");
    assert_eq!(s(&trim_chars(&chars_of("   "))), "");
}

#[test]
fn trim_end_and_line_endings() {
    assert_eq!(s(&trim_end_matches_char(&chars_of("a/b///"), '/')), "a/b");
    assert_eq!(s(&strip_line_ending(&chars_of("line\r\n"))), "line");
    assert_eq!(s(&strip_line_ending(&chars_of("line\n\n"))), "line\n");
    assert_eq!(s(&strip_line_ending(&chars_of("line\r"))), "line\r");
}

#[test]
fn split_keeps_empty_pieces() {
    let pieces = split_chars(&chars_of("a,,b,"), ',');
    let texts: Vec<String> = pieces.iter().map(|p| s(p)).collect();
    assert_eq!(texts, vec!["a", "", "b", ""]);
    assert_eq!(split_chars(&chars_of(""), ',').len(), 1);
}

#[test]
fn before_pattern_cuts_at_first_occurrence() {
    assert_eq!(s(&before_pattern_chars(&chars_of("a?b?c"), &chars_of("?"))), "a");
    assert_eq!(s(&before_pattern_chars(&chars_of("a%3Fb"), &chars_of("%3F"))), "a");
    assert_eq!(s(&before_pattern_chars(&chars_of("abc"), &chars_of("%3F"))), "abc");
}

#[test]
fn string_round_trip() {
    assert_eq!(string_of(&chars_of("ünï")), "ünï");
}

#[test]
fn unsigned_parsing_follows_std() {
    assert_eq!(parse_u64(&chars_of("+12")), Some(12));
    assert_eq!(parse_u64(&chars_of("18446744073709551615")), Some(u64::MAX));
    assert_eq!(parse_u64(&chars_of("18446744073709551616")), None);
    assert_eq!(parse_u64(&chars_of("")), None);
    assert_eq!(parse_u64(&chars_of("+")), None);
    assert_eq!(parse_u64(&chars_of("-1")), None);
    assert_eq!(parse_usize(&chars_of("007")), Some(7));
}

#[test]
fn signed_parsing_follows_std() {
    assert_eq!(parse_i32(&chars_of("-2147483648")), Some(i32::MIN));
    assert_eq!(parse_i32(&chars_of("2147483648")), None);
    assert_eq!(parse_i32(&chars_of("-")), None);
    assert_eq!(parse_i64(&chars_of("-9223372036854775808")), Some(i64::MIN));
    assert_eq!(parse_i64(&chars_of("+5")), Some(5));
    assert_eq!(parse_i64(&chars_of("1 2")), None);
}

#[test]
fn decimal_writes_like_to_string() {
    for n in [0usize, 7, 10, 120, 99999, usize::MAX] {
        assert_eq!(s(&decimal_chars(n)), n.to_string());
    }
}
