use media_api::text::{
    find_char, number_text, parse_text, split_chars, text_equal, text_equal_ignoring_ascii_case,
    to_chars,
};

#[test]
fn numbers_are_read_back() {
    for v in [0u64, 7, 10, 255, 48000, u32::MAX as u64, u64::MAX] {
        assert_eq!(number_text(v), format!("{v}"));
        assert_eq!(parse_text(&number_text(v), u64::MAX), Some(v));
    }
}

#[test]
fn numbers_out_of_range_are_refused() {
    assert_eq!(parse_text("256", 255), None);
    assert_eq!(parse_text("255", 255), Some(255));
    assert_eq!(parse_text("99999999999999999999999", u64::MAX), None);
    assert_eq!(parse_text("", 10), None);
    assert_eq!(parse_text("+", 10), None);
    assert_eq!(parse_text("++1", 10), None);
    assert_eq!(parse_text(" 1", 10), None);
    assert_eq!(parse_text("+1", 10), Some(1));
    assert_eq!(parse_text("0001", 10), Some(1));
}

#[test]
fn splitting_and_joining_gives_the_text_back() {
    let text = "a=1&&b=2&";
    let pieces: Vec<String> = split_chars(&to_chars(text), '&')
        .into_iter()
        .map(|p| p.into_iter().collect())
        .collect();
    assert_eq!(pieces, vec!["a=1", "", "b=2", ""]);
    assert_eq!(pieces.join("&"), text);
}

#[test]
fn first_occurrence_is_found() {
    assert_eq!(find_char(&to_chars("a=b=c"), '='), 1);
    assert_eq!(find_char(&to_chars("abc"), '='), 3);
}

#[test]
fn texts_are_compared() {
    assert!(text_equal("/decode", "/decode"));
    assert!(!text_equal("/decode", "/decode/"));
    assert!(text_equal_ignoring_ascii_case("TrUe", "true"));
    assert!(!text_equal_ignoring_ascii_case("TrUe", "truth"));
}
