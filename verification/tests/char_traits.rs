use saphyr_parser_bw::char_traits::{first_line_leading_spaces, is_valid_literal_block_scalar};

#[test]
fn plain_text_is_valid_block_scalar() {
    assert!(is_valid_literal_block_scalar("hello world"));
    assert!(is_valid_literal_block_scalar(""));
    assert!(is_valid_literal_block_scalar("line one\nline two\twith tab\n"));
    assert!(is_valid_literal_block_scalar("\u{4F60}\u{5273} \u{1D11E}"));
    assert!(is_valid_literal_block_scalar("~ \u{A0} \u{D7FF} \u{E000} \u{FFFD} \u{10000} \u{10FFFF}"));
}

#[test]
fn refused_characters_are_not_valid_block_scalar() {
    assert!(!is_valid_literal_block_scalar("a\rb"));
    assert!(!is_valid_literal_block_scalar("a\r\nb"));
    assert!(!is_valid_literal_block_scalar("next\u{0085}line"));
    assert!(!is_valid_literal_block_scalar("line\u{2028}sep"));
    assert!(!is_valid_literal_block_scalar("para\u{2029}sep"));
    assert!(!is_valid_literal_block_scalar("\u{FEFF}bom"));
}

#[test]
fn control_and_unprintable_characters_are_not_valid_block_scalar() {
    assert!(!is_valid_literal_block_scalar("bell\u{7}"));
    assert!(!is_valid_literal_block_scalar("nul\u{0}"));
    assert!(!is_valid_literal_block_scalar("del\u{7F}"));
    assert!(!is_valid_literal_block_scalar("c1\u{9F}"));
    assert!(!is_valid_literal_block_scalar("x\u{FFFE}"));
    assert!(!is_valid_literal_block_scalar("x\u{FFFF}"));
    assert!(!is_valid_literal_block_scalar("\u{1B}[0m"));
}

#[test]
fn leading_spaces_of_first_line() {
    assert_eq!(first_line_leading_spaces("  foo\nbar"), 2);
    assert_eq!(first_line_leading_spaces("foo\n    bar"), 0);
    assert_eq!(first_line_leading_spaces("\n\n   foo"), 3);
    assert_eq!(first_line_leading_spaces(""), 0);
    assert_eq!(first_line_leading_spaces("\n\n\n"), 0);
    assert_eq!(first_line_leading_spaces("    "), 4);
    assert_eq!(first_line_leading_spaces("   \nfoo"), 3);
    assert_eq!(first_line_leading_spaces("\t foo"), 0);
    assert_eq!(first_line_leading_spaces(" \u{4F60}"), 1);
}
