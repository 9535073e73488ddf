use graphql_accelerator::lower::values::{
    boolean_literal_value, decode_escapes, decode_string_value, dedent_block,
    strip_block_string, strip_simple_string,
};

#[test]
fn escapes_simple() {
    assert_eq!(decode_escapes(r#"a\"b\\c\/d"#), "a\"b\\c/d");
    assert_eq!(decode_escapes(r"\b\f\n\r\t"), "\u{8}\u{c}\n\r\t");
    assert_eq!(decode_escapes("plain text é"), "plain text é");
}

#[test]
fn escapes_unicode() {
    assert_eq!(decode_escapes(r"\u0041\u00e9!"), "Aé!");
    assert_eq!(decode_escapes(r"\u+041x"), "Ax");
    // A surrogate pair is one character; a lone surrogate is dropped.
    assert_eq!(decode_escapes(r"\uD83D\uDE00"), "\u{1F600}");
    assert_eq!(decode_escapes(r"a\ud83d\ude00b"), "a\u{1F600}b");
    assert_eq!(decode_escapes(r"\uD800z"), "z");
    assert_eq!(decode_escapes(r"\uDE00"), "");
    assert_eq!(decode_escapes(r"\uD83D\u0041"), "A");
    // Not hex: the four characters after `\u` are dropped.
    assert_eq!(decode_escapes(r"\uZZZZok"), "ok");
    // Fewer than four characters left.
    assert_eq!(decode_escapes(r"\u41"), "A");
    assert_eq!(decode_escapes(r"\u"), "");
}

#[test]
fn escapes_unknown_and_trailing() {
    assert_eq!(decode_escapes(r"\q"), r"\q");
    assert_eq!(decode_escapes("ab\\"), "ab\\");
}

#[test]
fn dedent_common_indent() {
    assert_eq!(dedent_block("\n    Hello,\n      World!\n\n    Yours,\n      GraphQL.\n  "),
        "Hello,\n  World!\n\nYours,\n  GraphQL.");
}

#[test]
fn dedent_first_line_kept() {
    assert_eq!(dedent_block("  first\n    second\n    third"), "  first\nsecond\nthird");
    assert_eq!(dedent_block("single line"), "single line");
    assert_eq!(dedent_block("   \n  \t\n"), "");
}

#[test]
fn dedent_short_lines_kept() {
    // The common indent is 4; the blank line of 2 spaces is shorter and kept
    // (then dropped only if it is leading or trailing).
    assert_eq!(dedent_block("x\n    a\n  \n    b"), "x\na\n  \nb");
}

#[test]
fn string_value_quoted() {
    assert_eq!(decode_string_value(r#""a\nb""#), ("a\nb".to_string(), false));
    assert_eq!(decode_string_value(r#""""#), ("".to_string(), false));
}

#[test]
fn string_value_block() {
    assert_eq!(
        decode_string_value("\"\"\"\n  hello\n    world\n\"\"\""),
        ("hello\n  world".to_string(), true)
    );
    assert_eq!(decode_string_value(r#""""a \""" b""""#), ("a \"\"\" b".to_string(), true));
    assert_eq!(decode_string_value("\"\"\"\"\"\""), ("".to_string(), true));
}

#[test]
fn string_value_other_text_kept() {
    assert_eq!(decode_string_value("abc"), ("abc".to_string(), false));
    assert_eq!(decode_string_value("\""), ("\"".to_string(), false));
}

#[test]
fn token_strings_agree_with_ast_strings() {
    for raw in ["\"x\\ty\"", "\"\"\"\n   a\n   b\n\"\"\"", "\"\\u0042\""] {
        let (v, block) = decode_string_value(raw);
        if block {
            assert_eq!(strip_block_string(raw), v);
        } else {
            assert_eq!(strip_simple_string(raw), v);
        }
    }
}

#[test]
fn token_strings_keep_non_literals() {
    assert_eq!(strip_simple_string("x"), "x");
    assert_eq!(strip_block_string("\"\"\"ab"), "\"\"\"ab");
    assert_eq!(strip_block_string("\"x\""), "\"x\"");
}

#[test]
fn dedent_counts_ascii_whitespace_only() {
    // U+00A0 and U+3000 are not indentation.
    assert_eq!(dedent_block("\n\u{A0}a\n b"), "\u{A0}a\n b");
    assert_eq!(
        decode_string_value("\"\"\"x\n a\n\u{3000}b\"\"\""),
        ("x\n a\n\u{3000}b".to_string(), true)
    );
    assert_eq!(dedent_block("x\n\t a\n\t b"), "x\na\nb");
    // A line of other whitespace is not blank.
    assert_eq!(dedent_block("\u{3000}\nx"), "\u{3000}\nx");
    // `\r\n` text: a line holding only `\r` is blank.
    assert_eq!(dedent_block("\r\n  a"), "a");
    assert_eq!(dedent_block("\r\n  a\r\n  b\r\n"), "a\r\nb\r");
}

#[test]
fn boolean_values() {
    assert!(boolean_literal_value("true"));
    assert!(boolean_literal_value("  true "));
    assert!(!boolean_literal_value("false"));
    assert!(!boolean_literal_value("True"));
}
