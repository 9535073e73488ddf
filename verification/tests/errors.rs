use graphql_accelerator::errors::{
    first_error_description, first_error_offset, format_expected, format_found_apollo,
    override_offset, peek_token, syntax_error_message, SyntaxErrorInfo,
};

fn err(message: &str, index: usize) -> SyntaxErrorInfo {
    SyntaxErrorInfo { message: message.to_string(), index }
}

fn describe(message: &str, index: usize, body: &str) -> String {
    first_error_description(&err(message, index), 256, body)
}

#[test]
fn peek_punctuators_and_eof() {
    assert_eq!(peek_token("abc", 5), Some("<EOF>".to_string()));
    assert_eq!(peek_token("abc", 3), Some("<EOF>".to_string()));
    assert_eq!(peek_token("{a", 0), Some("{".to_string()));
    assert_eq!(peek_token(".", 0), Some("...".to_string()));
    assert_eq!(peek_token("a | b", 2), Some("|".to_string()));
}

#[test]
fn peek_names_numbers_strings() {
    assert_eq!(peek_token("x foo_1 y", 2), Some("Name \"foo_1\"".to_string()));
    assert_eq!(peek_token("-12.5e+3x", 0), Some("Float \"-12.5e+3\"".to_string()));
    assert_eq!(peek_token("f(x: 1.5)", 5), Some("Float \"1.5\"".to_string()));
    assert_eq!(peek_token("f(x: 1E3)", 5), Some("Float \"1E3\"".to_string()));
    assert_eq!(peek_token("f(x: -42)", 5), Some("Int \"-42\"".to_string()));
    assert_eq!(peek_token("\"ab\\\"c\" d", 0), Some("String \"ab\\\"c\"".to_string()));
    assert_eq!(peek_token("\"open", 0), Some("String \"open\"".to_string()));
}

#[test]
fn peek_nothing_to_show() {
    assert_eq!(peek_token("#", 0), None);
    assert_eq!(peek_token(" x", 0), None);
    assert_eq!(peek_token("é", 0), None);
}

#[test]
fn expected_wording() {
    assert_eq!(format_expected("R_CURLY"), "}");
    assert_eq!(format_expected(" 'a name' "), "Name");
    assert_eq!(format_expected("COLON"), ":");
    assert_eq!(format_expected("L_BRACK"), "[");
    assert_eq!(format_expected("an Operation"), "\"Operation\"");
}

#[test]
fn found_wording() {
    assert_eq!(format_found_apollo(" eof "), "<EOF>");
    assert_eq!(format_found_apollo(" } "), "}");
}

#[test]
fn description_recursion() {
    let d = first_error_description(&err("parser recursion limit reached", 0), 5, "");
    assert_eq!(d, "Recursion depth limit of 5 exceeded");
}

#[test]
fn description_selection_set() {
    assert_eq!(describe("expected at least one Selection in Selection Set", 1, "{"),
        "Expected Name, found <EOF>");
    assert_eq!(describe("expected a Selection Set", 7, "query Q"), "Expected {, found <EOF>");
    assert_eq!(describe("expected R_CURLY, got EOF", 3, "{ a"), "Expected Name, found <EOF>");
}

#[test]
fn description_fragment_on() {
    assert_eq!(describe("Fragment Name cannot be 'on'", 9, "fragment on on T { a }"),
        "Unexpected Name \"on\"");
}

#[test]
fn description_extension_after_description() {
    let body = "\"d\" extend type A";
    let e = err("Invalid Type System Extension. This extension cannot have a description.", 0);
    assert_eq!(first_error_description(&e, 256, body), "Unexpected Name \"extend\"");
    assert_eq!(override_offset(&e, body), Some(4));
}

#[test]
fn description_extension_with_string() {
    let body = "extend  \"Desc\" type A";
    let e = err("invalid type system extension", 0);
    assert_eq!(first_error_description(&e, 256, body), "Unexpected String \"Desc\"");
    assert_eq!(override_offset(&e, body), Some(8));
}

#[test]
fn override_finds_the_extend_keyword() {
    let e = err("invalid type system extension", 0);
    assert_eq!(override_offset(&e, "\"extended\" extend type T"), Some(11));
    assert_eq!(override_offset(&e, "\"\"\"extend me\"\"\" extend type T"), Some(16));
    assert_eq!(override_offset(&e, "# extend\nextend \"D\" type T"), Some(16));
    assert_eq!(override_offset(&e, "extendX extend"), Some(8));
    assert_eq!(first_error_description(&e, 256, "\"extended\" extend type T"),
        "Unexpected Name \"extend\"");
}

#[test]
fn override_only_for_extensions() {
    assert_eq!(override_offset(&err("expected a Name", 3), "extend x"), None);
    assert_eq!(override_offset(&err("invalid type system extension", 3), "type A"), None);
    assert_eq!(first_error_offset(&err("anything", 17)), 17);
}

#[test]
fn description_const_and_locations() {
    assert_eq!(describe("unexpected variable value in a const context", 0, "$a"), "Unexpected $");
    assert_eq!(describe("expected a valid Directive Location", 16, "directive @x on FOO"),
        "Unexpected Name \"FOO\"");
}

#[test]
fn description_definitions() {
    assert_eq!(describe("expected definition", 8, "input X (a)"), "Expected :, found (");
    assert_eq!(describe("expected definition", 0, "x"), "Unexpected Name \"x\"");
    assert_eq!(describe("expected a StringValue, Name or OperationDefinition", 0, "}"), "Unexpected }");
    assert_eq!(describe("expected a Name", 1, "f(a)"), "Expected :, found (");
}

#[test]
fn description_generic_expected() {
    assert_eq!(describe("expected COLON, got {", 0, ""), "Expected :, found {");
    assert_eq!(describe("expected 'on', got x", 0, ""), "Expected \"on\", found x");
    assert_eq!(describe("expected Name", 4, "abc"), "Expected Name, found <EOF>");
}

#[test]
fn description_unexpected_and_other() {
    assert_eq!(describe("unexpected token", 0, ""), "Unexpected token");
    assert_eq!(describe("Unexpected Token", 0, ""), "Unexpected Token");
    assert_eq!(describe("some 'weird' error, got x", 0, ""), "Some weird error, found x");
    assert_eq!(describe("", 0, ""), "");
}

#[test]
fn error_message_prefix() {
    assert_eq!(syntax_error_message("Unexpected $"), "Syntax Error: Unexpected $");
}
