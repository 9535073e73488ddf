use graphql_accelerator::apollo::RawToken;
use graphql_accelerator::classes::parser::{
    check_definition, error_report, check_document, check_type, check_wrapped, const_variable_error,
    const_variable_position,
    fragment_variables_parse, fragment_variables_wrapping, parse_document_source, partial_kind,
    partial_wrapping, PartialKind,
};
use graphql_accelerator::errors::SyntaxErrorInfo;
use graphql_accelerator::lower::ctx::build_line_starts;
use graphql_accelerator::options::ParserOptions;
use graphql_accelerator::tokens::{build_chain, chain_from_tokens, ChainToken};

fn tok(t: &ChainToken) -> (&str, i64, i64, i64, i64, Option<&str>) {
    (t.kind.as_str(), t.start, t.end, t.line, t.column, t.value.as_deref())
}

#[test]
fn document_without_errors() {
    assert!(check_document("{ a }", 256).is_none());
    assert!(check_document("query Q($v: Int = 1) { a(x: $v) { b } }", 256).is_none());
    assert!(check_definition("type T { f: Int }", 256).is_none());
}

#[test]
fn document_missing_selection() {
    let e = check_document("{", 256).unwrap();
    assert_eq!(e.position, 1);
    assert_eq!(e.description, "Expected Name, found <EOF>");
}

#[test]
fn document_unclosed_selection_set() {
    let e = check_document("{ a", 256).unwrap();
    assert_eq!(e.position, 3);
    assert_eq!(e.description, "Expected Name, found <EOF>");
}

#[test]
fn document_recursion_limit() {
    let e = check_document("{a{b{c}}}", 1).unwrap();
    assert_eq!(e.description, "Recursion depth limit of 1 exceeded");
    assert!(check_document("{a{b{c}}}", 256).is_none());
}

#[test]
fn type_references() {
    assert!(check_type("[Int!]!", 256).is_none());
    let e = check_type("[Int", 256).unwrap();
    assert_eq!(e.position, 4);
    assert_eq!(e.description, "Expected ], found <EOF>");
}

#[test]
fn parse_with_options() {
    let mut o = ParserOptions::default();
    o.allow_legacy_sdl_empty_fields = true;
    let p = parse_document_source("type A {}", &o).ok().unwrap();
    assert_eq!(p.body, "type A ");
    assert!(p.fragment_vars.is_empty());
    let mut f = ParserOptions::default();
    f.experimental_fragment_variables = true;
    let q = parse_document_source("fragment F($a: Int) on T { x }", &f).ok().unwrap();
    assert_eq!(q.body, "fragment F  on T { x }");
    assert_eq!(q.fragment_vars, vec![("F".to_string(), "$a: Int".to_string())]);
    let e = parse_document_source("{", &ParserOptions::default()).err().unwrap();
    assert_eq!(e.position, 1);
}

#[test]
fn partial_kinds() {
    assert_eq!(partial_kind("valueLiteral"), PartialKind::Value);
    assert_eq!(partial_kind("constValueLiteral"), PartialKind::Value);
    assert_eq!(partial_kind("type"), PartialKind::Type);
    assert_eq!(partial_kind("constDirectives"), PartialKind::Directives);
    assert_eq!(partial_kind("enumTypeExtension"), PartialKind::Definition);
    assert_eq!(partial_kind("document"), PartialKind::Unsupported);
}

#[test]
fn partial_wrappings() {
    let w = partial_wrapping(PartialKind::Value, "[1, 2]").unwrap();
    assert_eq!(w.source, "query{__wrap(__a:[1, 2])}");
    assert_eq!(w.prefix_len, 17);
    assert!(check_wrapped(&w, "[1, 2]", 256).is_none());
    let n = partial_wrapping(PartialKind::Name, "foo").unwrap();
    assert_eq!(n.source, "{ __wrap: foo }");
    assert_eq!(n.prefix_len, 10);
    assert!(partial_wrapping(PartialKind::Type, "Int").is_none());
    assert!(partial_wrapping(PartialKind::Definition, "type A").is_none());
}

#[test]
fn partial_error_in_user_coordinates() {
    let w = partial_wrapping(PartialKind::Value, "").unwrap();
    let e = check_wrapped(&w, "", 256).unwrap();
    assert_eq!(e.position, 0);
    assert_eq!(e.description, "Expected \"valid value\", found <EOF>");
}

#[test]
fn const_parsers_reject_variables() {
    assert_eq!(const_variable_position("constValueLiteral", "[1, $a]"), Some(4));
    assert_eq!(const_variable_position("valueLiteral", "[1, $a]"), None);
    assert_eq!(const_variable_position("constArgument", "a: 1"), None);
    // A `$` inside a string, a block string or a comment is no variable.
    assert_eq!(const_variable_position("constValueLiteral", "\"$5\""), None);
    assert_eq!(const_variable_position("constValueLiteral", "\"\"\"$x\"\"\" $y"), Some(9));
    assert_eq!(const_variable_position("constValueLiteral", "\"a\\\"$\" $z"), Some(7));
    assert_eq!(const_variable_position("constDirectives", "# $c\n@d(a: $x)"), Some(11));
    let e = const_variable_error("constDirective", "@d(a: $x)").unwrap();
    assert_eq!(e.position, 6);
    assert_eq!(e.description, "Unexpected $");
    assert!(const_variable_error("directive", "@d(a: $x)").is_none());
}

#[test]
fn fragment_variable_definitions() {
    let w = fragment_variables_wrapping("$a: Int = 1");
    assert_eq!(w.source, "query ($a: Int = 1) { __t }");
    assert_eq!(w.prefix_len, 7);
    assert!(fragment_variables_parse(&w));
    assert!(!fragment_variables_parse(&fragment_variables_wrapping("$a Int")));
}

#[test]
fn chain_of_simple_document() {
    let body = "{ a }";
    let chain = build_chain(body, &build_line_starts(body)).unwrap();
    let got: Vec<_> = chain.iter().map(tok).collect();
    assert_eq!(got, vec![
        ("<SOF>", 0, 0, 1, 1, None),
        ("{", 0, 1, 1, 1, None),
        ("Name", 2, 3, 1, 3, Some("a")),
        ("}", 4, 5, 1, 5, None),
        ("<EOF>", 5, 5, 1, 6, None),
    ]);
}

#[test]
fn chain_comments_strings_and_lines() {
    let body = "# hi\nx(s: \"a\\nb\", t: \"\"\"\n  q\n\"\"\")";
    let chain = build_chain(body, &build_line_starts(body)).unwrap();
    let got: Vec<_> = chain.iter().map(tok).collect();
    assert_eq!(got[1], ("Comment", 0, 4, 1, 1, Some("hi")));
    assert_eq!(got[2], ("Name", 5, 6, 2, 1, Some("x")));
    assert_eq!(got[6], ("String", 10, 16, 2, 6, Some("a\nb")));
    assert_eq!(got[9], ("BlockString", 21, 32, 2, 17, Some("q")));
    assert_eq!(got.last().unwrap().0, "<EOF>");
    assert_eq!(got.last().unwrap().1, 33);
}

#[test]
fn chain_from_given_tokens() {
    let toks = vec![
        RawToken { code: 18, data: "ab".to_string(), index: 0 },
        RawToken { code: 6, data: ",".to_string(), index: 2 },
        RawToken { code: 0, data: "\n".to_string(), index: 3 },
        RawToken { code: 20, data: "7".to_string(), index: 4 },
        RawToken { code: 17, data: "".to_string(), index: 5 },
        RawToken { code: 18, data: "zz".to_string(), index: 5 },
    ];
    let body = "ab,\n7";
    let chain = chain_from_tokens(body, &build_line_starts(body), &toks).unwrap();
    let got: Vec<_> = chain.iter().map(tok).collect();
    assert_eq!(got, vec![
        ("<SOF>", 0, 0, 1, 1, None),
        ("Name", 0, 2, 1, 1, Some("ab")),
        ("Int", 4, 5, 2, 1, Some("7")),
        ("<EOF>", 5, 5, 2, 2, None),
    ]);
}

#[test]
fn chain_ignores_added_whitespace_and_commas() {
    let body = "ab,\n7";
    let starts = build_line_starts(body);
    let base = vec![
        RawToken { code: 18, data: "ab".to_string(), index: 0 },
        RawToken { code: 20, data: "7".to_string(), index: 4 },
        RawToken { code: 17, data: "".to_string(), index: 5 },
    ];
    let mut padded = vec![RawToken { code: 6, data: ",".to_string(), index: 2 }];
    padded.push(RawToken { code: 18, data: "ab".to_string(), index: 0 });
    padded.push(RawToken { code: 0, data: "\n".to_string(), index: 3 });
    padded.push(RawToken { code: 20, data: "7".to_string(), index: 4 });
    padded.push(RawToken { code: 17, data: "".to_string(), index: 5 });
    let a = chain_from_tokens(body, &starts, &base).unwrap();
    let b = chain_from_tokens(body, &starts, &padded).unwrap();
    let ta: Vec<_> = a.iter().map(tok).collect();
    let tb: Vec<_> = b.iter().map(tok).collect();
    assert_eq!(ta, tb);
}

#[test]
fn chain_without_tokens_or_unknown_kind() {
    let empty: Vec<RawToken> = Vec::new();
    let chain = chain_from_tokens("xy", &build_line_starts("xy"), &empty).unwrap();
    let got: Vec<_> = chain.iter().map(tok).collect();
    assert_eq!(got, vec![("<SOF>", 0, 0, 1, 1, None), ("<EOF>", 2, 2, 1, 3, None)]);
    let bad = vec![RawToken { code: 40, data: "x".to_string(), index: 0 }];
    assert!(chain_from_tokens("xy", &build_line_starts("xy"), &bad).is_none());
}

#[test]
fn error_reports_from_given_errors() {
    let e = |m: &str, i: usize| Some(SyntaxErrorInfo { message: m.to_string(), index: i });
    assert!(error_report(None, 0, true, 256, "").is_none());
    let r = error_report(e("expected R_CURLY, got EOF", 20), 17, false, 256, "{ a").unwrap();
    assert_eq!(r.position, 3);
    assert_eq!(r.description, "Expected Name, found <EOF>");
    assert_eq!(error_report(e("x", 5), 17, false, 256, "").unwrap().position, 0);
    let ext = e("invalid type system extension", 0);
    assert_eq!(error_report(ext, 0, true, 256, "\"d\" extend type A").unwrap().position, 4);
    let ext2 = e("invalid type system extension", 0);
    assert_eq!(error_report(ext2, 0, false, 256, "\"d\" extend type A").unwrap().position, 0);
}
