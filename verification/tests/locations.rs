use graphql_accelerator::classes::nodes::defaults_for_kind;
use graphql_accelerator::classes::support::compute_line_column;
use graphql_accelerator::lower::ctx::{build_line_starts, variable_name_span, LowerCtx};
use graphql_accelerator::lower::{directive_location_name, operation_type_name};
use graphql_accelerator::options::ParserOptions;
use graphql_accelerator::source::{build_source_fields, coerce_source, source_length, SourceArg};

#[test]
fn line_starts_all_line_endings() {
    assert_eq!(build_line_starts("a\nb\r\nc\rd"), vec![0, 2, 5, 7]);
    assert_eq!(build_line_starts(""), vec![0]);
    assert_eq!(build_line_starts("\n"), vec![0, 1]);
    assert_eq!(build_line_starts("é\r"), vec![0, 3]);
    // One more entry than line breaks, `\r\n` counted once.
    assert_eq!(build_line_starts("\r\n\r\n\n\r").len(), 5);
}

#[test]
fn line_column_basic() {
    let body = "ab\ncd\r\nef\rg\u{2028}h";
    assert_eq!(compute_line_column(body, 0), (1, 1));
    assert_eq!(compute_line_column(body, 1), (1, 2));
    assert_eq!(compute_line_column(body, 3), (2, 1));
    assert_eq!(compute_line_column(body, 7), (3, 1));
    assert_eq!(compute_line_column(body, 10), (4, 1));
    assert_eq!(compute_line_column(body, 12), (5, 1));
}

#[test]
fn line_column_counts_characters() {
    assert_eq!(compute_line_column("éé\nx", 2), (1, 3));
    assert_eq!(compute_line_column("éé\nx", 3), (2, 1));
}

#[test]
fn line_column_negative_and_past_end() {
    assert_eq!(compute_line_column("abc", -5), (1, 1));
    assert_eq!(compute_line_column("a\nb", 10), (2, 9));
}

#[test]
fn line_column_inside_crlf() {
    // Position 2 falls between `\r` and `\n`: the `\r` before it ends line 1.
    assert_eq!(compute_line_column("a\r\nb", 2), (2, 1));
    assert_eq!(compute_line_column("a\r\nb", 3), (2, 1));
    assert_eq!(compute_line_column("a\r\nb", 4), (2, 2));
}

#[test]
fn line_column_large_position() {
    assert_eq!(compute_line_column("ab", i64::MAX), (1, i64::MAX));
}

#[test]
fn lower_ctx_spans() {
    let ctx = LowerCtx::new("x\ny".to_string(), ParserOptions::default());
    assert_eq!(ctx.line_starts, vec![0, 2]);
    assert_eq!(ctx.location_span(3, 7), Some((3, 7)));
    let shifted = LowerCtx::new("v".to_string(), ParserOptions::default()).with_prefix_offset(5);
    assert_eq!(shifted.prefix_offset, 5);
    assert_eq!(shifted.location_span(3, 7), Some((0, 2)));
    let mut opts = ParserOptions::default();
    opts.no_location = true;
    assert_eq!(LowerCtx::new("v".to_string(), opts).location_span(0, 1), None);
}

#[test]
fn variable_name_skips_dollar() {
    assert_eq!(variable_name_span(4, 9), (5, 9));
    assert_eq!(variable_name_span(u32::MAX, 3), (0, 3));
}

#[test]
fn node_defaults() {
    assert_eq!(defaults_for_kind("OperationDefinition"), vec!["directives", "variableDefinitions"]);
    assert_eq!(defaults_for_kind("Field"), vec!["directives", "arguments"]);
    assert_eq!(defaults_for_kind("InlineFragment"), vec!["directives"]);
    assert_eq!(defaults_for_kind("DirectiveDefinition"), vec!["arguments"]);
    assert!(defaults_for_kind("Name").is_empty());
}

#[test]
fn operation_names() {
    assert_eq!(operation_type_name(false, true, false), "mutation");
    assert_eq!(operation_type_name(false, false, true), "subscription");
    assert_eq!(operation_type_name(false, false, false), "query");
    assert_eq!(operation_type_name(true, false, false), "query");
}

#[test]
fn directive_location_trimmed() {
    assert_eq!(directive_location_name("  FIELD \n"), "FIELD");
}

#[test]
fn source_coercion() {
    let s = coerce_source(&SourceArg::Text("{ a }".to_string())).ok().unwrap();
    assert_eq!(s.body, "{ a }");
    let o = coerce_source(&SourceArg::SourceObject(Some("q".to_string()))).ok().unwrap();
    assert_eq!(o.body, "q");
    assert_eq!(coerce_source(&SourceArg::SourceObject(None)).err(), Some("Source missing $body"));
    assert_eq!(
        coerce_source(&SourceArg::Other).err(),
        Some("source must be a string or an instance of GraphQL\\Language\\Source")
    );
}

#[test]
fn source_fields() {
    let f = build_source_fields("héllo", Some("My"));
    assert_eq!(f.body, "héllo");
    assert_eq!(f.name, Some("My".to_string()));
    assert_eq!(build_source_fields("", Some("")).name, None);
    assert_eq!(build_source_fields("x", None).name, None);
    assert_eq!(source_length("héllo"), 5);
    assert_eq!(source_length(""), 0);
}
