use graphql_accelerator::classes::parser::{
    extract_fragment_variables, fragment_vars_for, prepare_source, preprocess_empty_sdl_braces,
    preprocess_legacy_implements,
};
use graphql_accelerator::options::ParserOptions;
use graphql_accelerator::text::matches_word;

#[test]
fn legacy_implements_inserts_ampersands() {
    let src = "type A implements B C D { f: T }";
    let out = preprocess_legacy_implements(src);
    assert_eq!(out, "type A implements B&C&D { f: T }");
    assert_eq!(out.len(), src.len());
}

#[test]
fn legacy_implements_keeps_existing_ampersands() {
    assert_eq!(preprocess_legacy_implements("type A implements & B & C {}"), "type A implements & B & C {}");
    assert_eq!(preprocess_legacy_implements("type A implements B&C {}"), "type A implements B&C {}");
    assert_eq!(preprocess_legacy_implements("implements\tA\t\tB"), "implements\tA\t&B");
}

#[test]
fn legacy_implements_only_whole_keyword() {
    assert_eq!(preprocess_legacy_implements("implementsX A B"), "implementsX A B");
    assert_eq!(preprocess_legacy_implements("ximplements A B"), "ximplements A B");
    assert_eq!(preprocess_legacy_implements("implements A 1"), "implements A 1");
    assert_eq!(preprocess_legacy_implements("implements A\nB"), "implements A\nB");
}

#[test]
fn legacy_implements_twice_is_once() {
    for src in [
        "type A implements B C D { f: T }",
        "implements A  B\t\tC",
        "interface I implements A B & C",
        "type A implements & B C {}",
        "implements A 1 B",
    ] {
        let once = preprocess_legacy_implements(src);
        assert_eq!(preprocess_legacy_implements(&once), once);
    }
    assert_eq!(preprocess_legacy_implements("implements A  B\t\tC"), "implements A &B\t&C");
}

#[test]
fn legacy_implements_keeps_other_text() {
    // Text outside the rewrite comes back byte for byte.
    assert_eq!(preprocess_legacy_implements("é"), "é");
    let src = "type Café implements Ä B { f: T }";
    let out = preprocess_legacy_implements(src);
    assert_eq!(out, "type Café implements Ä B { f: T }");
    assert_eq!(out.len(), src.len());
    let out2 = preprocess_legacy_implements("type T implements A B # ünïcode");
    assert_eq!(out2, "type T implements A&B # ünïcode");
}

#[test]
fn fragment_variables_keep_other_text() {
    let (out, vars) = extract_fragment_variables("query { é }");
    assert_eq!(out, "query { é }");
    assert!(vars.is_empty());
    let (out2, vars2) = extract_fragment_variables("fragment F($a: String = \"ü\") on T { ö }");
    assert_eq!(out2, "fragment F  on T { ö }");
    assert_eq!(vars2, vec![("F".to_string(), "$a: String = \"ü\"".to_string())]);
}

#[test]
fn empty_braces_removed() {
    assert_eq!(preprocess_empty_sdl_braces("type A {}"), "type A ");
    assert_eq!(preprocess_empty_sdl_braces("type A {  \n }\ntype B { f: T }"), "type A \ntype B { f: T }");
    assert_eq!(preprocess_empty_sdl_braces("{{}}"), "{}");
    assert_eq!(preprocess_empty_sdl_braces("{\u{3000}}x"), "x");
}

#[test]
fn empty_braces_without_brace_is_identity() {
    let s = "type A implements B éè";
    assert_eq!(preprocess_empty_sdl_braces(s), s);
}

#[test]
fn fragment_variables_extracted() {
    let (out, vars) = extract_fragment_variables("fragment Foo($a: Int = 1) on T { f }");
    assert_eq!(out, "fragment Foo  on T { f }");
    assert_eq!(vars, vec![("Foo".to_string(), "$a: Int = 1".to_string())]);
}

#[test]
fn fragment_variables_nested_parens_and_spacing() {
    let (out, vars) = extract_fragment_variables("query Q { a }\nfragment  F ($x: [Int] @d(a: 1)) on T { b }");
    assert_eq!(out, "query Q { a }\nfragment  F  on T { b }");
    assert_eq!(vars, vec![("F".to_string(), "$x: [Int] @d(a: 1)".to_string())]);
}

#[test]
fn fragment_without_variables_untouched() {
    let src = "fragment F on T { b } # fragments";
    let (out, vars) = extract_fragment_variables(src);
    assert_eq!(out, src);
    assert!(vars.is_empty());
    let (out2, vars2) = extract_fragment_variables("fragment F(a");
    assert_eq!(out2, "fragment F(a");
    assert!(vars2.is_empty());
}

#[test]
fn fragment_vars_lookup_first_match() {
    let vars = vec![
        ("A".to_string(), "$a: Int".to_string()),
        ("B".to_string(), "$b: Int".to_string()),
        ("A".to_string(), "$c: Int".to_string()),
    ];
    assert_eq!(fragment_vars_for(&vars, "A"), Some("$a: Int".to_string()));
    assert_eq!(fragment_vars_for(&vars, "B"), Some("$b: Int".to_string()));
    assert_eq!(fragment_vars_for(&vars, "C"), None);
}

#[test]
fn word_boundaries() {
    let b = "a fragment_x fragment".as_bytes();
    assert!(!matches_word(b, 2, b"fragment"));
    assert!(matches_word(b, 13, b"fragment"));
    assert!(!matches_word(b, 20, b"fragment"));
}

#[test]
fn prepare_source_applies_options_in_order() {
    let mut o = ParserOptions::default();
    o.allow_legacy_sdl_empty_fields = true;
    o.allow_legacy_sdl_implements_interfaces = true;
    o.experimental_fragment_variables = true;
    let p = prepare_source("type A implements B C {}\nfragment F($v: Int) on A { x }", &o);
    assert_eq!(p.body, "type A implements B&C \nfragment F  on A { x }");
    assert_eq!(p.fragment_vars, vec![("F".to_string(), "$v: Int".to_string())]);
    let plain = prepare_source("type A implements B C {}", &ParserOptions::default());
    assert_eq!(plain.body, "type A implements B C {}");
    assert!(plain.fragment_vars.is_empty());
}
