use graphql_accelerator::options::{OptionsValue, ParserOptions, PhpScalar, DEFAULT_RECURSION_LIMIT};

fn entry(k: &str, v: PhpScalar) -> (String, PhpScalar) {
    (k.to_string(), v)
}

#[test]
fn options_default_without_value() {
    let o = ParserOptions::from_zval(None);
    assert!(!o.no_location);
    assert!(!o.allow_legacy_sdl_empty_fields);
    assert!(!o.allow_legacy_sdl_implements_interfaces);
    assert!(!o.experimental_fragment_variables);
    assert_eq!(o.recursion_limit, 256);
    assert_eq!(DEFAULT_RECURSION_LIMIT, 256);
    assert_eq!(o, ParserOptions::default());
}

#[test]
fn options_null_and_non_array_give_defaults() {
    assert_eq!(ParserOptions::from_zval(Some(&OptionsValue::Null)), ParserOptions::default());
    assert_eq!(ParserOptions::from_zval(Some(&OptionsValue::Other)), ParserOptions::default());
}

#[test]
fn options_read_booleans() {
    let v = OptionsValue::Array(vec![
        entry("noLocation", PhpScalar::Bool(true)),
        entry("allowLegacySDLEmptyFields", PhpScalar::Bool(true)),
        entry("allowLegacySDLImplementsInterfaces", PhpScalar::Bool(false)),
        entry("experimentalFragmentVariables", PhpScalar::Bool(true)),
    ]);
    let o = ParserOptions::from_zval(Some(&v));
    assert!(o.no_location);
    assert!(o.allow_legacy_sdl_empty_fields);
    assert!(!o.allow_legacy_sdl_implements_interfaces);
    assert!(o.experimental_fragment_variables);
    assert_eq!(o.recursion_limit, 256);
}

#[test]
fn options_ignore_values_of_other_types() {
    let v = OptionsValue::Array(vec![
        entry("noLocation", PhpScalar::Long(1)),
        entry("recursionLimit", PhpScalar::Bool(true)),
        entry("nolocation", PhpScalar::Bool(true)),
    ]);
    let o = ParserOptions::from_zval(Some(&v));
    assert!(!o.no_location);
    assert_eq!(o.recursion_limit, 256);
}

#[test]
fn options_recursion_limit() {
    let v = OptionsValue::Array(vec![entry("recursionLimit", PhpScalar::Long(10))]);
    let o = ParserOptions::from_zval(Some(&v));
    assert_eq!(o.recursion_limit, 10);
    assert_eq!(o.apollo_recursion_limit(), 10);
    let zero = OptionsValue::Array(vec![entry("recursionLimit", PhpScalar::Long(0))]);
    assert_eq!(ParserOptions::from_zval(Some(&zero)).recursion_limit, usize::MAX);
    let neg = OptionsValue::Array(vec![entry("recursionLimit", PhpScalar::Long(-3))]);
    assert_eq!(ParserOptions::from_zval(Some(&neg)).apollo_recursion_limit(), usize::MAX);
}

#[test]
fn options_first_entry_of_a_key_counts() {
    let v = OptionsValue::Array(vec![
        entry("noLocation", PhpScalar::Null),
        entry("noLocation", PhpScalar::Bool(true)),
    ]);
    assert!(!ParserOptions::from_zval(Some(&v)).no_location);
}
