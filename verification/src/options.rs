//! `ParserOptions` — the second argument to `Parser::parse()` and friends.
//!
//! PHP signature: `Parser::parse(string|Source $source, array $options = [])`.
//! Recognised keys:
//!
//! | key | PHP type | default |
//! | --- | -------- | ------- |
//! | `noLocation` | `bool` | `false` |
//! | `allowLegacySDLEmptyFields` | `bool` | `false` |
//! | `allowLegacySDLImplementsInterfaces` | `bool` | `false` |
//! | `experimentalFragmentVariables` | `bool` | `false` |
//! | `recursionLimit` | `int` (0 ⇒ unlimited) | 256 |
//!
//! The PHP options value is handed to this module as an [`OptionsValue`]: the
//! PHP type of the argument and, for an array, its entries reduced to the
//! scalar kinds that the options read.

use vstd::prelude::*;

verus! {

pub const DEFAULT_RECURSION_LIMIT: usize = 256;

/// A PHP value as far as the options reader distinguishes it.
#[derive(Debug, Clone, Copy, PartialEq, Eq)]
pub enum PhpScalar {
    Null,
    Bool(bool),
    Long(i64),
    /// Any other PHP type (string, float, array, object, ...).
    Other,
}

/// The PHP value passed as `$options`.
#[derive(Debug, Clone, PartialEq, Eq)]
pub enum OptionsValue {
    Null,
    /// A PHP array: its string keys with their values, in array order. A PHP
    /// array holds each key once.
    Array(Vec<(String, PhpScalar)>),
    /// Any other PHP type.
    Other,
}

#[derive(Debug, Clone, Copy, PartialEq, Eq)]
pub struct ParserOptions {
    pub no_location: bool,
    pub allow_legacy_sdl_empty_fields: bool,
    pub allow_legacy_sdl_implements_interfaces: bool,
    pub experimental_fragment_variables: bool,
    pub recursion_limit: usize,
}

/// The defaults of the table above.
pub open spec fn default_options() -> ParserOptions {
    ParserOptions {
        no_location: false,
        allow_legacy_sdl_empty_fields: false,
        allow_legacy_sdl_implements_interfaces: false,
        experimental_fragment_variables: false,
        recursion_limit: DEFAULT_RECURSION_LIMIT,
    }
}

/// The value stored under `key` in a PHP array, if any.
pub open spec fn lookup(entries: Seq<(String, PhpScalar)>, key: Seq<char>) -> Option<PhpScalar>
    decreases entries.len(),
{
    if entries.len() == 0 {
        None
    } else if entries[0].0@ == key {
        Some(entries[0].1)
    } else {
        lookup(entries.drop_first(), key)
    }
}

/// A boolean option: kept as is unless the key holds a PHP `bool`.
pub open spec fn bool_option(entries: Seq<(String, PhpScalar)>, key: Seq<char>, dflt: bool) -> bool {
    match lookup(entries, key) {
        Some(PhpScalar::Bool(b)) => b,
        _ => dflt,
    }
}

/// `recursionLimit`: a PHP `int` of at most 0 means unlimited.
pub open spec fn limit_option(entries: Seq<(String, PhpScalar)>) -> usize {
    match lookup(entries, "recursionLimit"@) {
        Some(PhpScalar::Long(n)) => if n <= 0 {
            usize::MAX
        } else {
            n as usize
        },
        _ => DEFAULT_RECURSION_LIMIT,
    }
}

/// The options that a PHP `$options` value selects.
pub open spec fn options_of(zv: Option<OptionsValue>) -> ParserOptions {
    match zv {
        Some(OptionsValue::Array(entries)) => {
            let e = entries@;
            ParserOptions {
                no_location: bool_option(e, "noLocation"@, false),
                allow_legacy_sdl_empty_fields: bool_option(e, "allowLegacySDLEmptyFields"@, false),
                allow_legacy_sdl_implements_interfaces: bool_option(
                    e,
                    "allowLegacySDLImplementsInterfaces"@,
                    false,
                ),
                experimental_fragment_variables: bool_option(
                    e,
                    "experimentalFragmentVariables"@,
                    false,
                ),
                recursion_limit: limit_option(e),
            }
        },
        _ => default_options(),
    }
}

impl Default for ParserOptions {
    fn default() -> (r: Self)
        ensures
            r == default_options(),
    {
        Self {
            no_location: false,
            allow_legacy_sdl_empty_fields: false,
            allow_legacy_sdl_implements_interfaces: false,
            experimental_fragment_variables: false,
            recursion_limit: DEFAULT_RECURSION_LIMIT,
        }
    }
}

/// `String` equality with a literal.
fn eq_str(a: &String, b: &str) -> (r: bool)
    ensures
        r == (a@ == b@),
{
    let x = crate::text::chars_of(a.as_str());
    let y = crate::text::chars_of(b);
    if x.len() != y.len() {
        return false;
    }
    let mut i: usize = 0;
    while i < x.len()
        invariant
            i <= x.len(),
            x.len() == y.len(),
            x@ == a@,
            y@ == b@,
            forall|k: int| 0 <= k < i ==> x@[k] == y@[k],
        decreases x.len() - i,
    {
        if x[i] != y[i] {
            assert(x@[i as int] != y@[i as int]);
            return false;
        }
        i += 1;
    }
    assert(x@ =~= y@);
    true
}

/// The value stored under `key`, by a scan of the entries.
fn find_entry(entries: &Vec<(String, PhpScalar)>, key: &str) -> (r: Option<PhpScalar>)
    ensures
        r == lookup(entries@, key@),
{
    let mut i: usize = 0;
    assert(entries@.skip(0) =~= entries@);
    while i < entries.len()
        invariant
            i <= entries.len(),
            lookup(entries@, key@) == lookup(entries@.skip(i as int), key@),
        decreases entries.len() - i,
    {
        assert(entries@.skip(i as int).drop_first() =~= entries@.skip(i + 1));
        if eq_str(&entries[i].0, key) {
            return Some(entries[i].1);
        }
        i += 1;
    }
    None
}

fn read_bool(entries: &Vec<(String, PhpScalar)>, key: &str, dflt: bool) -> (r: bool)
    ensures
        r == bool_option(entries@, key@, dflt),
{
    match find_entry(entries, key) {
        Some(PhpScalar::Bool(b)) => b,
        _ => dflt,
    }
}

impl ParserOptions {
    /// Read the options from a PHP `$options` value. No value, `null` and
    /// anything but an array give the defaults; inside an array a key is only
    /// taken when it holds a value of the expected PHP type.
    pub fn from_zval(zv: Option<&OptionsValue>) -> (r: Self)
        ensures
            r == options_of(
                match zv {
                    Some(v) => Some(*v),
                    None => None,
                },
            ),
    {
        let mut out = Self::default();
        let Some(zv) = zv else { return out };
        let entries = match zv {
            OptionsValue::Array(e) => e,
            _ => return out,
        };
        out.no_location = read_bool(entries, "noLocation", out.no_location);
        out.allow_legacy_sdl_empty_fields = read_bool(
            entries,
            "allowLegacySDLEmptyFields",
            out.allow_legacy_sdl_empty_fields,
        );
        out.allow_legacy_sdl_implements_interfaces = read_bool(
            entries,
            "allowLegacySDLImplementsInterfaces",
            out.allow_legacy_sdl_implements_interfaces,
        );
        out.experimental_fragment_variables = read_bool(
            entries,
            "experimentalFragmentVariables",
            out.experimental_fragment_variables,
        );
        if let Some(PhpScalar::Long(n)) = find_entry(entries, "recursionLimit") {
            // PHP convention: 0 means "no limit"; the parser wants a real number.
            out.recursion_limit = if n <= 0 {
                usize::MAX
            } else {
                n as usize
            };
        }
        out
    }

    /// `recursion_limit` as handed to apollo-parser (whose own default is 4096;
    /// this one defaults to 256, as the PHP parser does).
    pub fn apollo_recursion_limit(&self) -> (r: usize)
        ensures
            r == self.recursion_limit,
    {
        self.recursion_limit
    }
}

/// Without an options array every option keeps its default, and in an array a
/// `recursionLimit` of 0 or less lifts the limit.
pub proof fn law_option_defaults(entries: Vec<(String, PhpScalar)>)
    ensures
        options_of(None) == default_options(),
        options_of(Some(OptionsValue::Null)) == default_options(),
        options_of(Some(OptionsValue::Other)) == default_options(),
        lookup(entries@, "recursionLimit"@) matches Some(PhpScalar::Long(n)) && n <= 0
            ==> options_of(Some(OptionsValue::Array(entries))).recursion_limit == usize::MAX,
        lookup(entries@, "recursionLimit"@) is None ==> options_of(
            Some(OptionsValue::Array(entries)),
        ).recursion_limit == DEFAULT_RECURSION_LIMIT,
{
}

} // verus!
