//! Resolving the user-supplied source of a parse into its text, and the
//! fields of a `GraphQL\Language\Source` object made for a text.

use vstd::prelude::*;

verus! {

/// The first argument of a parse, as far as resolving it goes.
pub enum SourceArg {
    /// An instance of `GraphQL\Language\Source`, with its `$body` if that
    /// property reads as a string.
    SourceObject(Option<String>),
    /// A PHP string.
    Text(String),
    /// Anything else.
    Other,
}

/// The resolved source text.
pub struct SourceInput {
    pub body: String,
}

pub open spec fn coerce_spec(arg: SourceArg) -> Result<Seq<char>, Seq<char>> {
    match arg {
        SourceArg::SourceObject(Some(b)) => Ok(b@),
        SourceArg::SourceObject(None) => Err("Source missing $body"@),
        SourceArg::Text(t) => Ok(t@),
        SourceArg::Other => Err(
            "source must be a string or an instance of GraphQL\\Language\\Source"@,
        ),
    }
}

/// Resolve the user-supplied source into its body text. A `Source`
/// instance is re-used as it stands; a string gets a fresh `Source`.
pub fn coerce_source(arg: &SourceArg) -> (r: Result<SourceInput, &'static str>)
    ensures
        match r {
            Ok(s) => coerce_spec(*arg) == Ok::<Seq<char>, Seq<char>>(s.body@),
            Err(m) => coerce_spec(*arg) == Err::<Seq<char>, Seq<char>>(m@),
        },
{
    match arg {
        SourceArg::SourceObject(Some(b)) => Ok(SourceInput { body: b.clone() }),
        SourceArg::SourceObject(None) => Err("Source missing $body"),
        SourceArg::Text(t) => Ok(SourceInput { body: t.clone() }),
        SourceArg::Other => Err("source must be a string or an instance of GraphQL\\Language\\Source"),
    }
}

/// The fields of a `Source` made for a text.
pub struct SourceFields {
    pub body: String,
    /// `$name`, when one is given that is not empty; otherwise the class
    /// default (`GraphQL request`) stays.
    pub name: Option<String>,
}

/// The fields set on a `Source` object made for `body` and an optional name;
/// the other fields (`length`, `locationOffset`) keep their declared
/// defaults.
pub fn build_source_fields(body: &str, name: Option<&str>) -> (r: SourceFields)
    ensures
        r.body@ == body@,
        match name {
            Some(n) => if n@.len() > 0 {
                r.name matches Some(x) && x@ == n@
            } else {
                r.name is None
            },
            None => r.name is None,
        },
{
    let cs = crate::text::chars_of(body);
    let name = match name {
        Some(n) => {
            let nc = crate::text::chars_of(n);
            if nc.len() > 0 {
                Some(crate::text::string_of(&nc))
            } else {
                None
            }
        },
        None => None,
    };
    SourceFields { body: crate::text::string_of(&cs), name }
}

/// `$length` as the `Source` constructor sets it: the number of characters.
pub fn source_length(body: &str) -> (r: i64)
    ensures
        r == (body@.len() as usize) as i64,
{
    let cs = crate::text::chars_of(body);
    cs.len() as i64
}

} // verus!
