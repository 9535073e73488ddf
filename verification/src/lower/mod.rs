//! The computations behind lowering parsed GraphQL into PHP AST objects.

pub mod values;
pub mod ctx;

use vstd::prelude::*;

verus! {

/// The `operation` of an operation definition or root operation type:
/// `query`, `mutation` or `subscription` by the keyword present, `query`
/// when there is none.
pub fn operation_type_name(query: bool, mutation: bool, subscription: bool) -> (r: &'static str)
    ensures
        r@ == if query {
            "query"@
        } else if mutation {
            "mutation"@
        } else if subscription {
            "subscription"@
        } else {
            "query"@
        },
{
    if query {
        "query"
    } else if mutation {
        "mutation"
    } else if subscription {
        "subscription"
    } else {
        "query"
    }
}

/// The name of a directive location: its source text, trimmed.
pub fn directive_location_name(text: &str) -> (r: String)
    ensures
        r@ == crate::text::trim_seq(text@),
{
    crate::text::string_of(&crate::text::trim_by(&crate::text::chars_of(text), false))
}

} // verus!
