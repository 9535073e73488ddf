//! AST node classes: the list-typed properties that a node constructor
//! fills with an empty `NodeList` when the caller left them unset.

use vstd::prelude::*;

verus! {

pub open spec fn strs_view(v: Seq<&str>) -> Seq<Seq<char>> {
    v.map_values(|s: &str| s@)
}

/// The properties defaulted to an empty `NodeList` for each node kind, as the
/// PHP node constructors (`FieldNode`, `OperationDefinitionNode`, …) do.
pub open spec fn defaults_spec(kind: Seq<char>) -> Seq<Seq<char>> {
    if kind == "OperationDefinition"@ {
        seq!["directives"@, "variableDefinitions"@]
    } else if kind == "Field"@ {
        seq!["directives"@, "arguments"@]
    } else if kind == "FragmentDefinition"@ || kind == "FragmentSpread"@ || kind
        == "InlineFragment"@ || kind == "VariableDefinition"@ || kind == "EnumTypeDefinition"@
        || kind == "EnumTypeExtension"@ || kind == "InputObjectTypeDefinition"@ {
        seq!["directives"@]
    } else if kind == "Directive"@ || kind == "DirectiveDefinition"@ {
        seq!["arguments"@]
    } else {
        seq![]
    }
}

pub fn defaults_for_kind(kind: &str) -> (r: Vec<&'static str>)
    ensures
        strs_view(r@) == defaults_spec(kind@),
{
    let k = crate::text::chars_of(kind);
    let is = |s: &str| -> (b: bool)
        ensures
            b == (k@ == s@),
        { crate::text::eq_lit(&k, s) };
    let r: Vec<&'static str> = if is("OperationDefinition") {
        vec!["directives", "variableDefinitions"]
    } else if is("Field") {
        vec!["directives", "arguments"]
    } else if is("FragmentDefinition") || is("FragmentSpread") || is("InlineFragment") || is(
        "VariableDefinition",
    ) || is("EnumTypeDefinition") || is("EnumTypeExtension") || is("InputObjectTypeDefinition") {
        vec!["directives"]
    } else if is("Directive") || is("DirectiveDefinition") {
        vec!["arguments"]
    } else {
        Vec::new()
    };
    assert(strs_view(r@) =~= defaults_spec(kind@));
    r
}

} // verus!
