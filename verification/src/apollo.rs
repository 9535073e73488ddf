//! The calls into apollo-parser: lexing a source into tokens, and the first
//! error that parsing a document or a type reports.

use vstd::prelude::*;
use vstd::utf8::*;
use crate::errors::SyntaxErrorInfo;
use crate::text::utf8_len;

verus! {

/// A token as the lexer reports it: the numeric code of its kind (the
/// declaration order of `apollo_parser::TokenKind`, a `u16` enum), its source
/// text and the byte offset where it begins.
pub struct RawToken {
    pub code: u16,
    pub data: String,
    pub index: usize,
}

pub open spec fn token_view(t: RawToken) -> (u16, Seq<char>, usize) {
    (t.code, t.data@, t.index)
}

pub open spec fn tokens_view(v: Seq<RawToken>) -> Seq<(u16, Seq<char>, usize)> {
    v.map_values(|t: RawToken| token_view(t))
}

pub open spec fn error_view(e: Option<SyntaxErrorInfo>) -> Option<(Seq<char>, usize)> {
    match e {
        Some(e) => Some((e.message@, e.index)),
        None => None,
    }
}

/// Names the tokens that `apollo_parser::Lexer::new(body).lex()` produces for
/// `body`, in order, each as (kind code, text, byte offset).
pub uninterp spec fn apollo_tokens(body: Seq<char>) -> Seq<(u16, Seq<char>, usize)>;

/// Names the first error (message, byte offset) of
/// `apollo_parser::Parser::new(source).recursion_limit(limit).parse()`,
/// `None` when it reports none.
pub uninterp spec fn apollo_document_error(source: Seq<char>, limit: usize) -> Option<
    (Seq<char>, usize),
>;

/// Names the first error (message, byte offset) of
/// `apollo_parser::Parser::new(source).recursion_limit(limit).parse_type()`,
/// `None` when it reports none.
pub uninterp spec fn apollo_type_error(source: Seq<char>, limit: usize) -> Option<(Seq<char>, usize)>;

/// `apollo_parser::Lexer::lex`: the tokens of `body` (its lexical errors are
/// not returned). Claimed: the result is what [`apollo_tokens`] names for
/// `body`; every kind code is one of the 22 kinds of `TokenKind`; each
/// token's offset is a byte offset into `body` (the `Eof` token's is the
/// length) at which a character starts, as tokens are spans of the input,
/// and the offsets do not decrease, as the lexer's cursor only moves
/// forward.
#[verifier::external_body]
pub(crate) fn lex_tokens(body: &str) -> (r: Vec<RawToken>)
    ensures
        tokens_view(r@) == apollo_tokens(body@),
        forall|i: int| 0 <= i < r@.len() ==> (#[trigger] r@[i]).code < 22,
        forall|i: int| 0 <= i < r@.len() ==> (#[trigger] r@[i]).index <= utf8_len(body@),
        forall|i: int|
            0 <= i < r@.len() ==> is_char_boundary(encode_utf8(body@), (#[trigger] r@[i]).index as int),
        forall|i: int, j: int| 0 <= i < j < r@.len() ==> r@[i].index <= r@[j].index,
{
    let (tokens, _errors) = apollo_parser::Lexer::new(body).lex();
    tokens
        .iter()
        .map(|t| RawToken { code: t.kind() as u16, data: t.data().to_string(), index: t.index() })
        .collect()
}

/// `apollo_parser::Parser::parse` with a recursion limit, reduced to its first
/// error. Claimed: the result is what [`apollo_document_error`] names for the
/// arguments.
#[verifier::external_body]
pub(crate) fn document_first_error(source: &str, limit: usize) -> (r: Option<SyntaxErrorInfo>)
    ensures
        error_view(r) == apollo_document_error(source@, limit),
{
    let tree = apollo_parser::Parser::new(source).recursion_limit(limit).parse();
    let first = tree.errors().next();
    first.map(|e| SyntaxErrorInfo { message: e.message().to_string(), index: e.index() })
}

/// `apollo_parser::Parser::parse_type` with a recursion limit, reduced to its
/// first error. Claimed: the result is what [`apollo_type_error`] names for
/// the arguments.
#[verifier::external_body]
pub(crate) fn type_first_error(source: &str, limit: usize) -> (r: Option<SyntaxErrorInfo>)
    ensures
        error_view(r) == apollo_type_error(source@, limit),
{
    let tree = apollo_parser::Parser::new(source).recursion_limit(limit).parse_type();
    let first = tree.errors().next();
    first.map(|e| SyntaxErrorInfo { message: e.message().to_string(), index: e.index() })
}

} // verus!
