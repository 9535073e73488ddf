//! Verified core of a GraphQL parsing front end for PHP: source preprocessing,
//! string-literal decoding, token chains, line tables and syntax-error wording.

pub mod text;
pub mod options;
pub mod classes;
pub mod errors;
pub mod lower;
pub mod apollo;
pub mod tokens;
pub mod source;
