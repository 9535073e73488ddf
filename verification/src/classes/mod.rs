//! The logic behind the PHP classes that the extension installs.

pub mod parser;
pub mod support;
pub mod nodes;
