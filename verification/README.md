# graphql_accelerator

A PHP extension that speeds up the GraphQL parser of `webonyx/graphql-php`,
built on [`apollo-parser`](https://crates.io/crates/apollo-parser) and
[`ext-php-rs`](https://crates.io/crates/ext-php-rs), with its text handling
verified by Verus.

## Layout

- `src/` — the verified library (Verus):
  - `options.rs` — `ParserOptions` read from the PHP `$options` array;
  - `source.rs` — resolving the source argument, the fields of a `Source`;
  - `classes/parser.rs` — the source rewrites of the legacy options
    (empty SDL braces, `implements A B`, fragment variables), the partial
    parsers' wrappings, and the syntax-error report of a parse;
  - `classes/support.rs` — `Source::getLocation` (line and column);
  - `classes/nodes.rs` — the list properties a node constructor defaults;
  - `errors.rs` — the wording of `SyntaxError` messages;
  - `tokens.rs` — the `<SOF>…<EOF>` token chain as plain records;
  - `lower/` — string-literal decoding (escapes, block-string dedent), the
    line table and the location spans used when building the PHP AST;
  - `apollo.rs` — the calls into apollo-parser (lexing, first parse error);
  - `text.rs` — characters, UTF-8 lengths, searching and trimming.
- `tests/` — tests of the library, run against the real apollo-parser.
- `app/` — the PHP extension around the library: class registration,
  argument handling, the walk over apollo-parser's syntax tree that builds
  the PHP AST objects, and exceptions.

Building `app/` needs PHP 8.1+ with its headers (`php-config --includes`) and
`libclang`, which `ext-php-rs` requires.
