# jexpr

A parser for a small JavaScript-like expression language, verified with
Verus. Two grammar revisions share one parser: `parser::parse` (re-exported
as `jexpr::parse`) and `combinator::parse`.

## Layout

- `src/syntax.rs`: the grammar as spec functions on the characters of the
  input, position by position (`expr`, `binary`, `postfix`, `primary`, ...),
  and what `parse` answers on a whole input (`parse_result`).
- `src/scan.rs`: blanks, tokens, names and string literals, proved against
  `syntax`.
- `src/engine.rs`: the recursive-descent parser; each function is proved to
  answer what its rule in `syntax` states.
- `src/iter.rs`: the iterator over the entries of a map literal used by the
  `parser` revision.
- `src/ast.rs`: the syntax tree, its mathematical value (`deep_view`), the
  constructors, and the map literal's entries, kept sorted by key with each
  key once.
- `src/parser.rs`, `src/combinator.rs`: the public entry points.
- `src/outside.rs`: the calls into nom and std, each with the contract the
  proofs rely on.
- `src/laws.rs`: what holds on all inputs: operator precedence and
  grouping (with or without blanks, and for any operands), prefix and
  postfix operators, parentheses, string escapes, blank input, map literal
  contents, the entry iterator, conversions.
- `app/`: nom parser helpers (`DebugP`, `ParserOnce`, ...) and conversions to
  `f64` and nom's error type.
