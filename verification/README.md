# cic

A small compiler front end for fully parenthesised integer arithmetic,
`expr ::= integer | '(' expr ('+' | '-' | '*' | '/') expr ')'`, verified with Verus.

- `src/lexer.rs` — tokens and spans over the UTF-8 bytes of the source; `lex` is the model of one step,
  `lex_all` of a whole run, which `tokenize` performs.
- `src/parser.rs` — the recursive-descent parser; `parse_expr` / `parse_source` model it, and the
  grammar laws show that it accepts exactly the token sequences that `spell` an expression, and that a
  written-out expression (`written`) parses back to one of the same shape.
- `src/interpreter.rs` — evaluation in checked 64-bit arithmetic; `eval` models it.
- `src/frontend/tree.rs` — drawing an expression as an ASCII tree; `layout` models it.
- `src/compiler.rs` — places a constant into an assembly template.
- `src/text.rs` — decimal spelling of integers and Unicode whitespace.
- `app/main.rs` — the command line: `lex`, `parse`, `eval` or `build` a file.
