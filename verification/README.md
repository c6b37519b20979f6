# starlark_lexer

A lexer for Starlark source text, verified with Verus.

- `src/text.rs`: characters, and where they stand in a text, counted in bytes
- `src/number.rs`: numbers as they are written down
- `src/string_literal.rs`: string literals and their escape sequences
- `src/token.rs`: the tokens, their names, and their source text
- `src/grammar.rs`: which pieces of text are tokens, and how a text falls into them
- `src/indent.rs`: the margin of a line, and the blocks that it opens and closes
- `src/diagnostic.rs`: errors, and where they are
- `src/state.rs`: what the lexer does, as a function from state to state
- `src/lexer.rs`: the lexer
- `src/laws.rs`: what holds of every run of the lexer
- `src/order.rs`: the order in which tokens are returned
- `src/spelling.rs`: the text that a token stands for
- `src/quoting.rs`: text that is written as a string literal, and read back
- `src/relex.rs`: tokens that are written down, and read back
- `app/`: the lexer as an iterator, with printable errors; borrowed dictionaries
