# replicube-tokenize

Tokenizes the Lua code of the game Replicube and reports what each token costs,
with warnings about text that costs more than it needs to.

The library is verified with Verus:

- `src/grammar.rs` states the lexical grammar over the source's bytes (`lex`),
  with the laws that follow from it: tokens cover the source, each is read in
  the context the one before leaves, `,[` and the sign of numbers.
- `src/lexer.rs` reads the tokens of a byte slice, proved to be exactly `lex`.
- `src/token.rs` holds `Token`, `TokenKind` and `Token::cost`, proved against
  `cost_spec`.
- `src/tokenizer.rs` holds `tokenize`, which cuts each token out of the `&str`
  at proved character boundaries, and the warnings.
- `src/warning.rs` holds `Warning` and its message.
- `app/main.rs` is the command-line program.
