# nat_calc

A dual-mode expression reduction engine, verified with Verus. Input text is
lexed and parsed into an expression tree and reduced against an environment
of bindings: numbers fold exactly (decimal arithmetic from `bigdecimal`),
unbound names keep an expression symbolic, and the commands `simplify`,
`expand` and `derive` rewrite the expression itself. Lambda terms reduce in
normal order with capture-avoiding substitution, and boolean expressions get
truth tables, Karnaugh maps, equivalence checks and gate diagrams.

Every function in `src/` carries a contract stated over a mathematical model
(`Term` for expressions, `EnvModel` for the environment, `DecModel` for
numbers) and is proved by Verus; the laws that relate several functions are
public proof functions named `lemma_*`.

## Layout

- `src/numeric.rs`: exact decimals; the arithmetic calls into `bigdecimal`.
- `src/ast.rs`, `src/lexer.rs`, `src/parser.rs`: the expression tree, its
  rendering, and the text front end.
- `src/env.rs`, `src/engine.rs`: bindings and the reduction engine.
- `src/simplify.rs`, `src/expand.rs`, `src/derive.rs`, `src/matrix.rs`: the
  symbolic and matrix rewrites.
- `src/lambda.rs`, `src/logic.rs`: lambda calculus and boolean logic.
- `src/prompt.rs`: what the interactive prompt does with each line.
- `src/session.rs`, `src/mode.rs`: a worksheet session (cells re-evaluated
  in order, bindings, input history).
- `src/config.rs`: the settings file format.
- `app/`: the programs around the library: the worksheet window
  (`egui`/`eframe`, `gui.rs`), the interactive prompt (`rustyline` and the
  settings file, `repl.rs`). `nat_calc` opens the window; `nat_calc repl` starts the
  prompt.
- `tests/`: tests run against the compiled library.
