# redex

Reads, rewrites and reduces terms of the untyped lambda calculus, written with `L` for the
lambda (`Lx.x`, `Lxy.x`, `x_{12}`), and records every stage of an evaluation as text.
The library is verified with Verus: each public function states what it returns in terms of
spec functions over mathematical values (`Term`, `Seq<char>`, `Map<VarV, Term>`).

## Layout

- `src/text.rs`: characters and text (trimming, lines, searching); the calls into `char` and
  `String` that everything else rests on.
- `src/utils.rs`: matching delimiters and splitting text into groups.
- `src/error.rs`: why reading fails (`ParseError`) and the outcome of reading (`Parsed`).
- `src/ast/node/`: terms (`Node`, `Term`), reading them (`reading.rs` holds the rules as spec
  functions), writing them out, substitution and reduction, copies of terms, and the table of
  assignments.
- `src/ast/expr.rs`: statements (`NAME := term` or an expression) and programs of them.
- `src/interpreter.rs`: running a program; `run` states what a run writes.
- `src/stdlib/`: the standard library of named terms, and Church numerals.
- `src/node/`: the first, smaller representation of terms (variables and abstractions).
- `src/cli/`: the settings of a run.
- `app/main.rs`: the command line front end (clap), which runs the interpreter and prints.

## Notes on behaviour

- Parentheses are read as one-character variables; applications nest to the right.
- A run allows each replacing or reducing loop a number of rounds (`fuel`); the front end
  allows `usize::MAX`.
- Reducing an abstraction on its own stops the program, as does writing out a curried
  abstraction whose body is no abstraction; `interpret` reports both as `InterpretError::Stops`.
- Lengths are counted in UTF-8 bytes, as `str::len` counts them.
