# lox_rs

The front end of a Lox interpreter (the language of *Crafting Interpreters*),
verified with Verus, and a command that runs Lox programs with it.

- `src/` is the verified library.
  - `scanner.rs`: source text to tokens. `scan` is the scanner as a
    mathematical function; `Scanner` and `tokenize` are proved to compute it.
    Laws: every scan ends with exactly one `Eof`, on line 1 plus the number
    of newlines in the text unless a string is left open; lines never go
    down; every token is well formed (a number's text is digits with at most
    one `.` between digits); an unterminated string ends the scan.
  - `parser.rs`: tokens to statements, by recursive descent. The grammar is
    written as spec functions (`sp_expression`, `sp_statement`, ...), and
    every parsing method is proved to agree with its rule, errors included.
    `sp_program` gives the statements of a program, or every error with the
    recovery after each (`lemma_synchronize`).
  - `progress.rs`: every rule moves forward and stays before the `Eof`.
  - `ast.rs`: the syntax tree and its mathematical view.
  - `environment.rs`: scopes of variables, generic in the values they hold.
    Laws: a read gives back the last write; an inner binding is not seen
    from outside; a new scope sees what its parent sees; assignment reaches
    exactly the names that can be read; closing scopes keeps the outer ones.
  - `callable.rs`: declared functions as values, with their arity.
  - `lib.rs`: joining error messages, and `tokenize_and_parse`.
- `tests/`: the tests, run against the compiled library.
- `app/`: the `lox-rs` command: reading files and the prompt, and the
  tree-walking interpreter, which computes with `f64` numbers and keeps its
  variables in the library's `Environment`.
