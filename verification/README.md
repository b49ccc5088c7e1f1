# compilation_project

Two small languages and the pieces of a compiler for them, written in Verus so
that each piece comes with a machine-checked contract.

**MiniImp** (`src/miniimp/`) is an imperative language with one input and one
output variable, integer expressions, Boolean conditions, `if` and `while`:

- `lexer`, `parser`: source text to tokens to an abstract syntax tree; each
  is specified by a spec function that describes the accepted language and
  the first error.
- `eval`: big-step semantics (`run_command`), with checked `i32` arithmetic
  and a bound on loop iterations.
- `cfg`: control-flow graphs with one simple statement per block;
  `cfg_runs` shows that the graph of a program runs as the program does.
- `dataflow`: defined-variable, live-variable and reaching-definition
  analyses; each returns the extreme (least or greatest) solution of its
  equations.
- `optimizations`: the undefined-variable check, constant folding, constant
  propagation, dead-store elimination and a pipeline that runs them to a
  fixed point.
- `pretty`: expressions, statements, annotations and graphs as text and as
  Graphviz DOT; `round_trip` shows that a printed expression parses back,
  and `printed` that, where names are plain identifiers, the text of a
  statement determines it (the passes report a change by comparing text).
- `graph_runs`: running a graph block by block, and the proofs that the
  optimizations keep what a program returns; `fixed_point` shows that at a
  fixed point every pass has nothing left to do.

**MiniFun** (`src/minifun/`) is a small functional language with closures,
`let`, recursive `letfun` and annotated parameter types:

- `lexer`, `parser`, `eval` (environment-based, with a bound on call depth),
- `typecheck`: checking against the annotations; `soundness` shows that
  well-typed terms do not go wrong,
- `inference`: Hindley–Milner inference (substitutions, unification with the
  occurs check, instantiation and generalization); unification is shown to
  find a most general unifier whenever one exists.

`messages` gives every error of both languages its sentence.

`app/main.rs` runs both languages on sample programs and writes the DOT files.
