# t_rex

A small regular expression engine, verified with Verus, and a `grep`-like
command line program around it.

Two engines share the crate, and the first comes with a statement of what its
patterns mean:

- `parser`, `compiler`, `matcher`: a regular expression is parsed into a token
  tree, compiled into a non-deterministic automaton (states numbered from 0, the
  start 0 and the final state 1), and the automaton is simulated over the input
  position by position. `graph` writes the automaton in the DOT language;
  `text` holds how classes, boundaries, numbers and parsing errors are written.
- `language`: what a token matches, stated directly over the input (rows,
  alternatives, repetitions, anchors and word boundaries read at their
  positions), and the proof that the compiled automaton accepts an input
  exactly where some part of it lies in that language.
- `vm`: a backtracking machine with capture groups, back references and
  recursion (`(?R)`); `vm::parser` compiles an expression into instructions and
  `vm::matcher` runs them. `vm::language` states which parts of the input a
  program reads (its runs from the first instruction to its end), what each
  construction of the parser reads (repetitions, alternatives, groups, atoms),
  and that the machine matches exactly where its program reads some part, for
  programs without back references or `(?R)`.

Each executable function states in its contract what it returns, over
mathematical specifications of the grammar, the automaton and the machine; the
laws of the library (matching as membership in the pattern's language, a match
surviving text added around the input, the machine matching exactly what its
program reads, the machine's search as its attempts from each start position,
every jump of a parsed program landing within it, fuel monotonicity of the
machine, a match of the machine lying within its input with its groups in
order, case-blind matching, the empty expression matching every input, and
others) are proof functions next to the specifications they speak of.

`app/main.rs` is the command line program: it reads the files or standard
input and prints the matching lines, their count, or the automaton's graph.
