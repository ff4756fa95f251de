# regcmp

Decides whether two regular expressions of formal-language notation denote the same
language: `#` (the empty language), `$` (the empty word), characters, union (`|` or `+`),
concatenation, and Kleene star (`*` or `^*`), with parentheses; whitespace is ignored.

The comparison parses both expressions, builds Thompson automata, determinises them by the
subset construction over the joint alphabet, minimises them by Hopcroft's refinement, and
searches the product of the two minimal automata for a pair of states that disagree.

Every step is proved against its specification:

- `src/parser.rs` — tokeniser and recursive-descent parser, specified by a grammar over
  token sequences; the notation of an expression reads back as the same expression.
- `src/regex.rs` — expressions, their languages, their notation.
- `src/nfa.rs`, `src/thompson.rs` — Thompson's construction and its language.
- `src/dfa.rs` — subset construction, Hopcroft minimisation, completion and the product
  search, each with its exact result.
- `src/canonical.rs` — minimal automata of equal languages are equal up to numbering.
- `src/fsm.rs` — a line-based description of automata (`start:`, `accept:`,
  `source symbol target`).
- `src/lib.rs` — `compare`, `compare_verbose`, and `compare_fsm` for two automaton
  descriptions.
- `app/main.rs` — the command line: `regcmp <regex1> <regex2> [-v|--verbose]`.
