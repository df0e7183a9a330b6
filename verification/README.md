# axia

A small kernel for first-order reasoning: declare types, constants,
predicates and axioms in named universes, then ask for proofs, which are
found by backward chaining with unification and explained step by step.

The library (`src/`) is written in Verus and verified:

- `ast`, `parser`: terms, formulas and declarations; the lexer and the
  recursive-descent parser, each specified by a mathematical definition of
  the tokens and of the parse.
- `engine`: bindings, substitution, unification, universes and the
  iterative-deepening proof search, whose results are specified exactly by
  a mathematical definition of the search.
- `formatter`, `display`: proof explanations as lines of styled spans, and
  their rendering with terminal colours.
- `session`: named universes and the meaning of one line of input.
- `round_trip`: parsing undoes display — the text of a formula (with plain
  identifiers, variables of the default sort, and arguments on every
  predicate and function) lexes and parses back to the same formula.
- `unification`: soundness of unification — applying the bindings it
  returns makes both sides equal, apart from the sorts written on variables.
- `basic`: a smaller prover over equalities and predicates.
- `name_map`, `text`: an insertion-ordered map keyed by names; decimal
  numbers, trimming, prefixes and sorting of strings.

`app/` is the interactive program: the read-eval-print loop, reading
`.axia` files and module directories, and printing.

Commands. `import <name>` pulls everything of the universe `<name>` into the
active one when such a universe exists (axioms and type names that are new,
predicates and constants whose names are new); otherwise it loads the
library file `lib/core/<name>.axia` or `lib/geometry/<name>.axia` into the
active universe. `load <file>` loads a module or file into the active
universe, and `load <file> into <universe>` into the named universe, which
must exist. The help text also lists `Given` declarations and the
`deduce` command (forward deduction); neither is implemented (there is no
forward-deduction routine and no table of givens), so such lines are read
as ordinary declaration lines.
