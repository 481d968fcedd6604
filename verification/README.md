# bex

Boolean expressions: variables and packed node identifiers (nids), truth
tables, binary decision diagrams, algebraic normal form (xor of ands),
expression trees, and the text notation for all of them.

- `src/` is the library, verified with Verus: every public function states
  what it returns in its contract, over spec functions and views.
- `tests/` runs the library on concrete values.
- `app/` holds the file and process plumbing (binary node lists, name
  tables, GraphViz output, and the timed loop that drives a solving run
  whose every decision `solve::solve_step` makes) that sits around the
  library.
