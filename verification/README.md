# experiments

Verified combinatorics behind the fixed-descent-set swaps experiments:
integer polynomials, descent sets as bitmasks, insertion of the maximum,
source distributions and their zones, staircase transforms and their
inversion, total-positivity tests, boards of 312-avoiding permutations and
their Bruhat ideals, and the bookkeeping of the induction on `|S|`.

- `src/` — the library, verified with Verus. Questions about real roots and
  weak interlacing are not answered here: the functions that need them
  either hand back the question (`InterlaceStep`) or take the answers as
  arguments.
- `tests/` — tests of the library on concrete values.
- `app/` — the command-line drivers (they need the workspace crates
  `combpoly`, for permutations and their statistics, and `polynomial-tools`,
  for real-rootedness and interlacing): they enumerate permutations, ask the
  real-rootedness questions, do the floating-point sampling and print the
  reports, with the library doing the combinatorics.

Five of the experiments have no driver in `app/`: `coupling`, `delta`, `det`,
`endpoint_refine` and `lr_proof`. The library holds the pieces
they are built from (source descent sets, the endpoint bins and filters of
`family`, polynomial determinants, the chain and compatibility bookkeeping of
`compat`, the 2x2 minors of `minors` and `zones`), each with its contract. The
`minor` driver prints the sign counts of the minors and the ratio test, without
the floating-point ratio tables.
