# rustymill

Optimisation of tensor contraction programs, verified with Verus.

A computation is a list of definitions `T[ext] = sum of terms`, each term a
rational coefficient times a product of tensor factors summed over its own
indices. The library

- estimates FLOP costs (`cost`),
- finds optimal contraction orders of products (`parenth`),
- rewrites terms into a canonical form: symmetry elements applied, factors
  reordered, summation indices renamed from a per-definition pool (`canon`,
  `rl_canon`, with the symmetry groups enumerated in `enumerate`),
- builds constriction graphs of shared sub-products and enumerates their
  coefficient-compatible bicliques (`constr`, `biclique`),
- applies factorisations greedily (`optimize`) or one decision at a time
  (`biclique_action`),
- writes terms, definitions and computations as text (`text`).

Layout:

- `src/` — the verified library; every function carries its contract.
  `rational` wraps `num::rational::Ratio<i64>` behind a few trusted
  functions; everything else is proved.
- `tests/` — tests of the library.
- `app/` — the command-line optimiser: JSON input and output (serde), and a
  Monte Carlo tree search driver, which works with floating-point rewards.
