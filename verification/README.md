# geosolver_core

A verified library for exact rational polynomial systems with a designated target
variable: it validates and canonicalizes a system, compresses it (definitional and
rational affine substitutions, binomial simplification, saturation, independent
components), and plans the elimination kernels for each projection block with cost
estimates, route budgets and digests that bind each plan to its inputs.

Every function in `src/` is checked by Verus against its `requires`/`ensures`
contract; the few calls into `num-bigint` and `sha2` go through small trusted wrappers
whose contracts state what those crates document.

Layout:

- `src/types/` - integers, rationals, monomials, sparse and univariate polynomials,
  digests, and `uni_values.rs`, the value-level statement of long division, Euclid's
  gcd and the squarefree part.
- `src/problem/` - input validation, canonical systems and the solver context.
- `src/preprocess/` - the compression stage.
- `src/planner/` - admissions, cost model, kernel plans and the planner's diagnostics.
- `src/roots/`, `src/verify/`, `src/result/`, `src/solver/` - root data, certificate
  checks, result records and the route-budget checks made before a kernel runs.
- `tests/` - executable tests of the library.
