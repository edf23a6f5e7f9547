# paro_optimizer

The core of a cost-based query optimizer, verified with Verus: how many rows an
operator puts out, which share of them a predicate keeps, what a join costs,
and how shared definitions (CTEs) are rewritten.

## Layout

- `src/` is the library. Everything in it is verified.
  - `types`, `value`, `expression`, `operator`, `plan`, `frame`, `layout`, `statistics`,
    `domain`: logical plans and what is known of them.
  - `estimate`: rows, keys, domains and column statistics of operators and of
    whole plans, and the selectivity of predicates.
  - `cost_model`: selectivities read off the syntax of a predicate alone.
  - `cost`: work of joins and property conversions, coefficients, rankings.
  - `cte`: inlining, pushing filters and demands into definitions, splitting
    shared unions, orienting recursive members.
  - `diagnostics`: stage timings and reasons why a plan was refused.
- `app/` is the optimizer in its surroundings: it evaluates the library's
  formulas in floating point and talks to the catalog, storage and the binder.
- `tests/` runs the library on concrete values.

## Numbers

The library does not compute with floating-point numbers. Where an estimate or
a price is one, the library states the formula as a value (`NodeFormula`,
`PredicateSelectivity`, `RowDecision`, `JoinWork`, ...) and holds the numbers
that it only compares as their bits (`cost::number::Number`).

## Trusted code

The proofs rest on the contracts of a few functions that are not verified:
`Arc::clone` and `Arc::ptr_eq` of the standard library, and the list operations
of `smallvec` in `estimate::selectivity::node_list`.
