# math_strat

Finds the cheapest way to prepare for a card-draw exam so that a requested
score is reached with probability at least 90%.

A ticket draws 3 of 24 definitions, 4 of 33 proofs and then 2 of the 45
formulations left. A plan says how many cards of each kind are learned; the
library computes the exact score distribution of a ticket for every plan,
the highest score reached with probability 90%, and the cheapest plan for
every score from 0 to 18.

Layout:

- `src/` — the verified library: binomial coefficients
  (`combinatorics`, `helpers`), exact ticket distributions (`pmf`,
  `pmf_total`, `pmf_monotone`), the plan search (`plan`, `counting`), and the text shown to
  the user (`format`, `io`, `progress`, `error`, `cache`).
- `tests/` — tests of the library on concrete values.
- `app/` — the program: terminal input and output, the cache files, the
  progress thread and the floating-point display of the requested score.

Probabilities are whole numbers of equally likely outcomes out of
`PROBABILITY_SCALE`, and costs are counted in half-points, so every
comparison the search makes is exact.
