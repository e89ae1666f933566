# gain_metrics

Entropy-based precision and recall ("potential gain") of a stochastic
deterministic finite automaton (SDFA) against an event log, verified with Verus.

Probabilities are exact fractions and entropies are exact sums of weighted
base-2 logarithms; `ebi_arithmetic` does the arithmetic, and the library proves
the logic that combines it.

## Layout

- `src/fraction.rs`: exact fractions and their mathematical values.
- `src/logdiv.rs`: exact entropy values (`LogDiv`), modelled as sequences of
  `weight * log2(argument)` terms, compared through their prime coefficients.
- `src/automaton.rs`: the SDFA, its well-formedness, binary search over its
  sorted transitions, and the probability of a trace.
- `src/validity.rs`: validity of an SDFA as a stochastic model; the errors.
- `src/entropy.rs`: entropy of a finite stochastic language, with smoothing.
- `src/gain.rs`: the gain numerator, and the law that a model reproducing
  the log has the log's entropy as its gain.
- `src/matrix.rs`, `src/visits.rs`: `I - P`, its inverse, and the expected
  numbers of visits `c`, proved to solve `c (I - P) = e_{s0}`.
- `src/model_entropy.rs`: entropy of an SDFA.
- `src/potential_gain.rs`: precision and recall as exact quotients of the gain
  over an entropy, and the law that precision of a reproducing model is one.
- `src/primes.rs`, `src/rational.rs`: Bezout, Euclid, exponents of primes in
  products, and equality of fractions by value with sums over index ranges.
- `src/smoothing.rs`: smoothing by `lambda` adds the binary entropy of `lambda`,
  for a distribution of traces and (given that the visits weight the
  termination probabilities to one) for an SDFA.
- `src/termination.rs`: in a valid SDFA the expected visits weight the
  termination probabilities to one, so the smoothing law holds for its entropy.
- `app/`: entry points over `ebi_objects` event logs and automata.
- `tests/`: tests over concrete logs and automata.
