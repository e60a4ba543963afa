# genetic_search

A genetic algorithm engine whose integer core is verified with Verus.

- `src/` — the verified library:
  - `rng.rs`: the 64-bit linear congruential generator, 53-bit unit draws,
    index draws and Bernoulli draws (`Probability` = a count of 53-bit draws
    out of 2^53).
  - `rounding.rs`: an exact integer model of the binary64 rounding that the
    index and rank draws perform (53 significant bits, ties to even).
  - `fitness.rs`: scores carried as binary64 encodings and compared as
    binary64 comparison does (NaN compares with nothing, the two zeros are equal).
  - `ranking.rs`: stable ordering of positions by integer keys.
  - `selection.rs`: `Individual`, the `Selection` interface, tournament and
    rank selection.
  - `crossover.rs`: the `Crossover` interface, single-point and uniform crossover.
  - `mutation.rs`: the `Mutation` interface.
  - `population.rs`: evaluation, best individual, sorting, breeding with
    elitism, and the generational run.
- `app/` — the real-valued side: real draws, the random initial population,
  roulette selection, blend crossover, the mutation operators and the
  convergence detectors, all of whose arithmetic is on binary64 values, and
  the runner that scores real-valued fitness and hands the run to the library.
- `tests/` — scenario tests, and tests that hold the integer draws against
  the binary64 arithmetic they stand for.
