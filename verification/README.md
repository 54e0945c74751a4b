# ternary_belief

Belief propagation over factor graphs whose variables take the values
{-1, 0, +1}, with the graph side of the library verified by Verus.

- `src/ternary.rs`: ternary values and their positions in a message.
- `src/factor.rs`: factor tables (entries of any weight type), the
  row-major indexing of assignments, the decoding of configuration numbers,
  and the terms that make up a factor-to-variable message.
- `src/graph.rs`: the factor graph, its per-variable factor lists, evidence,
  the incidences that messages are keyed by, and what each variable message
  or belief is made of.
- `app/lib.rs`: the sum-product arithmetic on `f64` messages (message passing
  and loopy belief propagation), built on the library.
