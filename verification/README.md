# coalition_game

Cooperative game theory over coalitions of players.

- `src/` is the verified library: bitmask coalitions and their lattice
  operations (`coalition.rs`), the lexicographic successor of a player order
  and a seeded random order (`permutation.rs`), and coalition structures,
  partitions of the players into groups with the moves of a single player
  between groups (`stability.rs`).
- `app/` builds the payoff computations on top of it: characteristic
  functions, Shapley values, the core, the nucleolus and the stability
  checks of a coalition structure. Their values are floating point, so they
  are ordinary Rust; `app/` also holds the serialisable forms of the
  library's types.
- `tests/` exercises the library.
