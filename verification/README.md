# punter

A player ("punter") for a river-claiming graph game, with its game logic
proved correct in Verus.

- `src/` — the verified library:
  - `types.rs`: sites, rivers, maps, moves, setup messages.
  - `board.rs`: the state kept between turns; building it from a setup
    (rivers ordered outwards from the mines), recording claims, and checking
    a state read back from a message.
  - `search.rs`: distances from a mine, sites reached along a punter's own
    rivers, and distances that count only rivers still to be claimed.
  - `measure.rs`, `score.rs`, `connect.rs`: counts of rivers at a site, free
    rivers, the game score, and mines still to connect.
  - `plans.rs`: enumeration of multi-move plans.
  - `framing.rs`: the length-prefixed wire format.
  - `random.rs`: randomness from the `rand` crate.
- `app/` — the program around it: JSON messages (serde), the I/O loop, and
  the optimizers and raters, whose values are floating point.
- `tests/` — tests of the library.
