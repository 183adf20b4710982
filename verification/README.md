# undertale_ruins_analysis

Searches for cheap ways to steer the random number generator through the
first rooms of a game: a depth-first search over layers of choices (seeds,
delays on textboxes, encounter skips), keeping the cheapest way found to
reach a state past the last layer.

- `src/rng.rs`: the WELL512-style generator, its three seeding modes, the
  movement that draws until a direction is picked, and a generator that
  replays precomputed values.
- `src/unique_seeds.rs`: which seeds give distinct generators, and why the
  search for them ends.
- `src/node_heap.rs`: the nodes of the search, one per layer, generator
  stream and custom data.
- `src/visitor.rs`: the decisions of the depth-first search, as a state
  machine that a driver runs.
- `src/layers.rs`, `src/layer.rs`: the integer logic of the layers: the
  children of encounter skips, zero-frame choices, the naming screen and
  textbox delays, each offered in order of cost.
- `app/`: the program: the layers themselves (some draw floating-point
  values), the driver loop and the printing.

Everything in `src/` is verified with Verus, resting on two trusted
wrappers whose contracts are believed, not proved:

- `layers::choices_with_replacement`, which calls
  `itertools::Itertools::combinations_with_replacement`;
- `rng::share_values`, which calls `Arc::clone`.
