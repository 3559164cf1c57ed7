# vehicle_routing

Verified building blocks of a solver for the vehicle routing problem with time
windows (VRPTW), written in Verus.

- `src/` is the library. Every function in it is verified: route and solution
  models, time-window schedules, construction heuristics, destroy and repair
  operators, local-search passes and the decisions of the large-neighbourhood
  searches. Contracts are stated over the node sequences of the routes.
- `app/` is ordinary Rust around the library: the solver entry points, which run
  the searches against the clock, the floating-point parts (annealing
  acceptance, roulette weights, float-biased destroy picks) and JSON types.
- `tests/` exercises the library on small instances.

The library relies on `rand` (through small trusted wrappers whose contracts
say what rand's source shows) and on `std::time` for the time budget.
