# hem_service

The core of a home-energy modelling service, written in Rust and verified with Verus. A caller picks
a dwelling archetype and describes its glazing; the service patches the archetype's input, has the
HEM engine run it, and answers with the engine's summary, the running cost and the carbon. A
comparison runs the dwelling twice and reports what an upgrade saves.

## Layout

- `src/` is the verified library.
  - `json`: JSON documents, held by `serde_json` and described by an ordered tree.
  - `double`, `arithmetic`: doubles by their bit patterns; formulas over rounding operations that the
    caller performs.
  - `rounding`: what such operations may be expected to keep, and the doubles that there are.
  - `glazing`, `glazing_laws`: overrides, which windows they reach, and what they leave alone.
  - `dwelling`: the windows and energy supplies of an input.
  - `profiles`, `weather`: what is on offer.
  - `economics`: prices, carbon factors, and what delivered energy costs.
  - `simulate`, `compare`: requests, engine runs and responses.
  - `error`: errors and the statuses they are answered with.
  - `form`: the decisions of the browser screen.
  - `solvers`: bisection, Brent's method, and a Runge-Kutta integrator with terminal events; and
    their laws.
- `app/` is ordinary Rust: the HTTP server, the browser screen, the engine run, and the machine's
  floating-point arithmetic.
- `tests/` runs the library.

## Numbers

The library holds a double by its bit pattern and compares, negates and steps doubles by it. Sums,
products and the like round, so they are left to an implementation of `Arithmetic`. Nothing is
assumed of it: a contract says which formula a result comes from, for every implementation.

Some laws need more: that a root stays between the ends of the interval, or that the times of a
solution go one way. They name what they rest on in their `requires`. `faithful` says that results
are the exact ones, rounded; `orderly`, that order and signs are kept, for infinities too. Both hold
of IEEE 754 arithmetic.

## Running the server

`HEM_DATA_DIR` (default `data`) holds `archetypes/<id>.json` and `weather/<id>.csv`;
`HEM_SERVER_ADDR` (default `127.0.0.1:8080`) is where the server listens; `HEM_WEB_DIST` (default
`hem-web/dist`) holds the screen's bundle.
