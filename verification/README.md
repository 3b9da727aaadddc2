# radin

A network-resiliency engine: it takes in measurements of edges and transports,
keeps a model of their health, and decides which route to use, when to switch,
when to fall back and when to try again. Every rule is stated as a contract and
proved with Verus.

No number is ever made up: measurements carry where they come from, and
synthetic ones are refused where routes are scored, where a transport is
selected, where samples are buffered and where a report is built.

## Layout

- `src/` is the library. Everything in it is verified.
  - `reading`, `double`, `ratio`, `root`, `order`: doubles as bit patterns, and
    IEEE 754 arithmetic on them, exact to the last bit.
  - `text`, `octets`, `json`, `layout`, `views`, `search`, `ranking`, `table`:
    what the rest is built from.
  - `model`, `metrics`, `edges`, `scoring`, `health`, `hysteresis`, `detect`:
    what is measured, and what is concluded from it.
  - `fallback`, `circuit`, `state`, `retry`, `keepalive`, `probe`, `migration`,
    `session`, `transport`, `security`: the rules, one module each.
  - `engine`: the engine that owns all of them.
  - `telemetry`, `events`: what is logged, and the diagnostic report.
  - `control`, `sync`, `delta`, `compression`, `persistence`, `server`: the
    control plane, from operations and deltas to the service's answers.
  - `chaos`, `demo`: a network that misbehaves on purpose, and the scripted
    demonstration that runs on it. Both are synthetic and say so.
  - `tunnel`, `boundary`: framing, and the blocks that cross the C boundary.
  - `dice`, `identifier`: random numbers and identifiers.
- `tests/` runs the library.
- `app/` is the program around it: sockets, the HTTP service, SQLite, the C
  interface and the command line.

## What is computed elsewhere

The library adds, subtracts, multiplies, divides and takes roots of doubles by
itself. Powers, random draws of doubles, and doubles in decimal come from the
caller.

Three outside crates are called from the library: `rand` for draws of integers,
`uuid` for identifiers, and `zstd` for compression. What is relied on stands in
the contracts of the functions that make the calls.

## Laws

Functions named `law_…` state what holds of several functions together: that a
route which is nowhere worse never scores lower, that an outage of every tunnel
ends in a direct connection, that the delta between two objects applied to the
first gives the second, that what is framed comes out of its frame.
