# agent-loadgen

A load generator for coding-agent traffic, with its logic verified by Verus.

It replays captured request traces along their causal graph, or plans seeded agent sessions and runs
them, and then says how faithful the traffic was. Requests keep their input and output lengths and
share prefixes exactly where the source does, though the text itself is synthetic.

## Layout

- `src/` is the verified library.
  - `trace`: reading records, ordering and selecting requests, lowering a trace to its causal graph,
    and the selection that a store on disk is driven by.
  - `scenario`: generator settings and presets, the planner, what a plan keeps, and its drawing.
  - `token_shape`: safe tokens, and the dictionaries that spell hashes as tokens.
  - `replay`: settings, requests, response streams, results, both schedulers, totals and telemetry.
  - `compare`: how a replay differs from its source.
  - `agent`, `cli`, `contracts`: agent headers, command line settings, shared types.
  - `scheduler`, `ordered`, `groups`, `text`, `text_map`, `json`, `digest`, `double`, `numeric`: the
    ground that the rest stands on.
- `tests/` runs the library on concrete values.
- `app/` is the program around it: files, the network, the clock, serialized forms, and arithmetic on
  doubles.

## Conventions

- A spec function says what a value is; an executable function promises exactly that.
- Functions named `law_...` state what holds across several functions.
- Doubles appear as their bits. What needs double arithmetic is computed outside and handed in.
- Times are nanoseconds or milliseconds in integers, as their names say.
- What is taken on trust is marked `external_body` or `assume_specification`. Each such item names the
  outside function that it stands for and what it claims of it. The one other promise that the library
  relies on is that of `LogNormalSampler`: log-normal numbers come from outside, and depend on the state
  of the generator alone.
