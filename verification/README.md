# samsara

Deterministic replay and fault injection for LLM agents, with its engine
verified by [Verus](https://github.com/verus-lang/verus).

An agent's run is recorded effect by effect: model calls, tool calls, the clock
and random draws. The recording can then be replayed without touching anything,
forked under a schedule of faults, searched for a schedule that breaks a
property, and swept exhaustively, with a certificate of what was checked.

## Layout

- `src/` is the engine. Everything in it is verified.
  - `event`, `trace`, `record`, `json`, `layout`: effects, traces, and how they
    are written and read back.
  - `canon`, `hash`, `cas`: the identity of an effect, and the store that
    payloads are kept in.
  - `replay`, `replayer`, `oracle`, `divergence`: recording, strict and
    counterfactual replay, and where a run departs from its recording.
  - `faithful`, `repeats`, `determined`: what replay promises of every recording.
  - `fault`, `rng`: faults, and the schedules that a seed gives.
  - `invariants`, `config`: the properties that a run is held to.
  - `explore`, `shrink`, `verdicts`: search, reduction to the faults that
    matter, and what both find of a deterministic agent.
  - `coverage`, `orderings`, `certificate`: exhaustive sweeps of faults and
    orders, and the claims they support.
  - `proxy`, `ledger`, `barrier`: the decisions of the recording proxy, and of
    the endpoint that replays bursts of concurrent calls.
  - `bundle`, `timeline`, `report`, `ui`, `command`: what the commands and the
    browser timeline show.
  - `testkit`, `demo`, `worked`, `remedy`: a deterministic backend, two worked
    agents, sessions that explore them, why those agents are deterministic, and
    why the fix of one of them holds.
- `app/` is the command line around it: files, sockets, processes.
- `tests/` runs the engine on concrete values.

## What is trusted

The engine calls `blake3`, `rand_chacha`, `serde_json` and `toml`. Each call
stands behind a small function whose contract is taken as given; they are in
`hash`, `rng` and `json`. `String::push`, the `Debug` form of a text and
`String::from_utf8_lossy` are treated in the same way, in `text` and `bundle`.
