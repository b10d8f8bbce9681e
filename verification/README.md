# exsurvey

A survey of a git repository, and the server that streams it to a browser.

- `src/` is the library. Every item in it is verified with Verus: the replay of
  history, co-change distances and shortest paths, file rows and events,
  evidence behind a file, peer fleets and their divergence, people and coverage,
  and the protocol with the client.
- `tests/` runs the library on concrete values, with the outside crates linked.
- `app/` is what is left: git and process I/O, HTTP, JSON, threads and floating
  point. `app/main.rs` is the server (`dump REPO` prints one summary and ends);
  `app/kernel.rs` is the root of the scoring kernel for the browser.

## What is trusted

Calls into other crates stand behind small functions marked `external_body`,
each with a doc comment that names the outside function and says what is
believed of it. Results that depend on their arguments alone, and take pages to
state, have a name (`uninterp`).

## Dependencies

`kstring` is used by nothing here. It comes in through `entropyx-git`, and is
held at 2.0.2 because later releases of it ask for a newer compiler than the one
that Verus builds on.

## Numbers

Floating-point values are carried as bits. The library orders and compares them;
`app/` computes them with the crates that define them.

## Settings of the server

| variable | default | meaning |
|---|---|---|
| `EXBRIDGE_PORT` | `7878` | port on the loopback interface |
| `EXBRIDGE_REPO_ROOT` | current directory | where repositories are looked for |
| `EXBRIDGE_WEB_DIR` | `web` | static files |
| `EXBRIDGE_GRAPH_STATS` | unset | print the size of the co-change graph |
