# ltl

A Larger than Life cellular automaton engine, verified with Verus.

- `src/ltl_engine/` — the automaton: the rule (`config`), the neighbourhood
  shapes (`neighbourhood`), the board with its operations and one-step update
  (`board`), and properties that span those operations (`laws`).
- `src/board.rs`, `src/config.rs`, `src/neighbourhood.rs`, `src/rnd.rs` — the
  front-end layer that a JavaScript host drives.
- `app/` — the WebAssembly bindings: the `wasm_bindgen` types, the browser's
  random numbers, the worker threads (each steps one chunk of the board with
  the verified `update_range`), and the checks that the library's operations
  ask of their callers.
- `tests/` — the board's scenarios and concrete checks of the laws.

Random states for `randomize` are drawn by the caller (the front end draws
them with `rand` from the browser's `Math.random`) and handed to the library,
which fills the board with them.
