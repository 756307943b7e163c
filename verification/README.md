# bang, verified

The core of a small 2D game engine, written in Verus: the data structures and
decisions of the engine are proved against their contracts, and the thin
runtime glue around them (clocks, sleeping, threads, the terminal, floats)
stays in ordinary Rust.

## Layout

- `src/` — the verified library.
  - `input` — key states and the per-frame input state, with the laws of
    relaxing and merging key states.
  - `num`, `game` — fixed-point numbers and game-world vectors.
  - `managed` — generational ids and the managed allocator with deferred
    freeing.
  - `arena` — frame arenas: values, slices and vectors of plain data stored by
    alignment, reset and reused between frames, and sinks that values are
    pushed into one after another; `arena::plain` is the byte view of the
    plain types (the integers, and pairs and two-element arrays of them).
  - `mem` — the arena guard a frame's logic allocates from.
  - `vec_arena` — arenas of vectors only.
  - `paltex` — palette textures and their run-length encoding, with the proof
    that decoding an encoding gives the texture back (`paltex::roundtrip`).
  - `rt_common` — the runtime's shared parts: input gathering between threads,
    frame-allocator retirement, the frame hand-over decisions, the end flag,
    the logic loop's timer, and the message a run ends with.
  - `rt` — the first runtime's buffered input gathering.
  - `termios` — terminal attributes and their raw mode.
  - `demo` — the demo logic's configuration and state.
- `tests/` — tests of the library.
- `app/` — the glue: clocks and sleeps driving the timer, the process-wide end
  flag and signal handler, terminal attribute calls, error reporting, frame
  hand-over through atomic pointers, the numbering of managed arenas, and
  conversions from floats.
