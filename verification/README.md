# timepour

A terminal focus timer that turns passing time into a falling tetromino stack.
Durations are minutes by default; `15m`, `90s`, `1:30`, `1h30m` and `1m30s` work too,
and `--break` / `-b` starts a break instead of a focus session.

## Layout

- `src/` — the library, written in Verus and verified:
  - `time.rs`: spans and points of time as integers of nanoseconds, and a monotonic clock;
  - `timer.rs`: the countdown (pause, resume, elapsed and remaining time) and its laws;
  - `cli.rs`: the grammar of the `DURATION` argument, its laws, and the command line (parsed by clap);
  - `render/blockstack.rs`: the deterministic stack — shapes, rotation, landing, placement,
    capacity, the settled board, the falling piece, the picture and the preview — and its laws;
  - `ui.rs`: texts, the side panel's layout and the pixel-art clock;
  - `session.rs`: what each frame shows and what each key does.
- `app/` — the program: the terminal loop, drawing with ratatui, key input with crossterm,
  and the floating-point animation (progress, and how far the falling piece has come).
- `tests/` — tests of the library.
