# ishizue

Core utilities for Rust-based Neovim plugins, written in Verus with their behaviour
stated as contracts and proved.

- `src/strings.rs` — truncation with ellipsis, padding, splitting at a delimiter, and
  trimming Unicode white space; all widths count `char`s.
- `src/path.rs` — lexical Unix path handling: components, normalization of `.` and
  `..`, joining, relative paths, absoluteness and `~` expansion from a given home
  directory. `src/path_laws.rs` proves what these functions keep: normalization is
  idempotent and keeps absoluteness, and whenever `relative_to` gives a path, joining
  it to the base normalizes to the target.
- `src/debounce.rs` — debounce and throttle limiters deciding on clock readings (at
  most one fire per period over any run of calls), a write-once cell and a fire-once
  flag.
- `src/job.rs` — the description of a process to run and the output collected from it.
- `app/lib.rs` — what talks to the system: the Neovim entry point, spawning and waiting
  for processes, and reading `$HOME`.
