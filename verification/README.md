# minazuki

A Linux daemon that puts the CPU into performance mode while a game runs and puts it
back afterwards: it watches process starts through the netlink proc connector, tells
games from other processes (listed names, or Windows executables running under
Proton), switches the cpufreq governor and energy preference, optionally starts a
sched_ext scheduler through `scxctl`, and restores everything a few seconds after the
last game exits. A state file lets a restart undo what a crashed run left behind.

## Layout

- `src/` — the verified library (Verus):
  - `state.rs` — the engine that decides when settings are engaged and released,
    with its abstract model and the laws it keeps;
  - `game.rs` — matching games, choosing schedulers, and the walk up a process's
    ancestors that looks for Proton;
  - `knob.rs` — the settings to write, the snapshot of replaced values;
  - `path_order.rs` — path components, which tell when two spellings name one
    path, and the order in which a snapshot keeps its paths;
  - `watcher.rs` — the netlink messages: the subscription and the event parser;
  - `proc.rs`, `cpufreq.rs`, `freq.rs`, `turbo.rs`, `scx.rs` — reading what
    `/proc`, sysfs and `scxctl` report, and the unit of a frequency given on the
    command line;
  - `config.rs`, `cli.rs`, `ui.rs`, `text.rs` — configuration, command words,
    coloured output, and text helpers.
- `app/` — the program: file and socket I/O, commands, serde forms of the state.
- `tests/` — tests of the library on concrete values.
