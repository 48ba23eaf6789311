# bh — bash history search, verified

`bh` is an interactive search over `~/.bash_history` with fuzzy matching,
smart ranking, usage statistics and labels. The logic lives in a library
verified with Verus (`src/`); the program around it (`app/`) reads and
writes files, drives the terminal and prints reports.

## Layout

- `src/text.rs` — characters, UTF-8 byte offsets, trimming, line splitting,
  string order, decimal numbers, path joining.
- `src/strmap.rs` — `StrMap`, a map from strings kept as an association list
  with distinct keys.
- `src/sorting.rs` — stable ordering by numeric keys, largest first.
- `src/dates.rs` — civil dates and day numbers, `YYYY-MM-DD` strings,
  "today" and "n days ago" for a given clock reading.
- `src/history.rs` — counting the history file, ranking entries, substring
  and fuzzy matching with match quality, search and its noise filter,
  deleting a command.
- `src/stats.rs` — first-seen dates, daily selections, snapshots, pruning,
  selection counts.
- `src/labels.rs` — the STALE, NEW, TOP and HOT labels, the stale commands
  that `C-g` deletes, and the checks that statistics stay within the
  integer types the labels and the report compute in.
- `src/stats_display.rs` — what `bh stats` reports.
- `src/export.rs` — the summary under `bh --table`.
- `src/input.rs` — decoding key bytes.
- `src/tui.rs` — display widths, the picker's key-driven state machine, and
  the layout of the screen.
- `src/config.rs` — the settings file's model and location.
- `app/` — `main`, file I/O, serde forms, the terminal, printing.
- `tests/` — tests of the library.

Entry scores are fixed-point integers (units of 10^-17); the ranking score
itself, which takes a logarithm, is computed by `app/`. Match qualities are
exact fractions (`MatchQuality`: a whole part and a proper fraction), and
search compares them exactly.
