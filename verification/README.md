# ci-runner

`citop`, a terminal dashboard for a self-hosted GitHub Actions runner on a
small board, with its logic verified in Verus.

- `src/` is the verified library: readers of the `/proc` and `/sys` text
  files (`probe`, `cpu`, `mem`, `net`, `psi`, `host`, `jobs`, `therm`), the
  integer-only formatting of sizes, rates and durations (`fmt`, `view`), the
  command line and key bindings (`cli`), layout rules (`ui`), and UTF-8 and
  trimming helpers (`text`). Each source of the dashboard keeps its per-tick
  state in the library; a refresh takes the bytes just read and answers
  which slow reads are due, on the countdowns of `cadence`. The machine's
  identity and the meter rows are assembled there too, from the values read.
- `app/` is the program: it opens and re-reads the files, calls `libc` for
  `uname`, `statvfs` and `sysconf`, draws with `ratatui`, and runs the event
  loop.
- `tests/` runs the library against fixtures taken from a Raspberry Pi 4.
