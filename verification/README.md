# logwatch

A log watcher for Entropia Universe chat logs: it follows the log file as it
grows, recognises damage, loot and global events in each new line, keeps the
tally of shots and kills, and reads its settings from `config.ini`.

- `src/` is the library, verified with Verus:
  - `text.rs`: whitespace, trimming, searching, replacing, string/char conversion;
  - `lines.rs`: splitting text into lines as `BufRead::lines` does, the last non-blank line;
  - `tailer.rs`: the cursor that follows a growing file and the complete lines of a chunk;
  - `patterns.rs`: the display form of a line and the events a line reports;
  - `tally.rs`: shots and kills;
  - `config.rs`: `key = value` settings and the blocked-entries list.
- `app/` is the program around it: file and pipe I/O, printing, the shared
  state, and the damage and loot amounts, which are floating point.
- `tests/` runs the library on concrete inputs.
