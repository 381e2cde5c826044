# crabgit

`crabgit` inspects Git repositories: status, branches, recent commits, and
statistics over the history — activity and churn per time bucket, author
rankings, a weekday-by-hour heatmap, file hotspots, branch activity, file
coupling, code ownership, change stability and release metrics.

## Layout

- `src/` — the library, verified with Verus. It computes every statistic
  from plain commit records (times, authors, parents, changed paths and
  lines), parses the time-window and duration syntaxes, filters paths by
  glob, and holds the settings, the cache keys, the timing collector and the
  decisions of the interactive front ends. Each public function states its
  result in its `ensures`. Where a result depends on a reading of the clock
  or the environment, the computation stands in a function of its own that
  takes the reading as an argument (`parse_time_spec_at`,
  `parse_instant_at`, `cache_dir_from`, `config_path_from`) and states its
  result exactly; the function that takes the reading states what holds
  whatever was read. Laws that relate several calls (such as the
  coupling counts not depending on the processing window, or one tab move
  undoing the other) are public proof functions.
  - `stats/` — one module per statistic, plus `path_filter` (glob filters)
    and the window helpers in `stats/mod.rs`.
  - `sorting`, `tally`, `text`, `clock`, `labels` — a stable verified sort,
    sums of counts, character-level text helpers, calendar readings through
    the `time` crate, and chart-label shortening.
- `app/` — the `crabgit` program: command-line parsing (`clap`), reading the
  repository (`git2`), the terminal interface (`ratatui`, `crossterm`), the
  menu (`dialoguer`), the settings file (`toml`), the on-disk cache
  (`serde_json`, `walkdir`), thread pools (`rayon`), and the floating-point
  figures and printing of the reports.
- `tests/` — tests of the library on concrete inputs.
