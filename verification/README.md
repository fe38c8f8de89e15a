# monitor_app

A macOS hardware monitor whose decision-making core is verified with Verus.

The monitor samples CPU, memory, GPU and storage on a fixed cadence, keeps a
tiered metrics history (raw samples for an hour, 10 s buckets for a day,
60 s buckets for a week) and gives each storage medium an anonymous,
privacy-preserving identity so that a reused `diskN` address never joins
another disk's history.

## Layout

- `src/` — the verified library.  Every function carries a `requires` /
  `ensures` contract proved by Verus; properties that span several calls
  are stated as `law_*` proof functions.
  - `text` — character scanners and their specifications, shared by the
    parsers.
  - `parse` — `memory_pressure` labels and `ioreg` statistics.
  - `sampler` — memory and GPU figures, `sysctl` and `iostat` output, the
    flat disk list, the history rows of a snapshot, the cadence arithmetic.
  - `property_list` — `diskutil` property lists as plain data, with
    accessors the storage readers go through.
  - `storage` — the `diskutil` disk, disk-info and APFS listings, and the
    disk / APFS container / volume topology built from them.
  - `device_id` — the anonymous device identity registry.
  - `history` — aggregation cutoffs, query tiers, result thinning.
  - `query` — validation of history queries.
  - `processes` — per-process I/O baselines and the top-by-memory list.
  - `cmd`, `metric_status`, `settings`, `loginitem`, `termination`,
    `data_paths` — the command runner's decisions, sampling health,
    settings validation, login-item scripts, SIGTERM checks and data paths.
- `tests/` — tests of the library on concrete inputs.
- `app/` — the program around the library: process spawning, SQLite,
  sysinfo, clocks, threads and the command loop.
  It is plain Rust and is not verified.

## Running

`app/main.rs` reads commands from standard input (`info`, `processes`,
`history <metric> <object> <secs>`, `health`, …) and answers with JSON.
The data directory defaults to `~/Library/Application Support/` and can be
redirected with `MONITOR_DATA_DIR`.
