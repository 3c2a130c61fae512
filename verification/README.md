# sync-vault

An incremental backup tool: it watches a source directory and mirrors its
changes into a target directory. A file is copied only when its size or its
SHA-256 fingerprint differs from what was last copied; each copy is written
under a temporary name and renamed into place; files that disappear from the
source can be removed from the target; exclusion rules (`node_modules`,
`*.log`, ...) match path segments at any depth; bursts of change
notifications are debounced for 300 ms.

## Layout

- `src/` — the library, verified with Verus: byte-count rendering
  (`units`), path components and the source/target guard (`paths`),
  exclusion rules (`exclude`), content fingerprints (`digest`), the sync
  state (`store`), the scan and the per-file sync steps (`syncer`), a full sync as a whole
  (`sync_run`),
  notification debouncing (`debounce`), the session counters and the bounded
  log (`session`), the window icon (`icon`) and the settings (`config`).
- `app/` — the desktop program around it (egui window, file-system walking
  and copying, the file watcher, JSON persistence under `~/.sync-vault/`).
- `tests/` — tests of the library.
