# logcore

The core of a log viewer for Android logcat output, written in Verus: the parts that
parse, index, filter and classify log lines carry contracts that Verus proves.

Layout:

- `src/` — the verified library.
  - `parser`, `model`: reading `threadtime` and `time` lines into fields; `level_agreement`:
    the quick level-byte scan reads the level the full parser reads.
  - `indexer`: the incremental line index with sparse checkpoints.
  - `filter`: level masks and text filters; `bookmarks`: bookmarked lines.
  - `adb`: reading `adb devices -l`, picking a device, logcat command presets.
  - `config`, `encoding`, `export`, `mmap_source`: settings, text encodings, raw export,
    read-ahead windows.
  - `problems`: crash and ANR evidence — packed provenance, observation facts, the
    problem index with snapshots, event-log parsing, process instances, bounded
    correlation stores and memory budgets; `recognized` and `pairing`: merging two
    recognitions of one occurrence, and resolving the fault pairs that two sources report
    (targets, start barriers, work budget). The recognizers that read crashes, ANRs,
    restarts and low-memory kills from log lines, and the loop that feeds them line by
    line, are not part of this library.
- `tests/` — tests run against the compiled library.
- `app/` — the input and output around it: adb processes, configuration and bookmark
  files (TOML through serde), memory-mapped files and the process environment.
