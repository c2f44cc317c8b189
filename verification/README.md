# CrashLens

CrashLens is a desktop explorer for Windows and Breakpad minidumps
(`.dmp`/`.mdmp`). It parses a dump locally, walks its stacks, and presents
the crash through investigation screens: overview, threads, modules, memory,
streams, symbols, search, comparison of two dumps, and exports.

## Layout

- `src/` is the library, verified with Verus. It holds the report model and
  everything the application decides or computes:
  - `report.rs`: the typed report, addresses and their text forms;
  - `analyzer.rs`: building a report from a dump's bytes and from the stack
    walker's output (the minidump parser is called behind trusted wrappers);
  - `memory.rs`, `memory_view.rs`: address classification, pointer decoding
    and chains, strings, region roles, relevance and the memory screen's cache;
  - `investigation.rs`, `export.rs`: likely causes, signatures, search, source
    excerpts, Markdown and plain-text reports and bundles;
  - `view_model.rs`, `panels.rs`, `screens.rs`: what each screen shows;
  - `state.rs`, `session.rs`, `scanner.rs`, `coordinator.rs`: the dump
    library, comparison selection, symbol settings, the scan's work queue and
    the application state machine;
  - `text.rs`, `path.rs`: string and path helpers with their models.
- `app/` is the egui application around the library: the window and screens,
  file and directory access, exports to disk, the background analysis and
  scan threads, and the stack walker run.
- `tests/` exercises the library on concrete values.
