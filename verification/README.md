# graphify-plugin-test-coverage

Binds test coverage to the symbols of a Graphify code graph. Line coverage comes from LCOV
tracefiles or JSON payloads; for every node of the graph the library counts the measured and the
covered lines in its range, marks nodes with less than half of their lines covered as blindspots,
keeps the result as the snapshot of a workspace in the table `coverage_bindings`, and sums it up
in the packet that the plugin hands back to its host.

The library under `src/` is written in Verus and proved against its contracts. `app/` holds what
surrounds it: the SQLite connection, serde, floating-point rates and the host's plugin trait.

## Modules

| module | what it holds |
|---|---|
| `text` | characters, trimming, decimal numerals |
| `file_table` | paths with their line hits, in path order |
| `ingest` | LCOV tracefiles and JSON payloads |
| `graph` | the part of the code graph that coverage is bound to |
| `resolver` | which file a node belongs to, and what is bound to it |
| `registry` | rows and SQL of the table, and the replacement of a snapshot step by step |
| `sync` | the JSON summary and the packet |
| `clock` | civil dates and RFC 3339 timestamps |
| `plugin` | the plugin's state, errors and summaries |
| `table` | the table as a map, and what a replacement leaves in it |
| `source_laws`, `binding_laws`, `sum_laws`, `sync_laws`, `plugin_laws` | what holds of all inputs |

## What is trusted

Verus takes the following on trust; everything else is proved.

- `text`: `String::push` appends its character.
- `ingest::debug_quoted`: the `Debug` form of a string is a function of the string.
- `sync::render_record`: the compact text that `serde_json` gives a record of four members.
- `clock::seconds_since_epoch`: the system clock, of which nothing is claimed.
- `plugin::ExPathBuf`: a path is carried as it is.
