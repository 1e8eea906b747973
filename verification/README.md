# trace_core

Analysis of instruction traces, verified with Verus.

A trace is a text file with one executed instruction per line. The library
takes the decoded lines of a trace and

- finds, for every line, the lines that it depends on (`src/scanner`), also for
  chunks of a large trace that are scanned side by side (`src/parallel.rs`) and
  merged afterwards (`src/merge`);
- rebuilds the calls with their boundaries, the memory accesses and the register
  values (`src/query`), and answers questions about them (`src/engine`);
- searches the memory that a trace shows over time for a byte pattern
  (`src/memory_search`), page by page and through a cache;
- lays out, checks and reads back the files in which all this is kept
  (`src/flat`, `src/cache.rs`, `src/staging.rs`).

What the library assumes of other crates is in `src/foreign.rs`; the rest is
proved. Properties that span several functions are proof functions whose names
begin with `law_`.

`app/` is the command line program around the library: files, descriptors,
threads, serialisation and the trace parser. `tests/` holds the tests.
