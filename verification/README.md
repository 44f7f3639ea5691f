# alog

An index over the logs that coding agents write: one JSON record per line, in
files that are only ever read. The index is a SQLite database that can be deleted
and built again; it points into the files and checks what it reads back.

The library under `src/` decides and computes, and Verus proves that it does what
its contracts say. The program under `app/` owns files, the database, threads and
the network, and hands plain values to the library.

| module | what it holds |
|---|---|
| `json` | JSON values, with `serde_json` for the texts of strings and numbers |
| `record`, `extract`, `codex` | from a line to a row, or to a reject with its reason |
| `store` | what a scan changes in the index, when a scan may be resumed, dumps |
| `sync` | which sessions go, which files are scanned, and what is counted |
| `query`, `search`, `preview`, `hints`, `suggest`, `doctor` | answers as text |
| `mcp` | the protocol for agents |
| `serve` | the viewer's requests and the JSON that answers them |
| `cli` | the command line |
| `text`, `civil`, `binary64` | characters, dates and binary64 numbers |

Functions whose names start with `law_` state what holds of several functions
together. The central ones:

- Scanning whole lines and then what was appended to them gives what one scan of
  all gives (`extract::law_scan_resumes`).
- Every row gives back its record: the bytes at its offset have its hash
  (`extract::law_rows_read_back`).
- After a file has been scanned again the index holds a scan of the file, though
  it may have read the end alone (`store::law_index_follows_file`).
- Synchronising twice is synchronising once, whatever was done to the files before
  (`store::law_second_sync_of_all`, `sync::law_unchanged_files`).
- New sessions are numbered in the order of their paths
  (`sync::law_numbers_follow_paths`, `sync::law_numbers_from_empty`).
- The dump of a log whose every line became a row is the log, byte for byte
  (`store::law_dump_identical`).
- Every string that is written as JSON is read back, by `serde_json` and by the
  protocol's own reader (`json::law_quote_decodes`,
  `mcp::law_argument_reads_back`).
- The distance between two words is the least number of edits of one character
  (`suggest::law_distance_least`).
- A table, a search or a list of turns that was cut says so
  (`query::law_table_says_cut`, `search::law_search_says_cut`,
  `query::law_turns_say_cut`).

What the proofs rest on besides Verus and its library are the functions whose doc
comments start with "Trusted". They call `crc32fast`, `memchr`, `serde_json` (with
`serde`) and the standard library.
