# zeroclaw_log

Reads pages of events, newest first, from a JSONL log whose history is spread
over an active file and the archives that rotation leaves beside it. Pages can
be followed by byte offset within a file, and by segment cursors across files;
a segment cursor keeps its place while the active file is rotated away.

- `src/` is the library, verified with Verus. It works on values: lines with
  the events they hold, directory listings, whole directories as they were
  found at one moment. The step-by-step types (`PageScan`, `AnchorScan`,
  `IdLookup`, `ResolveStep`, `QueryStage`) let a caller drive the same
  decisions from a file system.
- `app/` drives the library from the file system and holds the probes of what
  the reader assumes of open files.
- `tests/` runs the library on logs held in memory.

`src/paging.rs` and `src/walk.rs` prove that following cursors visits every
matching event exactly once, and that cursors survive rotation.
