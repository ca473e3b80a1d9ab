# coded

Watches source trees and records, per scan, the line count of every file
in a key-value store, under keys of the form
`projects!<project dir>!<RFC 3339 time of the scan>!<file path>`.

- `src/` is the library, verified with Verus: keys and their bytes
  (`db`), dates and RFC 3339 text (`timestamp`), text decoding and
  splitting (`text`), project and file statistics and reading keys back
  (`project`), the order of keys (`order`), and what the pages compute
  (`controllers`). `chrono` computes date validity and RFC 3339 text.
- `app/` is the program around it: the store, the file system walk, the
  configuration file, the background scan and the web server.
- `tests/` runs the library.
