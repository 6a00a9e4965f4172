# globazog

Multi-pattern globbing over directory trees: a set of glob patterns is answered
over a set of roots in one traversal, with declarative per-pattern emit filters,
a per-query descend filter, and results streamed through a bounded, no-drop
completion ring.

Layout:

- `src/` is the verified library (Verus). `syntax` holds the pattern dialects, the
  reversible name decoding, the matcher and pattern sets; `predicate` the filter
  vocabulary; `builder` the lowering of roots and patterns into a query, reading
  paths by the host's grammar (POSIX or Windows); `ring` the completion items and
  queues; `walk` the container bookkeeping and the per-entry emit / descend /
  root-confinement decisions; `sys` the shape of enumerated entries and the
  timestamp arithmetic.
- `app/` runs queries: the engine threads, the shared waitable queues and the
  directory reads (Linux: `getdents64` and `statx`; Windows:
  `GetFileInformationByHandleEx` through `windows-sys`; other Unix: `std::fs`).
- `tests/` exercises the library on concrete values.
