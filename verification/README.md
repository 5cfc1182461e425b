# logfilter

A live, filtered view of a growing text file. A watcher reads the file line
by line into a shared content store and keeps a root list of positions; a
tree of documents follows it, each document keeping the positions of the
lines of its parent that its matcher (a regular expression, or everything)
accepts, and announcing its own growth to its children.

- `src/` is the verified library: the content stores, the matchers, the
  per-announcement logic of documents and nodes, the subdocument selection,
  the ingestion of lines, and the tree of nodes (kept in a `slab::Slab` with
  a `HashMap` of children).
- `app/` runs it: tokio tasks, locks and channels, file reading and inotify.
- `tests/` exercises the library on concrete values.
