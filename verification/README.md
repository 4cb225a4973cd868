# bit

A small Git: objects, references, trees, the index, history traversal,
merges and checkouts. The library under `src/` holds the logic and is
verified with Verus; `app/` is the command-line front end that reads and
writes the repository's files and hands their contents to the library.

## Layout

- `src/areas/` — the object database (framing, compression, object files),
  the references (read from a snapshot of the repository directory; writes
  come back as values for the caller to perform) and the working tree.
- `src/artifacts/` — objects (blobs, trees, commits, identifiers), index
  entries, revisions and branch names, tree diffs and diff targets, log
  traversal and path filters, merge resolution and best common ancestors,
  checkout plans, and status records.
- `src/commands/` — what the `add`, `branch`, `log` and `merge` commands
  decide.
- `src/external.rs` and the wrappers beside their callers — the calls into
  `regex`, `sha1`, `flate2`, `chrono` and `colored`, each with the contract
  the library relies on.
- `tests/` — tests of the library through its public interface.

## Laws

Among the properties proved: stored objects read back (blobs, trees,
index entries, and commits whose author zones are whole minutes within a
day); reading a reference after writing it gives what was written. The
ancestor search and the log are built from the given commits, and their
parent tables are stated to list each commit's parents: over that history,
the log traversal hands out only commits reachable from the included
revisions, each once and never an excluded one, newest first, and all of
them when nothing is excluded; when identifiers are distinct and the
history has no cycles (as when every parent is older than its child), the
merge base found is a common ancestor that lies below no other common
ancestor, there is one whenever the two commits share an ancestor, and a
commit that is an ancestor of the other is its own merge base. A branch
name is accepted exactly when it is not empty, does not start with `.` or
`/`, does not end with `/` or `.lock`, holds none of `/.`, `..` and `@{`,
and holds no control character, space, DEL or any of `*:?[\~^`; such a
name (other than `@`) parses as itself, followed by `k` carets as its
`k`-th first parent, and followed by `~<g>` as its `g`-th ancestor. A merge in
which only one side, or both sides alike, changed a path never conflicts.
