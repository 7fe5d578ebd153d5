# orgsidian

The verified core of an Org-mode note vault: the semantic layer over a parsed
Org document, the byte-faithful serializer, planning-timestamp editing, the
rules of the SQLite index (pragmas, identity stamp, integrity verdicts, agenda
and dashboard assembly) and the shell's small decisions (paths, date shortcuts,
preferences).

Layout:

- `src/text.rs` — byte and string helpers with their specifications.
- `src/semantic/` — syntax-tree model, headlines, TODO configuration,
  timestamps (parse, format, arithmetic, planning edits and their read-back
  laws), drawers and clocks, links.
- `src/serializer.rs` — serialization and the round-trip law.
- `src/index/` — pure index rules; the SQL itself runs in `app/`.
- `src/shell/` — shell decisions that need no window system.
- `src/plugin.rs` — the plugin trait and its default behaviour.
- `app/` — tree-sitter parsing, SQLite access, the connection pool and the
  writer thread, serde copies of library types.
- `tests/` — scenario tests for every module and concrete checks of each law.
