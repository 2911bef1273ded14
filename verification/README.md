# Folio

A personal planner and Markdown notes vault. Notes are plain Markdown files at portable
paths in a vault; a SQL index makes them searchable and lists their tasks. This crate is the
verified core of the service: the rules it applies at each step are stated as contracts and
proved. Hashing, encodings, UUIDs and the Markdown preview come from outside crates, and their
results are named rather than computed. The request flows that call the store several times
(folder rename, migration, rebuild, moves) are run by `app/`; what holds after a series of
such requests is not stated.

## Layout

- `src/` — the library, verified.
  - `text`, `linebreaks`, `order` — the character model of strings, cutting text into lines,
    `str` order and sorted lists.
  - `paths`, `planner`, `note` — vault paths and path handles, folder/date/time rules,
    checkbox extraction, note summaries, title edits.
  - `folders`, `vault`, `listing`, `storage` — the folder hierarchy and its resumable rename,
    canonical note paths and journaled moves, browsing pages, storage listings.
  - `indexing`, `planning`, `writeback` — tasks indexed from checkboxes, task and goal edits,
    and what an edited task writes back into its note.
  - `recovery` — batched index rebuild and vault migration.
  - `routes`, `service`, `gateway`, `auth`, `tokens`, `password`, `crypto`, `failure`,
    `timing` — request handling, sign-in, access tokens, hashing, timings.
  - `preview` — the sanitized Markdown preview.
  - `client` — what the browser client decides about drafts, pending edits and the folder tree.
- `tests/` — tests of the library.
- `app/` — the local server: HTTP, the SQLite/file store, and the request flows that call
  the library.

Sets and maps of paths (the client's expanded folders and listings, the server timings) are
kept as `Vec`s in strict `str` order, with that order as an invariant or a precondition: their
keys are strings, and the library states and proves its contracts over the sequence, which a
string-keyed `BTreeMap` or `BTreeSet` does not let it do.
