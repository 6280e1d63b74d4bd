# treescout

A desktop file finder's search core, verified with Verus. A query in natural
language is parsed into keywords, extensions, a date, a size range and a path;
the file index (Everything) narrows the disk down to candidate files; a
virtual tree is built over the candidates and searched best-first, so that every
candidate is scored and the results come back highest score first.

Layout:

- `src/` — the verified library: query parsing (`parser`), the virtual tree
  (`tree`), the best-first search (`engine`), fixed-point scoring with an edit
  distance (`scoring`), the search pipeline (`pipeline`, `semantic`), the
  browse snapshot and its windows (`browse`, `everything`), folder listings
  (`listing`), the on-disk folder-embedding matrix format (`folder_matrix`,
  `embedding`), index planning (`indexing`), previews (`preview`), the
  fallback tokenizer (`tokenizer`), the evaluation cases (`tune`), and the
  text and path helpers they share (`text`, `paths`).
- `app/` — the unverified shell: file system and database access, memory
  maps, the embedding model, floating-point similarity and tuning, and the
  serialisable copies of the library's types.
- `tests/` — tests of the library on concrete values.
