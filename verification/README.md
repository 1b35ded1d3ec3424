# scripture_os

A library for addressing, storing and reading scripture texts by word, with its logic
verified by Verus.

Every word (and every structural marker such as `AYAH:1`) of a work becomes an *atom*
placed by a work, a macro container (a surah, a book), a namespace track (the root text
or a translation), a set of flags and a base-62 key that sorts in reading order. The
library turns source lines into such atoms, resolves human references such as
`"Jn 17:3-5"` into coordinate paths, reads atoms back in key order and renders them as
text.

## Layout

- `src/` — the verified library:
  - `text` — Unicode whitespace, trimming, splitting, lines and decimal numbers, as
    specifications with verified implementations;
  - `fsi` — the coordinate models, the base-62 keys (`lex_key`: sequential keys and
    midpoints, with their ordering laws) and the seeding state machines (`seeder`,
    `format_seeder`), which hand batches out for storage and keep them pending until
    their storage is confirmed;
  - `engines` — reference resolution, verse assembly, search windows and atom building;
  - `parsers` — the pipe-delimited text parser;
  - `repository::fsi_mock` — an in-memory store whose reads are a stable sort by key;
  - `lexicon`, `models`, `utils` — small shared types.
- `tests/` — tests of the library on concrete values.
- `app/` — the server and seeding programs around the library: HTTP, PostgreSQL, file
  and CSV reading, and the copies of library types that carry serialisation derives.

Calls into `smallvec`, `blake3` and `regex` go through a few trusted wrappers whose
contracts are stated next to them; everything else in `src/` is proved.
