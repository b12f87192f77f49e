# crate_names

Compact artifacts of every crate name on crates.io — `name \t version \t rank`
and `name \t description`, zstd-compressed TSV sorted by folded name — and a
sans-io reader for them. The reading and writing logic is proved in Verus,
including that the readers accept what the builder writes when no two crate
names fold the same.

Layout:

- `src/` — the verified library.
  - `read.rs`: `CrateNames` and `Descriptions`, the artifact readers
    (validation, folded lookup, prefix ranges, typeahead).
  - `tsv.rs`: the line and field grammar of the artifacts, as spec functions
    with the lemmas the readers rest on.
  - `order.rs`: name folding (ASCII lowercase, `-` as `_`) and the byte order
    on folded names.
  - `rank.rs`: the download rank `floor(8·log₂(n+1))`, saturating at 255,
    computed with integers only.
  - `format.rs`: file names, URLs, `normalize` and whitespace flattening.
  - `builder.rs`: turning the records of a database dump into rows, and
    writing the artifacts from them.
  - `text.rs`: UTF-8 boundary facts used to slice text by byte offsets.
  - `decode.rs`: the calls into `zstd` and `String::from_utf8`, with the
    contracts they are trusted to meet.
- `tests/` — tests of the library on concrete inputs.
- `app/` — the command-line program: reading the dump tarball and CSV
  tables, file I/O and argument handling.
