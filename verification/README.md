# markdown_btree_core

An index of a Markdown document as a tree of sections. Headings (`#` to
`######`, or `<h1>` to `<h6>`) become sections addressed by slash-separated
slug paths (`chapter-1/introduction`); reference definitions (`[id]: url`)
become a lookup table; every other line is content of the section it stands
in. The index answers paginated listings, section reads (with or without
sub-sections), reference lookups and case-insensitive title searches.

Layout:

- `src/text.rs` — the character-level model (trimming, ASCII case folding,
  substring search, line splitting, decimal rendering) and its functions.
- `src/table.rs` — a table keyed by paths, kept sorted in `String` order.
- `src/engine.rs` — slugs, line classification, the index model, the
  line-by-line build that `MarkdownEngine::new` performs, and the queries.
- `src/db.rs` — `MarkdownDB`, the document handle.
- `src/laws.rs` — properties that span several queries.
- `app/lib.rs` — the WebAssembly bindings and the serialisable result types.
